//! The marble game: players place numbered marbles in a circle, and every
//! twenty-third marble scores. The winner's score for a number of players
//! and marbles, and for a hundred times as many marbles.

use crate::pattern::{fields_of, match_fields};
use crate::text::{as_usize, chars_of, decimal, opt_view, read_usize, usize_string, views};
use std::collections::VecDeque;
use vstd::prelude::*;

verus! {

/// The circle with its first marble moved to the end.
pub open spec fn turned_left(c: Seq<usize>) -> Seq<usize> {
    c.subrange(1, c.len() as int).push(c[0])
}

/// The circle with its last marble moved to the front, `n` times.
pub open spec fn turned_right(c: Seq<usize>, n: nat) -> Seq<usize>
    decreases n,
{
    if n == 0 {
        c
    } else {
        let before = turned_right(c, (n - 1) as nat);
        seq![before.last()] + before.drop_last()
    }
}

/// The game as plain values: the circle, the current marble last; the
/// players' scores; and whose turn it is.
pub struct Table {
    pub circle: Seq<usize>,
    pub scores: Seq<usize>,
    pub current: int,
}

/// The table after the player whose turn it is has played `marble`. A marble
/// that is no multiple of 23 goes one marble further round the circle. A
/// multiple of 23 is kept, together with the marble seven places back, which
/// is taken off; both count for the player. `None` where there is no player,
/// the circle runs out of marbles, or the score does not fit in a `usize`.
pub open spec fn placed(t: Table, marble: usize) -> Option<Table> {
    let back = turned_right(t.circle, 7);
    let gain = back.last() + marble;
    if t.scores.len() == 0 || t.circle.len() == 0 {
        None
    } else if marble % 23 != 0 {
        Some(
            Table {
                circle: turned_left(t.circle).push(marble),
                scores: t.scores,
                current: (t.current + 1) % (t.scores.len() as int),
            },
        )
    } else if t.circle.len() < 2 || t.scores[t.current] + gain > usize::MAX {
        None
    } else {
        Some(
            Table {
                circle: turned_left(back.drop_last()),
                scores: t.scores.update(t.current, (t.scores[t.current] + gain) as usize),
                current: (t.current + 1) % (t.scores.len() as int),
            },
        )
    }
}

/// The table after the marbles 1 to `n` have been played in turn, starting
/// with marble 0 alone in the circle and the first player.
pub open spec fn played(players: nat, n: nat) -> Option<Table>
    decreases n,
{
    if n == 0 {
        Some(Table { circle: seq![0usize], scores: Seq::new(players, |i: int| 0usize), current: 0 })
    } else {
        match played(players, (n - 1) as nat) {
            Some(t) => placed(t, n as usize),
            None => None,
        }
    }
}

/// The greatest of the first `n` scores; 0 where `n` is 0.
pub open spec fn best(scores: Seq<usize>, n: nat) -> usize
    decreases n,
{
    if n == 0 {
        0
    } else if scores[n - 1] > best(scores, (n - 1) as nat) {
        scores[n - 1]
    } else {
        best(scores, (n - 1) as nat)
    }
}

/// The winner's score once the marbles 1 to `marbles` have been played.
/// `None` where there is no marble to play, the marbles are as many as a
/// `usize` counts, or the game cannot be played to the end.
pub open spec fn high_score(players: nat, marbles: nat) -> Option<usize> {
    if marbles == 0 || marbles >= usize::MAX {
        None
    } else {
        match played(players, marbles) {
            Some(t) => Some(best(t.scores, t.scores.len())),
            None => None,
        }
    }
}

/// A game in progress.
pub struct Circle {
    pub circle: VecDeque<usize>,
    pub next_marble: usize,
    pub last_marble: usize,
    pub players: Vec<usize>,
    pub current_player: usize,
}

impl Circle {
    /// The game as plain values.
    pub open spec fn table(&self) -> Table {
        Table { circle: self.circle@, scores: self.players@, current: self.current_player as int }
    }

    /// The marbles still to play are those from the next to the last, and it
    /// is the turn of one of the players.
    pub open spec fn wf(&self) -> bool {
        &&& 1 <= self.next_marble <= self.last_marble + 1
        &&& self.last_marble < usize::MAX
        &&& self.players.len() > 0 ==> self.current_player < self.players.len()
        &&& self.players.len() == 0 ==> self.current_player == 0
    }

    /// A new game: marble 0 in the circle, and the marbles 1 to `marbles`
    /// to play.
    pub fn new(players: usize, marbles: usize) -> (c: Circle)
        requires
            marbles < usize::MAX,
        ensures
            c.wf(),
            c.next_marble == 1,
            c.last_marble == marbles,
            Some(c.table()) == played(players as nat, 0),
    {
        let mut circle: VecDeque<usize> = VecDeque::new();
        circle.push_back(0);
        let scores: Vec<usize> = vec![0usize; players];
        assert(circle@ =~= seq![0usize]);
        assert(scores@ =~= Seq::new(players as nat, |i: int| 0usize));
        Circle { circle, next_marble: 1, last_marble: marbles, players: scores, current_player: 0 }
    }

    /// Plays the next marble. Gives whether marbles are left to play, or
    /// `None` where the marble cannot be played.
    pub fn step(&mut self) -> (r: Option<bool>)
        requires
            old(self).wf(),
            old(self).next_marble <= old(self).last_marble,
        ensures
            match placed(old(self).table(), old(self).next_marble) {
                Some(t) => {
                    &&& r == Some(final(self).next_marble <= final(self).last_marble)
                    &&& final(self).table() == t
                    &&& final(self).wf()
                    &&& final(self).next_marble == old(self).next_marble + 1
                    &&& final(self).last_marble == old(self).last_marble
                },
                None => r is None,
            },
    {
        let marble = self.next_marble;
        let ghost start = self.circle@;
        if self.players.len() == 0 {
            return None;
        }
        if marble % 23 != 0 {
            let f = match self.circle.pop_front() {
                Some(f) => f,
                None => {
                    return None;
                },
            };
            self.circle.push_back(f);
            self.circle.push_back(marble);
        } else {
            if self.circle.len() < 2 {
                return None;
            }
            let mut k: usize = 0;
            while k < 7
                invariant
                    k <= 7,
                    start.len() >= 2,
                    self.circle@ == turned_right(start, k as nat),
                    self.circle@.len() == start.len(),
                    self.players == old(self).players,
                    self.current_player == old(self).current_player,
                    self.next_marble == old(self).next_marble,
                    self.last_marble == old(self).last_marble,
                decreases 7 - k,
            {
                let ghost before = self.circle@;
                let b = self.circle.pop_back().unwrap();
                self.circle.push_front(b);
                assert(self.circle@ =~= seq![before.last()] + before.drop_last());
                k += 1;
            }
            let ghost back = self.circle@;
            let removed = self.circle.pop_back().unwrap();
            assert(self.circle@ =~= back.drop_last());
            let f = self.circle.pop_front().unwrap();
            self.circle.push_back(f);
            let gain = match removed.checked_add(marble) {
                Some(g) => g,
                None => {
                    return None;
                },
            };
            let score = match self.players[self.current_player].checked_add(gain) {
                Some(s) => s,
                None => {
                    return None;
                },
            };
            self.players[self.current_player] = score;
        }
        self.current_player = (self.current_player + 1) % self.players.len();
        self.next_marble = marble + 1;
        Some(self.next_marble <= self.last_marble)
    }

    /// The greatest score.
    pub fn winner_score(&self) -> (r: usize)
        ensures
            r == best(self.players@, self.players.len() as nat),
    {
        let mut top: usize = 0;
        let mut i: usize = 0;
        while i < self.players.len()
            invariant
                i <= self.players.len(),
                top == best(self.players@, i as nat),
            decreases self.players.len() - i,
        {
            if self.players[i] > top {
                top = self.players[i];
            }
            i += 1;
        }
        top
    }
}

/// Once a marble cannot be played, the game cannot be played on.
pub proof fn stopped_stays(players: nat, k: nat, n: nat)
    requires
        k <= n,
        played(players, k) is None,
    ensures
        played(players, n) is None,
    decreases n - k,
{
    if k < n {
        stopped_stays(players, k, (n - 1) as nat);
    }
}

/// Plays the marbles 1 to `marbles` and gives the winner's score.
pub fn play(players: usize, marbles: usize) -> (r: Option<usize>)
    ensures
        r == high_score(players as nat, marbles as nat),
{
    if marbles == 0 || marbles == usize::MAX {
        return None;
    }
    let mut circle = Circle::new(players, marbles);
    loop
        invariant_except_break
            circle.wf(),
            0 < marbles < usize::MAX,
            circle.last_marble == marbles,
            circle.next_marble <= marbles,
            Some(circle.table()) == played(players as nat, (circle.next_marble - 1) as nat),
        ensures
            Some(circle.table()) == played(players as nat, marbles as nat),
        decreases marbles - circle.next_marble,
    {
        let ghost marble = circle.next_marble as nat;
        match circle.step() {
            Some(more) => {
                if !more {
                    break;
                }
            },
            None => {
                proof {
                    stopped_stays(players as nat, marble, marbles as nat);
                }
                return None;
            },
        }
    }
    Some(circle.winner_score())
}

/// The expression that the input is matched against.
pub open spec fn game_pattern() -> Seq<char> {
    "(\\d+) players; last marble is worth (\\d+) points"@
}

/// The numbers of players and marbles that the input writes.
pub open spec fn game_of(input: Seq<char>) -> Option<(usize, usize)> {
    match fields_of(game_pattern(), input, 2) {
        Some(f) => match (as_usize(f[0]), as_usize(f[1])) {
            (Some(players), Some(marbles)) => Some((players, marbles)),
            _ => None,
        },
        None => None,
    }
}

/// The winner's score in decimal.
pub open spec fn score_text(score: Option<usize>) -> Option<Seq<char>> {
    match score {
        Some(s) => Some(decimal(s as nat)),
        None => None,
    }
}

/// The winner's score, in decimal, together with the numbers of players and
/// marbles. `None` where the input does not name them, or the game cannot be
/// played to the end.
pub fn part1(input: &str) -> (r: Option<(String, (usize, usize))>)
    ensures
        match game_of(input@) {
            Some(game) => match r {
                Some((s, out)) => score_text(high_score(game.0 as nat, game.1 as nat)) == Some(s@)
                    && out == game,
                None => high_score(game.0 as nat, game.1 as nat) is None,
            },
            None => r is None,
        },
{
    let chars = chars_of(input);
    let f = match match_fields("(\\d+) players; last marble is worth (\\d+) points", &chars, 2) {
        Some(f) => f,
        None => {
            return None;
        },
    };
    assert(views(f@).len() == 2);
    assert(views(f@)[0] == f[0]@ && views(f@)[1] == f[1]@);
    let (players, marbles) = match (read_usize(&f[0]), read_usize(&f[1])) {
        (Some(p), Some(m)) => (p, m),
        _ => {
            return None;
        },
    };
    match play(players, marbles) {
        Some(score) => Some((usize_string(score), (players, marbles))),
        None => None,
    }
}

/// The winner's score with a hundred times as many marbles, in decimal.
/// `None` where that number does not fit in a `usize`, or the game cannot be
/// played to the end.
pub fn part2(_input: &str, game: (usize, usize)) -> (r: Option<String>)
    ensures
        opt_view(r) == (if game.1 * 100 <= usize::MAX {
            score_text(high_score(game.0 as nat, (game.1 * 100) as nat))
        } else {
            None
        }),
{
    let (players, marbles) = game;
    let many = match marbles.checked_mul(100) {
        Some(m) => m,
        None => {
            return None;
        },
    };
    match play(players, many) {
        Some(score) => Some(usize_string(score)),
        None => None,
    }
}

} // verus!
