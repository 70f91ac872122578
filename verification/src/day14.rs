//! A scoreboard of recipes that two elves extend by combining their current
//! recipes: the ten scores after a number of recipes, and how many recipes
//! come before a given run of scores.

use crate::text::{as_usize, chars_of, decimal, digit_char, is_digit, opt_view, read_usize,
    string_of, trim, trimmed, usize_string};
use vstd::prelude::*;

verus! {

/// The scoreboard and the places of the two elves' current recipes.
pub struct Kitchen {
    pub board: Seq<u8>,
    pub first: int,
    pub second: int,
}

/// Every score on the board is a single digit, and both elves stand on the
/// board.
pub open spec fn tidy(k: Kitchen) -> bool {
    &&& 0 <= k.first < k.board.len()
    &&& 0 <= k.second < k.board.len()
    &&& forall|i: int| 0 <= i < k.board.len() ==> (#[trigger] k.board[i]) <= 9
}

/// The kitchen after one round: the digits of the sum of the two current
/// recipes are added to the board, and each elf moves on by one more than
/// the score of its current recipe, round the board.
pub open spec fn cooked(k: Kitchen) -> Kitchen {
    let sum = k.board[k.first] + k.board[k.second];
    let board = if sum > 9 {
        k.board.push((sum / 10) as u8).push((sum % 10) as u8)
    } else {
        k.board.push(sum as u8)
    };
    Kitchen {
        board,
        first: (k.first + 1 + k.board[k.first]) % (board.len() as int),
        second: (k.second + 1 + k.board[k.second]) % (board.len() as int),
    }
}

/// The kitchen at the start: scores 3 and 7, one elf on each.
pub open spec fn opening() -> Kitchen {
    Kitchen { board: seq![3u8, 7u8], first: 0, second: 1 }
}

/// The kitchen after `n` rounds.
pub open spec fn after_rounds(n: nat) -> Kitchen
    decreases n,
{
    if n == 0 {
        opening()
    } else {
        cooked(after_rounds((n - 1) as nat))
    }
}

/// A round keeps the kitchen tidy and adds one or two scores.
pub proof fn cooked_is_tidy(k: Kitchen)
    requires
        tidy(k),
    ensures
        tidy(cooked(k)),
        k.board.len() < cooked(k).board.len() <= k.board.len() + 2,
{
    let sum = k.board[k.first] + k.board[k.second];
    assert(k.board[k.first] <= 9 && k.board[k.second] <= 9);
    let c = cooked(k);
    assert forall|i: int| 0 <= i < c.board.len() implies (#[trigger] c.board[i]) <= 9 by {
        if i < k.board.len() {
            assert(k.board[i] <= 9);
        }
    }
}

/// The kitchen with the given board and elves.
pub open spec fn kitchen(board: Seq<u8>, first: usize, second: usize) -> Kitchen {
    Kitchen { board, first: first as int, second: second as int }
}

/// A round can be played: both elves stand on the board, the sum of their
/// scores fits in a `u8`, and the places they move on to can be computed in
/// a `usize`.
pub open spec fn ready(k: Kitchen) -> bool {
    &&& 0 <= k.first < k.board.len()
    &&& 0 <= k.second < k.board.len()
    &&& k.board[k.first] + k.board[k.second] <= u8::MAX
    &&& k.first + 1 + k.board[k.first] <= usize::MAX
    &&& k.second + 1 + k.board[k.second] <= usize::MAX
}

/// One round.
pub fn step(elf1: &mut usize, elf2: &mut usize, scores: &mut Vec<u8>)
    requires
        ready(kitchen(old(scores)@, *old(elf1), *old(elf2))),
    ensures
        kitchen(final(scores)@, *final(elf1), *final(elf2)) == cooked(
            kitchen(old(scores)@, *old(elf1), *old(elf2)),
        ),
{
    let new_score: u8 = scores[*elf1] + scores[*elf2];
    if new_score > 9 {
        scores.push(new_score / 10);
        scores.push(new_score % 10);
    } else {
        scores.push(new_score);
    }
    *elf1 = (*elf1 + 1 + scores[*elf1] as usize) % scores.len();
    *elf2 = (*elf2 + 1 + scores[*elf2] as usize) % scores.len();
}

/// The ten scores that follow the first `count` on the board, as digits.
/// After `count + 10` rounds the board holds them, and no later round
/// changes a score that is on the board.
pub open spec fn next_ten(count: nat) -> Seq<char> {
    let board = after_rounds(count + 10).board;
    Seq::new(10, |i: int| digit_char(board[count + i] as nat))
}

/// What part one answers: the input, trimmed, names a number of recipes.
pub open spec fn ten_answer(input: Seq<char>) -> Option<Seq<char>> {
    match as_usize(trim(input)) {
        Some(count) => if count + 12 <= usize::MAX - 12 {
            Some(next_ten(count as nat))
        } else {
            None
        },
        None => None,
    }
}

/// Every kitchen reached from the opening is tidy, and its board has two
/// scores more than rounds were played, or more.
pub proof fn always_tidy(n: nat)
    ensures
        tidy(after_rounds(n)),
        after_rounds(n).board.len() >= n + 2,
    decreases n,
{
    if n > 0 {
        always_tidy((n - 1) as nat);
        cooked_is_tidy(after_rounds((n - 1) as nat));
    }
}

/// A later board starts with every earlier board.
pub proof fn board_grows(m: nat, n: nat)
    requires
        m <= n,
    ensures
        after_rounds(m).board.len() <= after_rounds(n).board.len(),
        forall|i: int|
            0 <= i < after_rounds(m).board.len() ==> after_rounds(m).board[i] == after_rounds(
                n,
            ).board[i],
    decreases n - m,
{
    if m < n {
        board_grows(m, (n - 1) as nat);
        always_tidy((n - 1) as nat);
        cooked_is_tidy(after_rounds((n - 1) as nat));
    }
}

/// The ten scores that follow the first so many on the board, in decimal,
/// where the input, trimmed, names that number. `None` where it names none,
/// or the board would hold more scores than this machine can.
pub fn part1(input: &str) -> (r: Option<(String, ())>)
    ensures
        (match r {
            Some((s, _)) => Some(s@),
            None => None,
        }) == ten_answer(input@),
{
    let chars = chars_of(input);
    let count = match read_usize(&trimmed(&chars)) {
        Some(c) => c,
        None => {
            return None;
        },
    };
    if count > usize::MAX - 24 {
        return None;
    }
    let mut elf1: usize = 0;
    let mut elf2: usize = 1;
    let mut scores: Vec<u8> = Vec::new();
    scores.push(3);
    scores.push(7);
    assert(scores@ =~= seq![3u8, 7u8]);
    let ghost mut n: nat = 0;
    while scores.len() < count + 10
        invariant
            count <= usize::MAX - 24,
            scores.len() <= count + 11,
            kitchen(scores@, elf1, elf2) == after_rounds(n),
            tidy(after_rounds(n)),
            n <= count + 10,
        decreases count + 11 - scores.len(),
    {
        proof {
            always_tidy(n);
            cooked_is_tidy(after_rounds(n));
        }
        let ghost before = scores@;
        step(&mut elf1, &mut elf2, &mut scores);
        assert(scores@ == cooked(after_rounds(n)).board);
        assert(scores@.len() > before.len());
        proof {
            n = n + 1;
        }
    }
    proof {
        board_grows(n, (count + 10) as nat);
    }
    let mut out: Vec<char> = Vec::new();
    let mut i: usize = 0;
    while i < 10
        invariant
            i <= 10,
            count + 10 <= scores.len(),
            out.len() == i,
            tidy(kitchen(scores@, elf1, elf2)),
            forall|j: int| 0 <= j < i ==> out[j] == digit_char(scores[count + j] as nat),
        decreases 10 - i,
    {
        let d: u8 = scores[count + i];
        assert(d <= 9);
        out.push((48 + d) as char);
        i += 1;
    }
    assert(out@ =~= next_ten(count as nat));
    Some((string_of(&out), ()))
}

/// The scores that the text writes, one for each character; `None` where a
/// character is no decimal digit.
pub open spec fn scores_of(t: Seq<char>) -> Option<Seq<u8>> {
    if forall|i: int| 0 <= i < t.len() ==> is_digit(#[trigger] t[i]) {
        Some(Seq::new(t.len(), |i: int| (t[i] as u32 - 48) as u8))
    } else {
        None
    }
}

/// The board ends with the scores `pat` once its last `back` scores are left
/// out.
pub open spec fn ends_with(board: Seq<u8>, pat: Seq<u8>, back: nat) -> bool {
    board.len() >= pat.len() + back && board.subrange(
        board.len() - pat.len() - back,
        board.len() - back,
    ) == pat
}

/// After `n` rounds the board ends with `pat`, with or without its last
/// score.
pub open spec fn found_at(n: nat, pat: Seq<u8>) -> bool {
    ends_with(after_rounds(n).board, pat, 0) || ends_with(after_rounds(n).board, pat, 1)
}

/// After `n` rounds there is room on the board for another round.
pub open spec fn room_at(n: nat) -> bool {
    after_rounds(n).board.len() <= usize::MAX - 12
}

/// `n` is the first round, counting from one, after which the board ends
/// with `pat`, and before every round up to it there was room for it.
pub open spec fn first_found(n: nat, pat: Seq<u8>) -> bool {
    &&& n >= 1
    &&& found_at(n, pat)
    &&& forall|j: nat| j < n ==> #[trigger] room_at(j)
    &&& forall|j: nat| 1 <= j < n ==> !#[trigger] found_at(j, pat)
}

/// How many scores stand on the board before `pat` when it first ends with
/// `pat`, looking after every round.
pub open spec fn recipes_before(pat: Seq<u8>) -> Option<nat> {
    if exists|n: nat| first_found(n, pat) {
        let n = choose|n: nat| first_found(n, pat);
        let board = after_rounds(n).board;
        if ends_with(board, pat, 0) {
            Some((board.len() - pat.len()) as nat)
        } else {
            Some((board.len() - 1 - pat.len()) as nat)
        }
    } else {
        None
    }
}

/// What part two answers: the input, trimmed, writes the scores to look for.
pub open spec fn before_answer(input: Seq<char>) -> Option<Seq<char>> {
    match scores_of(trim(input)) {
        Some(pat) => match recipes_before(pat) {
            Some(n) => Some(decimal(n)),
            None => None,
        },
        None => None,
    }
}

/// There is at most one first round after which the board ends with `pat`.
pub proof fn first_found_is_unique(n: nat, pat: Seq<u8>)
    requires
        first_found(n, pat),
    ensures
        (choose|k: nat| first_found(k, pat)) == n,
{
    let other = choose|k: nat| first_found(k, pat);
    assert(first_found(other, pat));
    if other < n {
        assert(!found_at(other, pat));
    } else if n < other {
        assert(!found_at(n, pat));
    }
}

/// Reads one score from each character.
pub fn read_scores(t: &Vec<char>) -> (r: Option<Vec<u8>>)
    ensures
        match r {
            Some(v) => scores_of(t@) == Some(v@),
            None => scores_of(t@) is None,
        },
{
    let mut out: Vec<u8> = Vec::new();
    let mut i: usize = 0;
    while i < t.len()
        invariant
            i <= t.len(),
            out.len() == i,
            forall|j: int| 0 <= j < i ==> is_digit(#[trigger] t[j]) && out[j] == (t[j] as u32 - 48) as u8,
        decreases t.len() - i,
    {
        let c = t[i];
        if !(c >= '0' && c <= '9') {
            return None;
        }
        out.push((c as u32 - 48) as u8);
        i += 1;
    }
    assert(out@ =~= Seq::new(t@.len(), |i: int| (t@[i] as u32 - 48) as u8));
    Some(out)
}

/// Whether the board ends with `pat` once its last `back` scores are left
/// out.
pub fn ends(board: &Vec<u8>, pat: &Vec<u8>, back: usize) -> (r: bool)
    requires
        back <= 1,
    ensures
        r == ends_with(board@, pat@, back as nat),
{
    if board.len() < back || board.len() - back < pat.len() {
        return false;
    }
    let from: usize = board.len() - back - pat.len();
    let mut i: usize = 0;
    while i < pat.len()
        invariant
            i <= pat.len(),
            from + pat.len() + back == board.len(),
            forall|j: int| 0 <= j < i ==> board[from + j] == pat[j],
        decreases pat.len() - i,
    {
        if board[from + i] != pat[i] {
            assert(board@.subrange(from as int, from + pat.len())[i as int] == board[from + i]);
            return false;
        }
        i += 1;
    }
    assert(board@.subrange(from as int, from + pat.len()) =~= pat@);
    true
}

/// How many scores stand on the board before the scores that the input,
/// trimmed, writes, when the board first ends with them after a round, with
/// or without its last score; in decimal. `None` where a character of the
/// input is no digit, or the board would hold more scores than this machine
/// can.
pub fn part2(input: &str, _unit: ()) -> (r: Option<String>)
    ensures
        opt_view(r) == before_answer(input@),
{
    let chars = chars_of(input);
    let pat = match read_scores(&trimmed(&chars)) {
        Some(p) => p,
        None => {
            return None;
        },
    };
    let mut elf1: usize = 0;
    let mut elf2: usize = 1;
    let mut scores: Vec<u8> = Vec::new();
    scores.push(3);
    scores.push(7);
    assert(scores@ =~= seq![3u8, 7u8]);
    let ghost mut n: nat = 0;
    loop
        invariant
            scores_of(trim(input@)) == Some(pat@),
            kitchen(scores@, elf1, elf2) == after_rounds(n),
            tidy(after_rounds(n)),
            forall|j: nat| j < n ==> #[trigger] room_at(j),
            forall|j: nat| 1 <= j <= n ==> !#[trigger] found_at(j, pat@),
        decreases usize::MAX - scores.len(),
    {
        if scores.len() > usize::MAX - 12 {
            assert(!room_at(n));
            assert forall|m: nat| !first_found(m, pat@) by {
                if 1 <= m <= n {
                    assert(!found_at(m, pat@));
                }
            }
            return None;
        }
        assert(room_at(n));
        proof {
            cooked_is_tidy(after_rounds(n));
        }
        let ghost before = scores@;
        step(&mut elf1, &mut elf2, &mut scores);
        assert(scores@ == cooked(after_rounds(n)).board);
        assert(scores@.len() > before.len());
        proof {
            n = n + 1;
        }
        if ends(&scores, &pat, 0) {
            proof {
                assert(found_at(n, pat@));
                assert(first_found(n, pat@));
                first_found_is_unique(n, pat@);
                assert(recipes_before(pat@) == Some((scores.len() - pat.len()) as nat));
            }
            return Some(usize_string(scores.len() - pat.len()));
        }
        if ends(&scores, &pat, 1) {
            proof {
                assert(found_at(n, pat@));
                assert(first_found(n, pat@));
                first_found_is_unique(n, pat@);
                assert(recipes_before(pat@) == Some((scores.len() - 1 - pat.len()) as nat));
            }
            return Some(usize_string(scores.len() - 1 - pat.len()));
        }
    }
}

} // verus!
