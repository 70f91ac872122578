//! Steps that must wait for other steps: the order in which one worker
//! takes them, and how long five workers need.

use crate::pattern::{fields_of, match_fields};
use crate::text::{
    chars_of, isize_string, lines, lines_of, opt_view, signed_decimal, string_of, views,
};
use vstd::prelude::*;

verus! {

/// The steps not yet taken, each with the steps it still waits for.
pub type Queue = Seq<(char, Seq<char>)>;

/// The steps not yet taken, each with the steps it still waits for, in the
/// order in which the steps were first named.
pub struct TaskQueue {
    pub prerequisites: Vec<(char, Vec<char>)>,
}

impl TaskQueue {
    /// The queue as plain values.
    pub open spec fn entries(&self) -> Queue {
        Seq::new(
            self.prerequisites.len() as nat,
            |i: int| (self.prerequisites[i].0, self.prerequisites[i].1@),
        )
    }
}

/// The expression that a line is matched against.
pub open spec fn step_pattern() -> Seq<char> {
    "Step (\\w) must be finished before step (\\w) can begin."@
}

/// What a line says: the step that comes first, and the step that waits.
pub open spec fn rule_of_line(line: Seq<char>) -> Option<(char, char)> {
    match fields_of(step_pattern(), line, 2) {
        Some(f) => if f[0].len() > 0 && f[1].len() > 0 {
            Some((f[0][0], f[1][0]))
        } else {
            None
        },
        None => None,
    }
}

/// The place of `step` in the queue, or the queue's length.
pub open spec fn place_of(q: Queue, step: char) -> int
    decreases q.len(),
{
    if q.len() == 0 {
        0
    } else if place_of(q.drop_last(), step) < q.len() - 1 {
        place_of(q.drop_last(), step)
    } else if q.last().0 == step {
        q.len() - 1
    } else {
        q.len() as int
    }
}

/// The queue with one more rule: `step` waits for `first` too, and both are
/// in the queue.
pub open spec fn with_rule(q: Queue, first: char, step: char) -> Queue {
    let waiting = if place_of(q, step) < q.len() {
        q.update(place_of(q, step), (step, q[place_of(q, step)].1.push(first)))
    } else {
        q.push((step, seq![first]))
    };
    if place_of(waiting, first) < waiting.len() {
        waiting
    } else {
        waiting.push((first, seq![]))
    }
}

/// The queue that the lines write; `None` where a line writes no rule.
pub open spec fn queue_of(ls: Seq<Seq<char>>) -> Option<Queue>
    decreases ls.len(),
{
    if ls.len() == 0 {
        Some(seq![])
    } else {
        match (queue_of(ls.drop_last()), rule_of_line(ls.last())) {
            (Some(q), Some(rule)) => Some(with_rule(q, rule.0, rule.1)),
            _ => None,
        }
    }
}

/// Among the first `n` entries, the place of the step that waits for nothing
/// and comes first in the alphabet.
pub open spec fn ready(q: Queue, n: nat) -> Option<int>
    decreases n,
{
    if n == 0 {
        None
    } else {
        let before = ready(q, (n - 1) as nat);
        if q[n - 1].1.len() == 0 && (before is None || q[n - 1].0 < q[before.unwrap()].0) {
            Some(n - 1)
        } else {
            before
        }
    }
}

/// The list without every occurrence of `x`.
pub open spec fn without(list: Seq<char>, x: char) -> Seq<char>
    decreases list.len(),
{
    if list.len() == 0 {
        seq![]
    } else if list.last() == x {
        without(list.drop_last(), x)
    } else {
        without(list.drop_last(), x).push(list.last())
    }
}

/// The queue once `task` is finished: nothing waits for it any more.
pub open spec fn finished(q: Queue, task: char) -> Queue {
    Seq::new(q.len(), |i: int| (q[i].0, without(q[i].1, task)))
}

/// The order in which the steps are taken: again and again the step that
/// waits for nothing and comes first in the alphabet, which is then
/// finished; the order ends when no step is ready.
pub open spec fn order(q: Queue) -> Seq<char>
    decreases q.len(),
{
    match ready(q, q.len()) {
        Some(i) => if 0 <= i < q.len() {
            seq![q[i].0] + order(finished(q.remove(i), q[i].0))
        } else {
            seq![]
        },
        None => seq![],
    }
}

/// The place found for a ready step is one of the first `n`.
pub proof fn ready_in_range(q: Queue, n: nat)
    requires
        n <= q.len(),
    ensures
        ready(q, n) is Some ==> 0 <= ready(q, n).unwrap() < n,
    decreases n,
{
    if n > 0 {
        ready_in_range(q, (n - 1) as nat);
    }
}

/// A step found in a prefix of the queue has that place in the whole queue.
pub proof fn found_stays(q: Queue, step: char, k: int)
    requires
        0 <= k <= q.len(),
        place_of(q.take(k), step) < k,
    ensures
        place_of(q, step) == place_of(q.take(k), step),
    decreases q.len(),
{
    if k < q.len() {
        assert(q.drop_last().take(k) == q.take(k));
        found_stays(q.drop_last(), step, k);
    } else {
        assert(q.take(k) == q);
    }
}

/// The list without every occurrence of `x`.
pub fn remove_step(list: &Vec<char>, x: char) -> (r: Vec<char>)
    ensures
        r@ == without(list@, x),
{
    let mut out: Vec<char> = Vec::new();
    let mut i: usize = 0;
    while i < list.len()
        invariant
            i <= list.len(),
            out@ == without(list@.take(i as int), x),
        decreases list.len() - i,
    {
        assert(list@.take(i + 1).drop_last() == list@.take(i as int));
        if list[i] != x {
            out.push(list[i]);
        }
        i += 1;
    }
    assert(list@.take(list.len() as int) == list@);
    out
}

impl TaskQueue {
    /// The place of `step` in the queue, or the queue's length.
    pub fn find(&self, step: char) -> (r: usize)
        ensures
            r == place_of(self.entries(), step),
            r <= self.prerequisites.len(),
    {
        let mut i: usize = 0;
        while i < self.prerequisites.len()
            invariant
                i <= self.prerequisites.len(),
                place_of(self.entries().take(i as int), step) == i,
            decreases self.prerequisites.len() - i,
        {
            assert(self.entries().take(i + 1).drop_last() == self.entries().take(i as int));
            if self.prerequisites[i].0 == step {
                proof {
                    found_stays(self.entries(), step, i + 1);
                }
                return i;
            }
            i += 1;
        }
        assert(self.entries().take(self.prerequisites.len() as int) == self.entries());
        i
    }

    /// Enters one rule: `step` waits for `first`.
    pub fn add_rule(&mut self, first: char, step: char)
        ensures
            final(self).entries() == with_rule(old(self).entries(), first, step),
    {
        let ghost q = self.entries();
        let at = self.find(step);
        if at < self.prerequisites.len() {
            self.prerequisites[at].1.push(first);
            assert(self.entries() =~= q.update(at as int, (step, q[at as int].1.push(first)))) by {
                place_is_step(q, step);
            }
        } else {
            let mut waits: Vec<char> = Vec::new();
            waits.push(first);
            self.prerequisites.push((step, waits));
            assert(self.entries() =~= q.push((step, seq![first])));
        }
        let ghost waiting = self.entries();
        if self.find(first) == self.prerequisites.len() {
            self.prerequisites.push((first, Vec::new()));
            assert(self.entries() =~= waiting.push((first, seq![])));
        }
    }

    /// The queue that the input writes; `None` where a line writes no rule.
    pub fn new(input: &str) -> (r: Option<TaskQueue>)
        ensures
            match r {
                Some(tq) => queue_of(lines(input@)) == Some(tq.entries()),
                None => queue_of(lines(input@)) is None,
            },
    {
        let chars = chars_of(input);
        let ls = lines_of(&chars);
        let mut tq = TaskQueue { prerequisites: Vec::new() };
        assert(tq.entries() =~= seq![]);
        assert(views(ls@).take(0) =~= seq![]);
        let mut i: usize = 0;
        while i < ls.len()
            invariant
                i <= ls.len(),
                views(ls@) == lines(input@),
                queue_of(views(ls@).take(i as int)) == Some(tq.entries()),
            decreases ls.len() - i,
        {
            assert(views(ls@).take(i + 1).drop_last() == views(ls@).take(i as int));
            assert(views(ls@).take(i + 1).last() == ls[i as int]@);
            let f = match match_fields(
                "Step (\\w) must be finished before step (\\w) can begin.",
                &ls[i],
                2,
            ) {
                Some(f) => f,
                None => {
                    proof {
                        unread_stays(views(ls@), i + 1);
                    }
                    return None;
                },
            };
            assert(views(f@).len() == 2);
            assert(views(f@)[0] == f[0]@ && views(f@)[1] == f[1]@);
            if f[0].len() == 0 || f[1].len() == 0 {
                proof {
                    unread_stays(views(ls@), i + 1);
                }
                return None;
            }
            tq.add_rule(f[0][0], f[1][0]);
            i += 1;
        }
        assert(views(ls@).take(ls.len() as int) == views(ls@));
        Some(tq)
    }

    /// Takes the step that waits for nothing and comes first in the alphabet
    /// out of the queue.
    pub fn pop_task(&mut self) -> (r: Option<char>)
        ensures
            match r {
                Some(task) => {
                    let i = ready(old(self).entries(), old(self).entries().len()).unwrap();
                    &&& ready(old(self).entries(), old(self).entries().len()) is Some
                    &&& 0 <= i < old(self).entries().len()
                    &&& task == old(self).entries()[i].0
                    &&& final(self).entries() == old(self).entries().remove(i)
                },
                None => {
                    &&& ready(old(self).entries(), old(self).entries().len()) is None
                    &&& final(self).entries() == old(self).entries()
                },
            },
    {
        let ghost q = self.entries();
        let mut best: Option<usize> = None;
        let mut i: usize = 0;
        while i < self.prerequisites.len()
            invariant
                i <= self.prerequisites.len(),
                q == self.entries(),
                match best {
                    Some(b) => ready(q, i as nat) == Some(b as int) && b < i,
                    None => ready(q, i as nat) is None,
                },
            decreases self.prerequisites.len() - i,
        {
            if self.prerequisites[i].1.len() == 0 {
                let better = match best {
                    Some(b) => self.prerequisites[i].0 < self.prerequisites[b].0,
                    None => true,
                };
                if better {
                    best = Some(i);
                }
            }
            i += 1;
        }
        match best {
            Some(b) => {
                let entry = self.prerequisites.remove(b);
                assert(self.entries() =~= q.remove(b as int));
                Some(entry.0)
            },
            None => None,
        }
    }

    /// Marks `task` as finished: no step waits for it any more.
    pub fn finish_task(&mut self, task: char)
        ensures
            final(self).entries() == finished(old(self).entries(), task),
    {
        let ghost q = self.entries();
        let mut i: usize = 0;
        while i < self.prerequisites.len()
            invariant
                i <= self.prerequisites.len(),
                self.prerequisites.len() == q.len(),
                forall|j: int| 0 <= j < i ==> #[trigger] self.entries()[j] == finished(q, task)[j],
                forall|j: int| i <= j < q.len() ==> #[trigger] self.entries()[j] == q[j],
            decreases self.prerequisites.len() - i,
        {
            let ghost before = self.entries();
            let shorter = remove_step(&self.prerequisites[i].1, task);
            assert(before[i as int] == q[i as int]);
            self.prerequisites[i].1 = shorter;
            assert(self.entries() =~= before.update(i as int, (q[i as int].0, shorter@)));
            assert forall|j: int| 0 <= j < i + 1 implies #[trigger] self.entries()[j] == finished(
                q,
                task,
            )[j] by {
                if j < i {
                    assert(before[j] == finished(q, task)[j]);
                }
            }
            assert forall|j: int| i + 1 <= j < q.len() implies #[trigger] self.entries()[j]
                == q[j] by {
                assert(before[j] == q[j]);
            }
            i += 1;
        }
        assert(self.entries() =~= finished(q, task));
    }

    /// Whether no step is left in the queue.
    pub fn is_done(&self) -> (r: bool)
        ensures
            r == (self.entries().len() == 0),
    {
        self.prerequisites.len() == 0
    }
}

/// The place found for a step holds that step.
pub proof fn place_is_step(q: Queue, step: char)
    ensures
        0 <= place_of(q, step) <= q.len(),
        place_of(q, step) < q.len() ==> q[place_of(q, step)].0 == step,
    decreases q.len(),
{
    if q.len() > 0 {
        place_is_step(q.drop_last(), step);
    }
}

/// Once a line writes no rule, the lines write no queue.
pub proof fn unread_stays(ls: Seq<Seq<char>>, k: int)
    requires
        0 <= k <= ls.len(),
        queue_of(ls.take(k)) is None,
    ensures
        queue_of(ls) is None,
    decreases ls.len(),
{
    if k < ls.len() {
        assert(ls.drop_last().take(k) == ls.take(k));
        unread_stays(ls.drop_last(), k);
    } else {
        assert(ls.take(k) == ls);
    }
}

/// The steps in the order in which one worker takes them: always the step
/// that waits for nothing and comes first in the alphabet. `None` where a
/// line writes no rule.
pub fn part1(input: &str) -> (r: Option<(String, ())>)
    ensures
        (match r {
            Some((s, _)) => Some(s@),
            None => None,
        }) == (match queue_of(lines(input@)) {
            Some(q) => Some(order(q)),
            None => None,
        }),
{
    let mut tq = match TaskQueue::new(input) {
        Some(tq) => tq,
        None => {
            return None;
        },
    };
    let ghost start = tq.entries();
    let mut taken: Vec<char> = Vec::new();
    loop
        invariant_except_break
            order(start) == taken@ + order(tq.entries()),
        ensures
            order(start) == taken@,
        decreases tq.entries().len(),
    {
        let ghost q = tq.entries();
        proof {
            ready_in_range(q, q.len());
        }
        match tq.pop_task() {
            Some(task) => {
                tq.finish_task(task);
                let ghost before = taken@;
                taken.push(task);
                assert(taken@ + order(tq.entries()) =~= before + (seq![task] + order(tq.entries())));
            },
            None => {
                assert(order(q) =~= seq![]);
                assert(taken@ + order(q) =~= taken@);
                break;
            },
        }
    }
    Some((string_of(&taken), ()))
}

/// What a worker does: a step with the seconds spent on it, or nothing.
#[derive(Debug)]
pub enum Worker {
    Working(char, usize),
    Idle,
}

/// The seconds a step takes: sixty and its place in the alphabet, counting
/// `A` as zero; none for a character before `A`.
pub open spec fn duration(task: char) -> Option<nat> {
    if task as u32 >= 65 {
        Some((task as u32 - 65 + 60) as nat)
    } else {
        None
    }
}

/// The seconds a step takes.
pub fn time_for_task(task: char) -> (r: usize)
    requires
        task as u32 >= 65,
    ensures
        duration(task) == Some(r as nat),
{
    (task as u32 - 65 + 60) as usize
}

/// A free worker takes the step that is ready, if one is.
pub open spec fn take(q: Queue) -> (Queue, Worker) {
    match ready(q, q.len()) {
        Some(i) => if 0 <= i < q.len() {
            (q.remove(i), Worker::Working(q[i].0, 0))
        } else {
            (q, Worker::Idle)
        },
        None => (q, Worker::Idle),
    }
}

/// One worker's second: it works on, or finishes its step once the seconds
/// spent have reached the step's time and takes the next, or takes one if it
/// was idle. `None` where the step has no time.
pub open spec fn turn(q: Queue, w: Worker) -> Option<(Queue, Worker)> {
    match w {
        Worker::Working(task, spent) => match duration(task) {
            Some(d) => if spent < d {
                Some((q, Worker::Working(task, (spent + 1) as usize)))
            } else {
                Some(take(finished(q, task)))
            },
            None => None,
        },
        Worker::Idle => Some(take(q)),
    }
}

/// One second for the first `n` workers, one after the other.
pub open spec fn tick(q: Queue, ws: Seq<Worker>, n: nat) -> Option<(Queue, Seq<Worker>)>
    decreases n,
{
    if n == 0 {
        Some((q, ws))
    } else {
        match tick(q, ws, (n - 1) as nat) {
            Some(s) => match turn(s.0, s.1[n - 1]) {
                Some(t) => Some((t.0, s.1.update(n - 1, t.1))),
                None => None,
            },
            None => None,
        }
    }
}

/// The queue and the five workers after `n` seconds, all idle at the start.
pub open spec fn after_ticks(q: Queue, n: nat) -> Option<(Queue, Seq<Worker>)>
    decreases n,
{
    if n == 0 {
        Some((q, Seq::new(5, |i: int| Worker::Idle)))
    } else {
        match after_ticks(q, (n - 1) as nat) {
            Some(s) => tick(s.0, s.1, s.1.len()),
            None => None,
        }
    }
}

/// A step is left in the queue or a worker is at work.
pub open spec fn busy(s: (Queue, Seq<Worker>)) -> bool {
    s.0.len() > 0 || exists|i: int| 0 <= i < s.1.len() && (#[trigger] s.1[i]) is Working
}

/// After `n` seconds there is still something to do.
pub open spec fn busy_at(q: Queue, n: nat) -> bool {
    after_ticks(q, n) is Some && busy(after_ticks(q, n).unwrap())
}

/// `n` is the first number of seconds, within the range of `i32`, after
/// which nothing is left to do.
pub open spec fn first_done(q: Queue, n: nat) -> bool {
    &&& n <= i32::MAX
    &&& after_ticks(q, n) is Some
    &&& !busy_at(q, n)
    &&& forall|j: nat| j < n ==> #[trigger] busy_at(q, j)
}

/// The seconds that five workers need, less two, in decimal with its sign.
/// `None` where the work does not end within the range of `i32`, or a step
/// has no time.
pub open spec fn duration_answer(q: Queue) -> Option<Seq<char>> {
    if exists|n: nat| first_done(q, n) {
        Some(signed_decimal((choose|n: nat| first_done(q, n)) - 2))
    } else {
        None
    }
}

/// There is at most one first second after which nothing is left to do.
pub proof fn first_done_is_unique(q: Queue, n: nat)
    requires
        first_done(q, n),
    ensures
        (choose|k: nat| first_done(q, k)) == n,
{
    let other = choose|k: nat| first_done(q, k);
    assert(first_done(q, other));
    if other < n {
        assert(busy_at(q, other));
    } else if n < other {
        assert(busy_at(q, n));
    }
}

/// Once a second cannot pass, no later state exists.
pub proof fn halted_stays(q: Queue, k: nat, n: nat)
    requires
        k <= n,
        after_ticks(q, k) is None,
    ensures
        after_ticks(q, n) is None,
    decreases n - k,
{
    if k < n {
        halted_stays(q, k, (n - 1) as nat);
    }
}

/// Whether a step is left in the queue or a worker is at work.
pub fn is_busy(tq: &TaskQueue, workers: &Vec<Worker>) -> (r: bool)
    ensures
        r == busy((tq.entries(), workers@)),
{
    if !tq.is_done() {
        return true;
    }
    let mut i: usize = 0;
    while i < workers.len()
        invariant
            i <= workers.len(),
            forall|j: int| 0 <= j < i ==> !((#[trigger] workers[j]) is Working),
        decreases workers.len() - i,
    {
        match workers[i] {
            Worker::Working(_, _) => {
                return true;
            },
            Worker::Idle => {},
        }
        i += 1;
    }
    false
}

/// A free worker takes the step that is ready, if one is.
pub fn take_task(tq: &mut TaskQueue) -> (w: Worker)
    ensures
        (final(tq).entries(), w) == take(old(tq).entries()),
{
    proof {
        ready_in_range(tq.entries(), tq.entries().len());
    }
    match tq.pop_task() {
        Some(task) => Worker::Working(task, 0),
        None => Worker::Idle,
    }
}

/// One second for every worker, one after the other. Gives `false` where a
/// step has no time.
pub fn pass_second(tq: &mut TaskQueue, workers: &mut Vec<Worker>) -> (ok: bool)
    ensures
        match tick(old(tq).entries(), old(workers)@, old(workers).len() as nat) {
            Some(s) => ok && s == (final(tq).entries(), final(workers)@),
            None => !ok,
        },
{
    let ghost q = tq.entries();
    let ghost ws = workers@;
    let n: usize = workers.len();
    let mut i: usize = 0;
    while i < n
        invariant
            i <= n,
            n == ws.len(),
            q == old(tq).entries(),
            ws == old(workers)@,
            workers.len() == n,
            tick(q, ws, i as nat) == Some((tq.entries(), workers@)),
        decreases n - i,
    {
        let next = match workers[i] {
            Worker::Working(task, spent) => {
                if (task as u32) < 65 {
                    proof {
                        jammed_stays(q, ws, (i + 1) as nat, n as nat);
                    }
                    return false;
                }
                if spent < time_for_task(task) {
                    Worker::Working(task, spent + 1)
                } else {
                    tq.finish_task(task);
                    take_task(tq)
                }
            },
            Worker::Idle => take_task(tq),
        };
        workers[i] = next;
        i += 1;
    }
    true
}

/// Once a worker's second cannot pass, the second cannot pass.
pub proof fn jammed_stays(q: Queue, ws: Seq<Worker>, k: nat, n: nat)
    requires
        k <= n,
        tick(q, ws, k) is None,
    ensures
        tick(q, ws, n) is None,
    decreases n - k,
{
    if k < n {
        jammed_stays(q, ws, k, (n - 1) as nat);
    }
}

/// The seconds that five workers need for all steps, less two, in decimal
/// with its sign. `None` where a line writes no rule, a step is named by a
/// character before `A`, or the work has not ended after as many seconds as
/// an `i32` counts.
pub fn part2(input: &str, _unit: ()) -> (r: Option<String>)
    ensures
        opt_view(r) == (match queue_of(lines(input@)) {
            Some(q) => duration_answer(q),
            None => None,
        }),
{
    let mut tq = match TaskQueue::new(input) {
        Some(tq) => tq,
        None => {
            return None;
        },
    };
    let ghost q = tq.entries();
    let mut workers: Vec<Worker> = Vec::new();
    workers.push(Worker::Idle);
    workers.push(Worker::Idle);
    workers.push(Worker::Idle);
    workers.push(Worker::Idle);
    workers.push(Worker::Idle);
    assert(workers@ =~= Seq::new(5, |i: int| Worker::Idle));
    let mut step: i32 = 0;
    loop
        invariant_except_break
            queue_of(lines(input@)) == Some(q),
            step >= 0,
            after_ticks(q, step as nat) == Some((tq.entries(), workers@)),
            forall|j: nat| j < step ==> #[trigger] busy_at(q, j),
        ensures
            queue_of(lines(input@)) == Some(q),
            step >= 0,
            first_done(q, step as nat),
        decreases i32::MAX - step,
    {
        if !is_busy(&tq, &workers) {
            break;
        }
        assert(busy_at(q, step as nat));
        if step == i32::MAX {
            assert forall|n: nat| !first_done(q, n) by {
                if n <= i32::MAX {
                    assert(busy_at(q, n));
                }
            }
            return None;
        }
        if !pass_second(&mut tq, &mut workers) {
            assert forall|n: nat| !first_done(q, n) by {
                if n <= step {
                    assert(busy_at(q, n));
                } else {
                    halted_stays(q, (step + 1) as nat, n);
                }
            }
            return None;
        }
        step += 1;
    }
    proof {
        first_done_is_unique(q, step as nat);
    }
    Some(isize_string((step - 2) as isize))
}

} // verus!
