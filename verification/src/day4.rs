//! A guard post's log: which guard sleeps most and in which minute, and
//! which guard is most often asleep in one same minute.

use crate::pattern::{fields_of, match_fields};
use crate::sorting::{by_text, sort_texts};
use crate::text::{as_usize, chars_of, decimal, lines, lines_of, opt_view, read_usize, same_text,
    usize_string, views};
use crate::tally::{as_signed, fits, last_max, to_signed};
use vstd::prelude::*;

verus! {

/// A stretch of sleep: the minute it starts and the minute it ends.
#[derive(Debug)]
pub struct SleepSpan(pub isize, pub isize);

impl SleepSpan {
    /// Whether the guard is asleep in the given minute.
    pub fn contains(&self, minute: isize) -> (r: bool)
        ensures
            r == asleep_in(*self, minute as int),
    {
        self.0 <= minute && self.1 > minute
    }

    /// How many minutes the stretch lasts.
    pub fn length(&self) -> (r: isize)
        requires
            isize::MIN <= self.1 - self.0 <= isize::MAX,
        ensures
            r == self.1 - self.0,
    {
        self.1 - self.0
    }
}

/// The stretches of sleep of one guard, in the order they were logged.
#[derive(Debug)]
pub struct Guard(pub Vec<SleepSpan>);

/// The guards by number, in the order of their first shift, each with its
/// sleep.
pub type Roster = Vec<(usize, Guard)>;

/// The stretch covers the minute.
pub open spec fn asleep_in(span: SleepSpan, minute: int) -> bool {
    span.0 <= minute < span.1
}

/// The minutes slept over all stretches; `None` where a length or a sum on
/// the way does not fit in an `isize`.
pub open spec fn minutes_asleep(spans: Seq<SleepSpan>) -> Option<int>
    decreases spans.len(),
{
    if spans.len() == 0 {
        Some(0)
    } else {
        match minutes_asleep(spans.drop_last()) {
            Some(t) => if fits(spans.last().1 - spans.last().0) && fits(
                t + (spans.last().1 - spans.last().0),
            ) {
                Some(t + (spans.last().1 - spans.last().0))
            } else {
                None
            },
            None => None,
        }
    }
}

/// How many of the stretches cover the minute.
pub open spec fn times_asleep(spans: Seq<SleepSpan>, minute: int) -> nat
    decreases spans.len(),
{
    if spans.len() == 0 {
        0
    } else {
        times_asleep(spans.drop_last(), minute) + if asleep_in(spans.last(), minute) {
            1nat
        } else {
            0nat
        }
    }
}

impl Guard {
    /// The minutes slept over all stretches.
    pub fn total(&self) -> (r: Option<isize>)
        ensures
            match r {
                Some(t) => minutes_asleep(self.0@) == Some(t as int),
                None => minutes_asleep(self.0@) is None,
            },
    {
        let mut acc: isize = 0;
        let mut i: usize = 0;
        while i < self.0.len()
            invariant
                i <= self.0.len(),
                minutes_asleep(self.0@.take(i as int)) == Some(acc as int),
            decreases self.0.len() - i,
        {
            assert(self.0@.take(i + 1).drop_last() == self.0@.take(i as int));
            let span = &self.0[i];
            let len = match span.1.checked_sub(span.0) {
                Some(l) => l,
                None => {
                    proof {
                        none_stays(self.0@, i + 1);
                    }
                    return None;
                },
            };
            acc = match acc.checked_add(len) {
                Some(t) => t,
                None => {
                    proof {
                        none_stays(self.0@, i + 1);
                    }
                    return None;
                },
            };
            i += 1;
        }
        assert(self.0@.take(self.0.len() as int) == self.0@);
        Some(acc)
    }

    /// How many of the stretches cover the minute, taken as a signed number.
    pub fn spans_containing(&self, minute: usize) -> (r: usize)
        ensures
            r == times_asleep(self.0@, as_signed(minute)),
    {
        let at: isize = to_signed(minute);
        let mut n: usize = 0;
        let mut i: usize = 0;
        while i < self.0.len()
            invariant
                i <= self.0.len(),
                n <= i,
                at == as_signed(minute),
                n == times_asleep(self.0@.take(i as int), as_signed(minute)),
            decreases self.0.len() - i,
        {
            assert(self.0@.take(i + 1).drop_last() == self.0@.take(i as int));
            if self.0[i].contains(at) {
                n += 1;
            }
            i += 1;
        }
        assert(self.0@.take(self.0.len() as int) == self.0@);
        n
    }
}

/// Once the minutes of a prefix do not fit, those of the whole do not.
pub proof fn none_stays(spans: Seq<SleepSpan>, k: int)
    requires
        0 <= k <= spans.len(),
        minutes_asleep(spans.take(k)) is None,
    ensures
        minutes_asleep(spans) is None,
    decreases spans.len(),
{
    if k < spans.len() {
        assert(spans.drop_last().take(k) == spans.take(k));
        none_stays(spans.drop_last(), k);
    } else {
        assert(spans.take(k) == spans);
    }
}

/// What a line of the log reports.
pub enum Event {
    /// The guard with this number begins a shift.
    Shift(usize),
    /// The guard on shift falls asleep.
    Sleep,
    /// The guard on shift wakes up.
    Wake,
    /// Anything else.
    Other,
}

/// A line of the log: the minute, counted from midnight, and what happened.
pub struct Record {
    pub minute: isize,
    pub event: Event,
}

/// The expression for the time stamp of a line and the text after it.
pub open spec fn time_pattern() -> Seq<char> {
    "\\[\\d{4}-\\d{2}-\\d{2} (\\d{2}):(\\d{2})\\] (.*)"@
}

/// The expression for the start of a shift.
pub open spec fn shift_pattern() -> Seq<char> {
    "Guard #(\\d+) begins shift"@
}

/// The minute counted from midnight: minutes of hour 23 count as before it.
pub open spec fn minute_of(hour: usize, minute: usize) -> int {
    if hour == 23 {
        minute - 60
    } else {
        minute as int
    }
}

/// What the line reports, given the text after its time stamp.
pub open spec fn event_of(line: Seq<char>, rest: Seq<char>) -> Option<Event> {
    match fields_of(shift_pattern(), line, 1) {
        Some(g) => match as_usize(g[0]) {
            Some(id) => Some(Event::Shift(id)),
            None => None,
        },
        None => if rest == "falls asleep"@ {
            Some(Event::Sleep)
        } else if rest == "wakes up"@ {
            Some(Event::Wake)
        } else {
            Some(Event::Other)
        },
    }
}

/// The record that a line writes, if it writes one.
pub open spec fn record_of_line(line: Seq<char>) -> Option<Record> {
    match fields_of(time_pattern(), line, 3) {
        Some(f) => match (as_usize(f[0]), as_usize(f[1]), event_of(line, f[2])) {
            (Some(h), Some(m), Some(e)) => if fits(minute_of(h, m)) {
                Some(Record { minute: minute_of(h, m) as isize, event: e })
            } else {
                None
            },
            _ => None,
        },
        None => None,
    }
}

/// The records that the lines write, if every line writes one.
pub open spec fn records_of(ls: Seq<Seq<char>>) -> Option<Seq<Record>> {
    if forall|i: int| 0 <= i < ls.len() ==> (#[trigger] record_of_line(ls[i])) is Some {
        Some(Seq::new(ls.len(), |i: int| record_of_line(ls[i]).unwrap()))
    } else {
        None
    }
}

/// A roster as plain values.
pub type Log = Seq<(usize, Seq<SleepSpan>)>;

/// The roster as plain values.
pub open spec fn log_of(roster: Seq<(usize, Guard)>) -> Log {
    Seq::new(roster.len(), |i: int| (roster[i].0, roster[i].1.0@))
}

/// The first place of the guard `id` in the log, or the log's length.
pub open spec fn place_of(log: Log, id: usize) -> int
    decreases log.len(),
{
    if log.len() == 0 {
        0
    } else if place_of(log.drop_last(), id) < log.len() - 1 {
        place_of(log.drop_last(), id)
    } else if log.last().0 == id {
        log.len() - 1
    } else {
        log.len() as int
    }
}

/// The log and the guard on shift after one more record. A shift puts its
/// guard on shift, and into the log if it is new. Falling asleep opens a
/// stretch for the guard on shift, waking up ends that guard's last stretch;
/// there is no next state where the guard on shift is not in the log, or
/// wakes without a stretch.
pub open spec fn after(log: Log, current: usize, rec: Record) -> Option<(Log, usize)> {
    let at = place_of(log, current);
    match rec.event {
        Event::Shift(id) => if place_of(log, id) < log.len() {
            Some((log, id))
        } else {
            Some((log.push((id, seq![])), id))
        },
        Event::Sleep => if at < log.len() {
            Some((log.update(at, (current, log[at].1.push(SleepSpan(rec.minute, rec.minute)))), current))
        } else {
            None
        },
        Event::Wake => if at < log.len() && log[at].1.len() > 0 {
            Some(
                (
                    log.update(
                        at,
                        (
                            current,
                            log[at].1.update(
                                log[at].1.len() - 1,
                                SleepSpan(log[at].1.last().0, rec.minute),
                            ),
                        ),
                    ),
                    current,
                ),
            )
        } else {
            None
        },
        Event::Other => Some((log, current)),
    }
}

/// The log and the guard on shift after all records, starting from an empty
/// log with guard 0 on shift.
pub open spec fn replay(records: Seq<Record>) -> Option<(Log, usize)>
    decreases records.len(),
{
    if records.len() == 0 {
        Some((seq![], 0usize))
    } else {
        match replay(records.drop_last()) {
            Some(st) => after(st.0, st.1, records.last()),
            None => None,
        }
    }
}

/// The log that the lines of the input lead to, taken in dictionary order.
pub open spec fn log_of_input(input: Seq<char>) -> Option<Log> {
    match records_of(lines(input).sort_by(by_text())) {
        Some(records) => match replay(records) {
            Some(st) => Some(st.0),
            None => None,
        },
        None => None,
    }
}

/// The minutes that guard `i` of the log sleeps; 0 where they do not fit.
pub open spec fn sleep_of(log: Log) -> spec_fn(int) -> int {
    |i: int|
        match minutes_asleep(log[i].1) {
            Some(t) => t,
            None => 0,
        }
}

/// How often the stretches cover each minute.
pub open spec fn frequency(spans: Seq<SleepSpan>) -> spec_fn(int) -> int {
    |m: int| times_asleep(spans, m) as int
}

/// The number of the guard that sleeps most, the last such in the log, times
/// the minute that guard sleeps most often, the last such of the hour.
/// `None` for an empty log, or where minutes slept or the product do not
/// fit.
pub open spec fn sleepiest_answer(log: Log) -> Option<Seq<char>> {
    let g = last_max(sleep_of(log), log.len());
    let m = last_max(frequency(log[g].1), 60);
    if log.len() > 0 && (forall|i: int| 0 <= i < log.len() ==> (#[trigger] minutes_asleep(log[i].1))
        is Some) && log[g].0 * m <= usize::MAX {
        Some(decimal((log[g].0 * m) as nat))
    } else {
        None
    }
}

/// The guard most often asleep in minute `m` among the first `n` of the
/// log, the first such, with how often: starting from guard 0 and no sleep,
/// a guard takes over when it is asleep in that minute strictly more often.
pub open spec fn strongest(log: Log, m: int, n: nat) -> (nat, usize)
    decreases n,
{
    if n == 0 {
        (0, 0)
    } else {
        let before = strongest(log, m, (n - 1) as nat);
        if times_asleep(log[n - 1].1, m) > before.0 {
            (times_asleep(log[n - 1].1, m), log[n - 1].0)
        } else {
            before
        }
    }
}

/// For each minute, how often its strongest guard is asleep in it.
pub open spec fn peak(log: Log) -> spec_fn(int) -> int {
    |m: int| strongest(log, m, log.len()).0 as int
}

/// The minute in which some guard is asleep most often, the last such of the
/// hour, times the number of that minute's strongest guard. `None` where the
/// product does not fit.
pub open spec fn steadiest_answer(log: Log) -> Option<Seq<char>> {
    let m = last_max(peak(log), 60);
    if m * strongest(log, m, log.len()).1 <= usize::MAX {
        Some(decimal((m * strongest(log, m, log.len()).1) as nat))
    } else {
        None
    }
}

/// Reads one line of the log.
pub fn parse_record(line: &Vec<char>) -> (r: Option<Record>)
    ensures
        r == record_of_line(line@),
{
    let f = match match_fields(r"\[\d{4}-\d{2}-\d{2} (\d{2}):(\d{2})\] (.*)", line, 3) {
        Some(f) => f,
        None => {
            return None;
        },
    };
    assert(views(f@).len() == 3);
    assert(forall|i: int| 0 <= i < 3 ==> views(f@)[i] == f[i]@);
    let (hour, minute) = match (read_usize(&f[0]), read_usize(&f[1])) {
        (Some(h), Some(m)) => (h, m),
        _ => {
            return None;
        },
    };
    let event = match match_fields(r"Guard #(\d+) begins shift", line, 1) {
        Some(g) => {
            assert(views(g@).len() == 1);
            assert(views(g@)[0] == g[0]@);
            match read_usize(&g[0]) {
                Some(id) => Event::Shift(id),
                None => {
                    return None;
                },
            }
        },
        None => {
            if same_text(&f[2], &chars_of("falls asleep")) {
                Event::Sleep
            } else if same_text(&f[2], &chars_of("wakes up")) {
                Event::Wake
            } else {
                Event::Other
            }
        },
    };
    if hour == 23 {
        if minute < 60 {
            Some(Record { minute: minute as isize - 60, event })
        } else if minute - 60 > isize::MAX as usize {
            None
        } else {
            Some(Record { minute: (minute - 60) as isize, event })
        }
    } else {
        if minute > isize::MAX as usize {
            return None;
        }
        Some(Record { minute: minute as isize, event })
    }
}

/// Reads every line of the log.
pub fn parse_all(ls: &Vec<Vec<char>>) -> (r: Option<Vec<Record>>)
    ensures
        match r {
            Some(rs) => records_of(views(ls@)) == Some(rs@),
            None => records_of(views(ls@)) is None,
        },
{
    let mut rs: Vec<Record> = Vec::new();
    let mut i: usize = 0;
    while i < ls.len()
        invariant
            i <= ls.len(),
            rs.len() == i,
            forall|j: int| 0 <= j < i ==> #[trigger] record_of_line(views(ls@)[j]) == Some(rs[j]),
        decreases ls.len() - i,
    {
        assert(views(ls@)[i as int] == ls[i as int]@);
        match parse_record(&ls[i]) {
            Some(rec) => rs.push(rec),
            None => {
                return None;
            },
        }
        i += 1;
    }
    assert(rs@ =~= Seq::new(views(ls@).len(), |i: int| record_of_line(views(ls@)[i]).unwrap()));
    Some(rs)
}

/// The first place of the guard `id` in the roster, or the roster's length.
pub fn find_guard(roster: &Roster, id: usize) -> (r: usize)
    ensures
        r == place_of(log_of(roster@), id),
        r <= roster.len(),
{
    let mut i: usize = 0;
    while i < roster.len()
        invariant
            i <= roster.len(),
            place_of(log_of(roster@).take(i as int), id) == i,
        decreases roster.len() - i,
    {
        assert(log_of(roster@).take(i + 1).drop_last() == log_of(roster@).take(i as int));
        if roster[i].0 == id {
            proof {
                found_stays(log_of(roster@), id, i + 1);
            }
            return i;
        }
        i += 1;
    }
    assert(log_of(roster@).take(roster.len() as int) == log_of(roster@));
    i
}

/// A guard found in a prefix of the log has that place in the whole log.
pub proof fn found_stays(log: Log, id: usize, k: int)
    requires
        0 <= k <= log.len(),
        place_of(log.take(k), id) < k,
    ensures
        place_of(log, id) == place_of(log.take(k), id),
    decreases log.len(),
{
    if k < log.len() {
        assert(log.drop_last().take(k) == log.take(k));
        found_stays(log.drop_last(), id, k);
    } else {
        assert(log.take(k) == log);
    }
}

/// Enters one record into the roster. Gives the guard then on shift, or
/// `None` where the record cannot follow.
pub fn enter(roster: &mut Roster, current: usize, rec: &Record) -> (r: Option<usize>)
    ensures
        match r {
            Some(next) => after(log_of(old(roster)@), current, *rec) == Some(
                (log_of(final(roster)@), next),
            ),
            None => after(log_of(old(roster)@), current, *rec) is None,
        },
{
    let ghost log = log_of(roster@);
    match rec.event {
        Event::Shift(id) => {
            if find_guard(roster, id) == roster.len() {
                roster.push((id, Guard(Vec::new())));
                assert(log_of(roster@) =~= log.push((id, seq![])));
            }
            Some(id)
        },
        Event::Sleep => {
            let at = find_guard(roster, current);
            if at == roster.len() {
                return None;
            }
            proof {
                place_holds(log, current);
            }
            roster[at].1.0.push(SleepSpan(rec.minute, rec.minute));
            assert(log_of(roster@) =~= log.update(
                at as int,
                (current, log[at as int].1.push(SleepSpan(rec.minute, rec.minute))),
            ));
            Some(current)
        },
        Event::Wake => {
            let at = find_guard(roster, current);
            if at == roster.len() {
                return None;
            }
            let k = roster[at].1.0.len();
            if k == 0 {
                return None;
            }
            proof {
                place_holds(log, current);
            }
            roster[at].1.0[k - 1].1 = rec.minute;
            assert(log_of(roster@) =~= log.update(
                at as int,
                (
                    current,
                    log[at as int].1.update(k - 1, SleepSpan(log[at as int].1.last().0, rec.minute)),
                ),
            ));
            Some(current)
        },
        Event::Other => Some(current),
    }
}

/// The place found for a guard holds that guard.
pub proof fn place_holds(log: Log, id: usize)
    ensures
        0 <= place_of(log, id) <= log.len(),
        place_of(log, id) < log.len() ==> log[place_of(log, id)].0 == id,
    decreases log.len(),
{
    if log.len() > 0 {
        place_holds(log.drop_last(), id);
    }
}

/// Enters the records one after another into an empty roster.
pub fn build(records: &Vec<Record>) -> (r: Option<Roster>)
    ensures
        match r {
            Some(roster) => replay(records@) is Some && replay(records@).unwrap().0 == log_of(
                roster@,
            ),
            None => replay(records@) is None,
        },
{
    let mut roster: Roster = Vec::new();
    let mut current: usize = 0;
    let mut i: usize = 0;
    assert(log_of(roster@) =~= seq![]);
    assert(records@.take(0) =~= seq![]);
    while i < records.len()
        invariant
            i <= records.len(),
            replay(records@.take(i as int)) == Some((log_of(roster@), current)),
        decreases records.len() - i,
    {
        assert(records@.take(i + 1).drop_last() == records@.take(i as int));
        match enter(&mut roster, current, &records[i]) {
            Some(next) => {
                current = next;
            },
            None => {
                proof {
                    stuck_stays(records@, i + 1);
                }
                return None;
            },
        }
        i += 1;
    }
    assert(records@.take(records.len() as int) == records@);
    Some(roster)
}

/// Once a prefix of the records cannot be replayed, the whole cannot.
pub proof fn stuck_stays(records: Seq<Record>, k: int)
    requires
        0 <= k <= records.len(),
        replay(records.take(k)) is None,
    ensures
        replay(records) is None,
    decreases records.len(),
{
    if k < records.len() {
        assert(records.drop_last().take(k) == records.take(k));
        stuck_stays(records.drop_last(), k);
    } else {
        assert(records.take(k) == records);
    }
}

/// The minute of the hour that the guard sleeps most often, the last such.
pub fn sleepiest_minute(guard: &Guard) -> (m: usize)
    ensures
        m == last_max(frequency(guard.0@), 60),
        m < 60,
{
    let ghost f = frequency(guard.0@);
    let mut best: usize = 0;
    let mut most: usize = guard.spans_containing(0);
    let mut m: usize = 1;
    while m < 60
        invariant
            1 <= m <= 60,
            f == frequency(guard.0@),
            best < m,
            best == last_max(f, m as nat),
            most == f(best as int),
        decreases 60 - m,
    {
        let c = guard.spans_containing(m);
        assert(c == f(m as int));
        if c >= most {
            best = m;
            most = c;
        }
        m += 1;
    }
    best
}

/// The number of the guard that sleeps most, times the minute of the hour in
/// which that guard is most often asleep, in decimal, together with the
/// roster. The lines are taken in dictionary order. Of several guards that
/// sleep most the last in the roster counts, of several minutes the last.
/// `None` where a line is no log line, an event cannot follow what came
/// before, no guard is logged, or a number does not fit.
pub fn part1(input: &str) -> (r: Option<(String, Roster)>)
    ensures
        match log_of_input(input@) {
            Some(log) => match r {
                Some((s, roster)) => sleepiest_answer(log) == Some(s@) && log_of(roster@) == log,
                None => sleepiest_answer(log) is None,
            },
            None => r is None,
        },
{
    let chars = chars_of(input);
    let ls = lines_of(&chars);
    let sorted = sort_texts(ls);
    let records = match parse_all(&sorted) {
        Some(rs) => rs,
        None => {
            return None;
        },
    };
    let roster = match build(&records) {
        Some(roster) => roster,
        None => {
            return None;
        },
    };
    let ghost log = log_of(roster@);
    let ghost f = sleep_of(log);
    if roster.len() == 0 {
        return None;
    }
    assert(log[0].1 == roster[0].1.0@);
    let mut most: isize = match roster[0].1.total() {
        Some(t) => t,
        None => {
            return None;
        },
    };
    let mut best: usize = 0;
    let mut i: usize = 1;
    while i < roster.len()
        invariant
            1 <= i <= roster.len(),
            log == log_of(roster@),
            f == sleep_of(log),
            log_of_input(input@) == Some(log),
            best < i,
            best == last_max(f, i as nat),
            most == f(best as int),
            forall|j: int| 0 <= j < i ==> (#[trigger] minutes_asleep(log[j].1)) is Some,
        decreases roster.len() - i,
    {
        assert(log[i as int].1 == roster[i as int].1.0@);
        let t = match roster[i].1.total() {
            Some(t) => t,
            None => {
                return None;
            },
        };
        assert(t == f(i as int));
        if t >= most {
            best = i;
            most = t;
        }
        i += 1;
    }
    assert(log[best as int].1 == roster[best as int].1.0@);
    let minute = sleepiest_minute(&roster[best].1);
    match roster[best].0.checked_mul(minute) {
        Some(product) => Some((usize_string(product), roster)),
        None => None,
    }
}

/// The minute of the hour in which some guard is most often asleep, the last
/// such, times the number of the guard that is, in decimal. For each minute
/// the first guard of the roster with the most sleep in it counts, and guard
/// 0 where nobody sleeps in it. `None` where the product does not fit.
pub fn part2(_input: &str, guards: Roster) -> (r: Option<String>)
    ensures
        opt_view(r) == steadiest_answer(log_of(guards@)),
{
    let ghost log = log_of(guards@);
    let mut minutes: Vec<(usize, usize)> = Vec::new();
    while minutes.len() < 60
        invariant
            minutes.len() <= 60,
            forall|m: int| 0 <= m < minutes.len() ==> #[trigger] minutes[m] == (0usize, 0usize),
        decreases 60 - minutes.len(),
    {
        minutes.push((0, 0));
    }
    let mut i: usize = 0;
    while i < guards.len()
        invariant
            i <= guards.len(),
            log == log_of(guards@),
            minutes.len() == 60,
            forall|m: int|
                0 <= m < 60 ==> (#[trigger] minutes[m]).0 == strongest(log, m, i as nat).0
                    && minutes[m].1 == strongest(log, m, i as nat).1,
        decreases guards.len() - i,
    {
        assert(log[i as int].1 == guards[i as int].1.0@);
        let mut m: usize = 0;
        while m < 60
            invariant
                i < guards.len(),
                m <= 60,
                log == log_of(guards@),
                log[i as int].1 == guards[i as int].1.0@,
                minutes.len() == 60,
                forall|k: int|
                    0 <= k < m ==> (#[trigger] minutes[k]).0 == strongest(log, k, (i + 1) as nat).0
                        && minutes[k].1 == strongest(log, k, (i + 1) as nat).1,
                forall|k: int|
                    m <= k < 60 ==> (#[trigger] minutes[k]).0 == strongest(log, k, i as nat).0
                        && minutes[k].1 == strongest(log, k, i as nat).1,
            decreases 60 - m,
        {
            let c = guards[i].1.spans_containing(m);
            if c > minutes[m].0 {
                minutes[m] = (c, guards[i].0);
            }
            m += 1;
        }
        i += 1;
    }
    let ghost f = peak(log);
    let mut best: usize = 0;
    let mut most: usize = minutes[0].0;
    let mut m: usize = 1;
    assert(minutes[0].0 == f(0));
    while m < 60
        invariant
            1 <= m <= 60,
            f == peak(log),
            minutes.len() == 60,
            forall|k: int|
                0 <= k < 60 ==> (#[trigger] minutes[k]).0 == strongest(log, k, log.len()).0
                    && minutes[k].1 == strongest(log, k, log.len()).1,
            best < m,
            best == last_max(f, m as nat),
            most == f(best as int),
        decreases 60 - m,
    {
        let c = minutes[m].0;
        assert(c == f(m as int));
        if c >= most {
            best = m;
            most = c;
        }
        m += 1;
    }
    match best.checked_mul(minutes[best].1) {
        Some(product) => Some(usize_string(product)),
        None => None,
    }
}

} // verus!
