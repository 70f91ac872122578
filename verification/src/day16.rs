//! A device with four registers and sixteen instructions whose numbers are
//! unknown: samples of its behaviour, the numbering they imply, and the
//! outcome of a program.

use crate::pattern::{fields_of, match_fields};
use crate::text::{as_usize, chars_of, decimal, read_usize, split, split_text, usize_string,
    views, opt_view, trim, trimmed};
use vstd::prelude::*;

verus! {

/// An instruction of the device.
#[derive(Copy, Clone, Debug, PartialEq, Eq, Structural)]
pub enum Opcode {
    Addr,
    Addi,
    Mulr,
    Muli,
    Banr,
    Bani,
    Borr,
    Bori,
    Setr,
    Seti,
    Gtir,
    Gtri,
    Gtrr,
    Eqir,
    Eqri,
    Eqrr,
}

/// One for true, zero for false.
pub open spec fn flag(b: bool) -> int {
    if b {
        1
    } else {
        0
    }
}

/// The value that the instruction computes from the registers and its two
/// inputs; `None` where an input that names a register names none of the
/// four.
pub open spec fn computed(op: Opcode, regs: Seq<usize>, a: usize, b: usize) -> Option<int> {
    match op {
        Opcode::Addr => if a < 4 && b < 4 {
            Some(regs[a as int] + regs[b as int])
        } else {
            None
        },
        Opcode::Addi => if a < 4 {
            Some(regs[a as int] + b)
        } else {
            None
        },
        Opcode::Mulr => if a < 4 && b < 4 {
            Some(regs[a as int] * regs[b as int])
        } else {
            None
        },
        Opcode::Muli => if a < 4 {
            Some(regs[a as int] * b)
        } else {
            None
        },
        Opcode::Banr => if a < 4 && b < 4 {
            Some((regs[a as int] & regs[b as int]) as int)
        } else {
            None
        },
        Opcode::Bani => if a < 4 {
            Some((regs[a as int] & b) as int)
        } else {
            None
        },
        Opcode::Borr => if a < 4 && b < 4 {
            Some((regs[a as int] | regs[b as int]) as int)
        } else {
            None
        },
        Opcode::Bori => if a < 4 {
            Some((regs[a as int] | b) as int)
        } else {
            None
        },
        Opcode::Setr => if a < 4 {
            Some(regs[a as int] as int)
        } else {
            None
        },
        Opcode::Seti => Some(a as int),
        Opcode::Gtir => if b < 4 {
            Some(flag(a > regs[b as int]))
        } else {
            None
        },
        Opcode::Gtri => if a < 4 {
            Some(flag(regs[a as int] > b))
        } else {
            None
        },
        Opcode::Gtrr => if a < 4 && b < 4 {
            Some(flag(regs[a as int] > regs[b as int]))
        } else {
            None
        },
        Opcode::Eqir => if b < 4 {
            Some(flag(a == regs[b as int]))
        } else {
            None
        },
        Opcode::Eqri => if a < 4 {
            Some(flag(regs[a as int] == b))
        } else {
            None
        },
        Opcode::Eqrr => if a < 4 && b < 4 {
            Some(flag(regs[a as int] == regs[b as int]))
        } else {
            None
        },
    }
}

/// The registers after the instruction: register `c` holds the computed
/// value. `None` where nothing is computed, the value does not fit in a
/// `usize`, or `c` names no register.
pub open spec fn executed(op: Opcode, regs: Seq<usize>, a: usize, b: usize, c: usize) -> Option<
    Seq<usize>,
> {
    match computed(op, regs, a, b) {
        Some(v) => if v <= usize::MAX && c < 4 {
            Some(regs.update(c as int, v as usize))
        } else {
            None
        },
        None => None,
    }
}

/// One if the condition holds, else zero.
fn one_if(b: bool) -> (r: usize)
    ensures
        r == flag(b),
{
    if b {
        1
    } else {
        0
    }
}

impl Opcode {
    /// Runs the instruction on the registers.
    pub fn execute(&self, regs: [usize; 4], a: usize, b: usize, c: usize) -> (r: Option<[usize; 4]>)
        ensures
            match r {
                Some(out) => executed(*self, regs@, a, b, c) == Some(out@),
                None => executed(*self, regs@, a, b, c) is None,
            },
    {
        let value: Option<usize> = match self {
            Opcode::Addr => if a < 4 && b < 4 {
                regs[a].checked_add(regs[b])
            } else {
                return None;
            },
            Opcode::Addi => if a < 4 {
                regs[a].checked_add(b)
            } else {
                return None;
            },
            Opcode::Mulr => if a < 4 && b < 4 {
                regs[a].checked_mul(regs[b])
            } else {
                return None;
            },
            Opcode::Muli => if a < 4 {
                regs[a].checked_mul(b)
            } else {
                return None;
            },
            Opcode::Banr => if a < 4 && b < 4 {
                Some(regs[a] & regs[b])
            } else {
                return None;
            },
            Opcode::Bani => if a < 4 {
                Some(regs[a] & b)
            } else {
                return None;
            },
            Opcode::Borr => if a < 4 && b < 4 {
                Some(regs[a] | regs[b])
            } else {
                return None;
            },
            Opcode::Bori => if a < 4 {
                Some(regs[a] | b)
            } else {
                return None;
            },
            Opcode::Setr => if a < 4 {
                Some(regs[a])
            } else {
                return None;
            },
            Opcode::Seti => Some(a),
            Opcode::Gtir => if b < 4 {
                Some(one_if(a > regs[b]))
            } else {
                return None;
            },
            Opcode::Gtri => if a < 4 {
                Some(one_if(regs[a] > b))
            } else {
                return None;
            },
            Opcode::Gtrr => if a < 4 && b < 4 {
                Some(one_if(regs[a] > regs[b]))
            } else {
                return None;
            },
            Opcode::Eqir => if b < 4 {
                Some(one_if(a == regs[b]))
            } else {
                return None;
            },
            Opcode::Eqri => if a < 4 {
                Some(one_if(regs[a] == b))
            } else {
                return None;
            },
            Opcode::Eqrr => if a < 4 && b < 4 {
                Some(one_if(regs[a] == regs[b]))
            } else {
                return None;
            },
        };
        match value {
            Some(v) => {
                if c < 4 {
                    let mut out = regs;
                    out[c] = v;
                    assert(out@ =~= regs@.update(c as int, v));
                    Some(out)
                } else {
                    None
                }
            },
            None => None,
        }
    }
}

/// The sixteen instructions in their fixed order.
pub open spec fn all_opcodes() -> Seq<Opcode> {
    seq![
        Opcode::Addr,
        Opcode::Addi,
        Opcode::Mulr,
        Opcode::Muli,
        Opcode::Banr,
        Opcode::Bani,
        Opcode::Borr,
        Opcode::Bori,
        Opcode::Setr,
        Opcode::Seti,
        Opcode::Gtir,
        Opcode::Gtri,
        Opcode::Gtrr,
        Opcode::Eqir,
        Opcode::Eqri,
        Opcode::Eqrr,
    ]
}

/// The sixteen instructions in their fixed order.
pub fn opcode_list() -> (v: Vec<Opcode>)
    ensures
        v@ == all_opcodes(),
{
    let mut v: Vec<Opcode> = Vec::new();
    v.push(Opcode::Addr);
    v.push(Opcode::Addi);
    v.push(Opcode::Mulr);
    v.push(Opcode::Muli);
    v.push(Opcode::Banr);
    v.push(Opcode::Bani);
    v.push(Opcode::Borr);
    v.push(Opcode::Bori);
    v.push(Opcode::Setr);
    v.push(Opcode::Seti);
    v.push(Opcode::Gtir);
    v.push(Opcode::Gtri);
    v.push(Opcode::Gtrr);
    v.push(Opcode::Eqir);
    v.push(Opcode::Eqri);
    v.push(Opcode::Eqrr);
    assert(v@ =~= all_opcodes());
    v
}

/// A sample: the registers before, an instruction by number with its three
/// operands, and the registers after.
#[derive(Clone, Debug)]
pub struct TestCase {
    pub input_registers: [usize; 4],
    pub opcode: usize,
    pub a: usize,
    pub b: usize,
    pub c: usize,
    pub output_registers: [usize; 4],
}

/// The expression for the first line of a sample.
pub open spec fn before_pattern() -> Seq<char> {
    "Before: \\[(\\d+), (\\d+), (\\d+), (\\d+)\\]"@
}

/// The expression for an instruction.
pub open spec fn input_pattern() -> Seq<char> {
    "(\\d+) (\\d+) (\\d+) (\\d+)"@
}

/// The expression for the last line of a sample.
pub open spec fn after_pattern() -> Seq<char> {
    "After:  \\[(\\d+), (\\d+), (\\d+), (\\d+)\\]"@
}

/// Four numbers, if the four texts write them.
pub open spec fn four_numbers(f: Seq<Seq<char>>) -> Option<Seq<usize>> {
    if f.len() == 4 && as_usize(f[0]) is Some && as_usize(f[1]) is Some && as_usize(f[2]) is Some
        && as_usize(f[3]) is Some {
        Some(
            seq![
                as_usize(f[0]).unwrap(),
                as_usize(f[1]).unwrap(),
                as_usize(f[2]).unwrap(),
                as_usize(f[3]).unwrap(),
            ],
        )
    } else {
        None
    }
}

/// The four numbers that `pattern` captures in `line`.
pub open spec fn numbers_in(pattern: Seq<char>, line: Seq<char>) -> Option<Seq<usize>> {
    match fields_of(pattern, line, 4) {
        Some(f) => four_numbers(f),
        None => None,
    }
}

/// A sample as plain values: registers before, the instruction, registers
/// after.
pub struct Sample {
    pub before: Seq<usize>,
    pub instruction: Seq<usize>,
    pub after: Seq<usize>,
}

/// The sample as plain values.
pub open spec fn sample_of(case: TestCase) -> Sample {
    Sample {
        before: case.input_registers@,
        instruction: seq![case.opcode, case.a, case.b, case.c],
        after: case.output_registers@,
    }
}

/// The sample that a block of text writes: exactly three lines, each
/// matching its expression.
pub open spec fn sample_of_text(block: Seq<char>) -> Option<Sample> {
    let ls = split(block, seq!['\n']);
    if ls.len() == 3 {
        match (
            numbers_in(before_pattern(), ls[0]),
            numbers_in(input_pattern(), ls[1]),
            numbers_in(after_pattern(), ls[2]),
        ) {
            (Some(before), Some(instruction), Some(after)) => Some(
                Sample { before, instruction, after },
            ),
            _ => None,
        }
    } else {
        None
    }
}

/// Reads the four numbers that `pattern` captures in `line`.
pub fn read_four(pattern: &str, line: &Vec<char>) -> (r: Option<[usize; 4]>)
    ensures
        match r {
            Some(v) => numbers_in(pattern@, line@) == Some(v@),
            None => numbers_in(pattern@, line@) is None,
        },
{
    let f = match match_fields(pattern, line, 4) {
        Some(f) => f,
        None => {
            return None;
        },
    };
    assert(views(f@).len() == 4);
    assert(forall|i: int| 0 <= i < 4 ==> views(f@)[i] == f[i]@);
    match (read_usize(&f[0]), read_usize(&f[1]), read_usize(&f[2]), read_usize(&f[3])) {
        (Some(n0), Some(n1), Some(n2), Some(n3)) => {
            let v: [usize; 4] = [n0, n1, n2, n3];
            assert(v@ =~= seq![n0, n1, n2, n3]);
            Some(v)
        },
        _ => None,
    }
}

/// Reads one sample.
pub fn parse_case(case: &Vec<char>) -> (r: Option<TestCase>)
    ensures
        match r {
            Some(t) => sample_of_text(case@) == Some(sample_of(t)),
            None => sample_of_text(case@) is None,
        },
{
    let mut sep: Vec<char> = Vec::new();
    sep.push('\n');
    assert(sep@ =~= seq!['\n']);
    let ls = split_text(case, &sep);
    if ls.len() != 3 {
        return None;
    }
    assert(forall|i: int| 0 <= i < 3 ==> views(ls@)[i] == ls[i]@);
    let before = read_four("Before: \\[(\\d+), (\\d+), (\\d+), (\\d+)\\]", &ls[0]);
    let instruction = read_four("(\\d+) (\\d+) (\\d+) (\\d+)", &ls[1]);
    let after = read_four("After:  \\[(\\d+), (\\d+), (\\d+), (\\d+)\\]", &ls[2]);
    match (before, instruction, after) {
        (Some(before), Some(ins), Some(after)) => {
            let t = TestCase {
                input_registers: before,
                opcode: ins[0],
                a: ins[1],
                b: ins[2],
                c: ins[3],
                output_registers: after,
            };
            assert(sample_of(t).instruction =~= ins@);
            Some(t)
        },
        _ => None,
    }
}

/// Of the first `n` instructions, those that turn the sample's registers
/// before into its registers after, in order. `None` where one of them
/// cannot run on the sample.
pub open spec fn matching(s: Sample, n: nat) -> Option<Seq<Opcode>>
    decreases n,
{
    if n == 0 {
        Some(seq![])
    } else {
        let op = all_opcodes()[n - 1];
        match (
            matching(s, (n - 1) as nat),
            executed(op, s.before, s.instruction[1], s.instruction[2], s.instruction[3]),
        ) {
            (Some(found), Some(out)) => if out == s.after {
                Some(found.push(op))
            } else {
                Some(found)
            },
            _ => None,
        }
    }
}

/// Whether two register files hold the same values.
fn same_registers(x: &[usize; 4], y: &[usize; 4]) -> (r: bool)
    ensures
        r == (x@ == y@),
{
    let r = x[0] == y[0] && x[1] == y[1] && x[2] == y[2] && x[3] == y[3];
    if r {
        assert(x@ =~= y@);
    }
    r
}

/// The instructions that behave as the sample shows. `None` where an
/// instruction cannot run on the sample.
pub fn matching_opcodes(case: &TestCase) -> (r: Option<Vec<Opcode>>)
    ensures
        match r {
            Some(v) => matching(sample_of(*case), 16) == Some(v@),
            None => matching(sample_of(*case), 16) is None,
        },
{
    let all = opcode_list();
    let ghost s = sample_of(*case);
    let mut found: Vec<Opcode> = Vec::new();
    let mut i: usize = 0;
    while i < 16
        invariant
            i <= 16,
            all@ == all_opcodes(),
            s == sample_of(*case),
            matching(s, i as nat) == Some(found@),
        decreases 16 - i,
    {
        let op = all[i];
        match op.execute(case.input_registers, case.a, case.b, case.c) {
            Some(out) => {
                if same_registers(&out, &case.output_registers) {
                    found.push(op);
                }
            },
            None => {
                proof {
                    unmatched_stays(s, (i + 1) as nat);
                }
                return None;
            },
        }
        i += 1;
    }
    Some(found)
}

/// Once an instruction cannot run, the matching of all sixteen is undefined.
pub proof fn unmatched_stays(s: Sample, k: nat)
    requires
        k <= 16,
        matching(s, k) is None,
    ensures
        matching(s, 16) is None,
    decreases 16 - k,
{
    if k < 16 {
        unmatched_stays(s, k + 1);
    }
}

/// The samples that the blocks write, if every block writes one.
pub open spec fn samples_of(blocks: Seq<Seq<char>>) -> Option<Seq<Sample>> {
    if forall|i: int| 0 <= i < blocks.len() ==> (#[trigger] sample_of_text(blocks[i])) is Some {
        Some(Seq::new(blocks.len(), |i: int| sample_of_text(blocks[i]).unwrap()))
    } else {
        None
    }
}

/// The samples as plain values.
pub open spec fn samples(cases: Seq<TestCase>) -> Seq<Sample> {
    Seq::new(cases.len(), |i: int| sample_of(cases[i]))
}

/// The samples of the input: the blocks, parted by an empty line, of what
/// stands before the first two empty lines in a row.
pub open spec fn samples_of_input(input: Seq<char>) -> Option<Seq<Sample>> {
    samples_of(split(split(input, seq!['\n', '\n', '\n'])[0], seq!['\n', '\n']))
}

/// How many of the samples behave like three or more instructions. `None`
/// where an instruction cannot run on one of the samples.
pub open spec fn ambiguous(ss: Seq<Sample>) -> Option<nat>
    decreases ss.len(),
{
    if ss.len() == 0 {
        Some(0)
    } else {
        match (ambiguous(ss.drop_last()), matching(ss.last(), 16)) {
            (Some(n), Some(found)) => if found.len() >= 3 {
                Some(n + 1)
            } else {
                Some(n)
            },
            _ => None,
        }
    }
}

/// The number of samples that behave like three or more instructions, in
/// decimal, where it fits in an `i32`.
pub open spec fn ambiguous_answer(ss: Seq<Sample>) -> Option<Seq<char>> {
    match ambiguous(ss) {
        Some(n) => if n <= i32::MAX {
            Some(decimal(n))
        } else {
            None
        },
        None => None,
    }
}

/// A separator of `n` line feeds.
fn line_feeds(n: usize) -> (sep: Vec<char>)
    ensures
        sep@ == Seq::new(n as nat, |i: int| '\n'),
{
    let mut sep: Vec<char> = Vec::new();
    while sep.len() < n
        invariant
            sep.len() <= n,
            sep@ == Seq::new(sep.len() as nat, |i: int| '\n'),
        decreases n - sep.len(),
    {
        sep.push('\n');
        assert(sep@ =~= Seq::new(sep.len() as nat, |i: int| '\n'));
    }
    sep
}

/// Once an instruction cannot run on a sample, the count is undefined.
pub proof fn ambiguous_none_stays(ss: Seq<Sample>, k: int)
    requires
        0 <= k <= ss.len(),
        ambiguous(ss.take(k)) is None,
    ensures
        ambiguous(ss) is None,
    decreases ss.len(),
{
    if k < ss.len() {
        assert(ss.drop_last().take(k) == ss.take(k));
        ambiguous_none_stays(ss.drop_last(), k);
    } else {
        assert(ss.take(k) == ss);
    }
}

/// The number of samples that behave like three or more instructions, in
/// decimal, together with the samples. `None` where a block is no sample, an
/// instruction cannot run on a sample, or the number does not fit in an
/// `i32`.
pub fn part1(input: &str) -> (r: Option<(String, Vec<TestCase>)>)
    ensures
        match samples_of_input(input@) {
            Some(ss) => match r {
                Some((s, cases)) => samples(cases@) == ss && ambiguous_answer(ss) == Some(s@),
                None => ambiguous_answer(ss) is None,
            },
            None => r is None,
        },
{
    let chars = chars_of(input);
    let three = line_feeds(3);
    let two = line_feeds(2);
    assert(three@ =~= seq!['\n', '\n', '\n']);
    assert(two@ =~= seq!['\n', '\n']);
    let sections = split_text(&chars, &three);
    assert(views(sections@)[0] == sections[0]@);
    let blocks = split_text(&sections[0], &two);
    let mut cases: Vec<TestCase> = Vec::new();
    let mut i: usize = 0;
    while i < blocks.len()
        invariant
            i <= blocks.len(),
            cases.len() == i,
            samples_of_input(input@) == samples_of(views(blocks@)),
            forall|j: int|
                0 <= j < i ==> #[trigger] sample_of_text(views(blocks@)[j]) == Some(
                    sample_of(cases[j]),
                ),
        decreases blocks.len() - i,
    {
        assert(views(blocks@)[i as int] == blocks[i as int]@);
        match parse_case(&blocks[i]) {
            Some(t) => cases.push(t),
            None => {
                return None;
            },
        }
        i += 1;
    }
    let ghost ss = samples(cases@);
    assert(ss =~= Seq::new(
        views(blocks@).len(),
        |i: int| sample_of_text(views(blocks@)[i]).unwrap(),
    ));
    let mut count: usize = 0;
    let mut k: usize = 0;
    while k < cases.len()
        invariant
            k <= cases.len(),
            ss == samples(cases@),
            samples_of_input(input@) == Some(ss),
            count <= k,
            ambiguous(ss.take(k as int)) == Some(count as nat),
        decreases cases.len() - k,
    {
        assert(ss.take(k + 1).drop_last() == ss.take(k as int));
        assert(ss.take(k + 1).last() == sample_of(cases[k as int]));
        match matching_opcodes(&cases[k]) {
            Some(found) => {
                if found.len() >= 3 {
                    count += 1;
                }
            },
            None => {
                proof {
                    ambiguous_none_stays(ss, k + 1);
                }
                return None;
            },
        }
        k += 1;
    }
    assert(ss.take(cases.len() as int) == ss);
    if count > i32::MAX as usize {
        return None;
    }
    Some((usize_string(count), cases))
}

/// The list without every occurrence of `x`.
pub open spec fn without(list: Seq<Opcode>, x: Opcode) -> Seq<Opcode>
    decreases list.len(),
{
    if list.len() == 0 {
        seq![]
    } else if list.last() == x {
        without(list.drop_last(), x)
    } else {
        without(list.drop_last(), x).push(list.last())
    }
}

/// The members of the list that also stand in `allowed`.
pub open spec fn only(list: Seq<Opcode>, allowed: Seq<Opcode>) -> Seq<Opcode>
    decreases list.len(),
{
    if list.len() == 0 {
        seq![]
    } else if allowed.contains(list.last()) {
        only(list.drop_last(), allowed).push(list.last())
    } else {
        only(list.drop_last(), allowed)
    }
}

/// The candidate lists as plain values.
pub open spec fn lists(poss: Seq<Vec<Opcode>>) -> Seq<Seq<Opcode>> {
    Seq::new(poss.len(), |i: int| poss[i]@)
}

/// The candidates after one more sample. A number that already has a single
/// candidate keeps it; otherwise only the candidates that behave as the
/// sample shows remain. `None` where the sample's number is 16 or more, or
/// an instruction cannot run on it.
pub open spec fn narrow(poss: Seq<Seq<Opcode>>, s: Sample) -> Option<Seq<Seq<Opcode>>> {
    let number = s.instruction[0] as int;
    if number >= poss.len() {
        None
    } else if poss[number].len() == 1 {
        Some(poss)
    } else {
        match matching(s, 16) {
            Some(found) => Some(poss.update(number, only(poss[number], found))),
            None => None,
        }
    }
}

/// The candidates for each of the sixteen numbers after all samples,
/// starting with every instruction for every number.
pub open spec fn narrowed(ss: Seq<Sample>) -> Option<Seq<Seq<Opcode>>>
    decreases ss.len(),
{
    if ss.len() == 0 {
        Some(Seq::new(16, |i: int| all_opcodes()))
    } else {
        match narrowed(ss.drop_last()) {
            Some(poss) => narrow(poss, ss.last()),
            None => None,
        }
    }
}

/// The candidates after the single candidate of number `a` is struck from
/// every other number.
pub open spec fn strike(poss: Seq<Seq<Opcode>>, a: int) -> Seq<Seq<Opcode>> {
    Seq::new(
        poss.len(),
        |b: int|
            if b == a {
                poss[b]
            } else {
                without(poss[b], poss[a][0])
            },
    )
}

/// One pass over the numbers from `a` on: each number that has a single
/// candidate when its turn comes has it struck from the others.
pub open spec fn sweep_from(poss: Seq<Seq<Opcode>>, a: nat) -> Seq<Seq<Opcode>>
    decreases poss.len() - a,
{
    if a >= poss.len() {
        poss
    } else if poss[a as int].len() == 1 {
        sweep_from(strike(poss, a as int), a + 1)
    } else {
        sweep_from(poss, a + 1)
    }
}

/// How many candidates the first `n` numbers have together.
pub open spec fn total(poss: Seq<Seq<Opcode>>, n: nat) -> nat
    decreases n,
{
    if n == 0 {
        0
    } else {
        total(poss, (n - 1) as nat) + poss[n - 1].len()
    }
}

/// Every number has exactly one candidate.
pub open spec fn all_single(poss: Seq<Seq<Opcode>>) -> bool {
    forall|i: int| 0 <= i < poss.len() ==> (#[trigger] poss[i]).len() == 1
}

/// The candidates after passes are made until every number has exactly one.
/// `None` where a pass strikes nothing before that.
pub open spec fn settle(poss: Seq<Seq<Opcode>>) -> Option<Seq<Seq<Opcode>>>
    decreases total(poss, poss.len()),
{
    if all_single(poss) {
        Some(poss)
    } else {
        let next = sweep_from(poss, 0);
        if total(next, next.len()) < total(poss, poss.len()) {
            settle(next)
        } else {
            None
        }
    }
}

/// The registers after one line of the program. A line of white space
/// changes nothing. `None` where the line writes no instruction, its number
/// has no instruction, or the instruction cannot run.
pub open spec fn after_line(numbering: Seq<Opcode>, regs: Seq<usize>, line: Seq<char>) -> Option<
    Seq<usize>,
> {
    if trim(line).len() == 0 {
        Some(regs)
    } else {
        match numbers_in(input_pattern(), line) {
            Some(ins) => if ins[0] < numbering.len() {
                executed(numbering[ins[0] as int], regs, ins[1], ins[2], ins[3])
            } else {
                None
            },
            None => None,
        }
    }
}

/// The registers after the lines of the program, starting from zeros.
pub open spec fn after_lines(numbering: Seq<Opcode>, ls: Seq<Seq<char>>) -> Option<Seq<usize>>
    decreases ls.len(),
{
    if ls.len() == 0 {
        Some(seq![0usize, 0usize, 0usize, 0usize])
    } else {
        match after_lines(numbering, ls.drop_last()) {
            Some(regs) => after_line(numbering, regs, ls.last()),
            None => None,
        }
    }
}

/// The instruction of each number, given one candidate for each.
pub open spec fn numbering(poss: Seq<Seq<Opcode>>) -> Seq<Opcode> {
    Seq::new(poss.len(), |i: int| poss[i][0])
}

/// What register 0 holds after the program, in decimal: the samples fix the
/// numbering, and the program is what follows the first two empty lines in a
/// row of the input.
pub open spec fn program_answer(input: Seq<char>, ss: Seq<Sample>) -> Option<Seq<char>> {
    let sections = split(input, seq!['\n', '\n', '\n']);
    match narrowed(ss) {
        Some(poss) => match settle(poss) {
            Some(fixed) => if sections.len() >= 2 {
                match after_lines(numbering(fixed), split(sections[1], seq!['\n'])) {
                    Some(regs) => Some(decimal(regs[0] as nat)),
                    None => None,
                }
            } else {
                None
            },
            None => None,
        },
        None => None,
    }
}

/// The list without every occurrence of `x`.
pub fn remove_opcode(list: &Vec<Opcode>, x: Opcode) -> (r: Vec<Opcode>)
    ensures
        r@ == without(list@, x),
{
    let mut out: Vec<Opcode> = Vec::new();
    let mut i: usize = 0;
    while i < list.len()
        invariant
            i <= list.len(),
            out@ == without(list@.take(i as int), x),
        decreases list.len() - i,
    {
        assert(list@.take(i + 1).drop_last() == list@.take(i as int));
        if list[i] != x {
            out.push(list[i]);
        }
        i += 1;
    }
    assert(list@.take(list.len() as int) == list@);
    out
}

/// Whether `x` stands in the list.
pub fn has_opcode(list: &Vec<Opcode>, x: Opcode) -> (r: bool)
    ensures
        r == list@.contains(x),
{
    let mut i: usize = 0;
    while i < list.len()
        invariant
            i <= list.len(),
            forall|j: int| 0 <= j < i ==> list[j] != x,
        decreases list.len() - i,
    {
        if list[i] == x {
            return true;
        }
        i += 1;
    }
    false
}

/// The members of the list that also stand in `allowed`.
pub fn keep_opcodes(list: &Vec<Opcode>, allowed: &Vec<Opcode>) -> (r: Vec<Opcode>)
    ensures
        r@ == only(list@, allowed@),
{
    let mut out: Vec<Opcode> = Vec::new();
    let mut i: usize = 0;
    while i < list.len()
        invariant
            i <= list.len(),
            out@ == only(list@.take(i as int), allowed@),
        decreases list.len() - i,
    {
        assert(list@.take(i + 1).drop_last() == list@.take(i as int));
        if has_opcode(allowed, list[i]) {
            out.push(list[i]);
        }
        i += 1;
    }
    assert(list@.take(list.len() as int) == list@);
    out
}

/// How many candidates all numbers have together.
pub fn count_candidates(poss: &Vec<Vec<Opcode>>) -> (r: u128)
    requires
        poss.len() == 16,
    ensures
        r == total(lists(poss@), 16),
{
    let mut sum: u128 = 0;
    let mut i: usize = 0;
    while i < 16
        invariant
            i <= 16,
            poss.len() == 16,
            sum == total(lists(poss@), i as nat),
            sum <= i * usize::MAX,
        decreases 16 - i,
    {
        assert(i * usize::MAX + usize::MAX == (i + 1) * usize::MAX) by (nonlinear_arith);
        assert((i + 1) * usize::MAX <= 16 * usize::MAX) by (nonlinear_arith)
            requires
                i < 16,
        ;
        sum = sum + poss[i].len() as u128;
        i += 1;
    }
    sum
}

/// Whether every number has exactly one candidate.
pub fn is_settled(poss: &Vec<Vec<Opcode>>) -> (r: bool)
    ensures
        r == all_single(lists(poss@)),
{
    let mut i: usize = 0;
    while i < poss.len()
        invariant
            i <= poss.len(),
            forall|j: int| 0 <= j < i ==> (#[trigger] lists(poss@)[j]).len() == 1,
        decreases poss.len() - i,
    {
        if poss[i].len() != 1 {
            assert(lists(poss@)[i as int].len() != 1);
            return false;
        }
        i += 1;
    }
    true
}

/// One pass: each number that has a single candidate when its turn comes has
/// it struck from the others.
pub fn sweep(poss: &mut Vec<Vec<Opcode>>)
    requires
        old(poss).len() == 16,
    ensures
        final(poss).len() == 16,
        lists(final(poss)@) == sweep_from(lists(old(poss)@), 0),
{
    let mut a: usize = 0;
    while a < 16
        invariant
            a <= 16,
            poss.len() == 16,
            sweep_from(lists(old(poss)@), 0) == sweep_from(lists(poss@), a as nat),
        decreases 16 - a,
    {
        if poss[a].len() == 1 {
            let x = poss[a][0];
            let ghost start = lists(poss@);
            let mut b: usize = 0;
            while b < 16
                invariant
                    b <= 16,
                    a < 16,
                    poss.len() == 16,
                    start.len() == 16,
                    start[a as int].len() == 1,
                    x == start[a as int][0],
                    forall|k: int| 0 <= k < b ==> #[trigger] lists(poss@)[k] == strike(start, a as int)[k],
                    forall|k: int| b <= k < 16 ==> #[trigger] lists(poss@)[k] == start[k],
                decreases 16 - b,
            {
                let ghost prev = lists(poss@);
                assert(prev[b as int] == start[b as int]);
                if b != a {
                    let shorter = remove_opcode(&poss[b], x);
                    poss[b] = shorter;
                    assert(lists(poss@) =~= prev.update(b as int, shorter@));
                    assert(shorter@ == strike(start, a as int)[b as int]);
                } else {
                    assert(prev[b as int] == strike(start, a as int)[b as int]);
                }
                assert forall|k: int| 0 <= k < b + 1 implies #[trigger] lists(poss@)[k] == strike(
                    start,
                    a as int,
                )[k] by {
                    if k < b {
                        assert(prev[k] == strike(start, a as int)[k]);
                    }
                }
                assert forall|k: int| b + 1 <= k < 16 implies #[trigger] lists(poss@)[k]
                    == start[k] by {
                    assert(prev[k] == start[k]);
                }
                b += 1;
            }
            assert(lists(poss@) =~= strike(start, a as int));
        }
        a += 1;
    }
}

/// The registers after one line of the program.
pub fn run_line(numbering: &Vec<Opcode>, regs: [usize; 4], line: &Vec<char>) -> (r: Option<
    [usize; 4],
>)
    ensures
        match r {
            Some(out) => after_line(numbering@, regs@, line@) == Some(out@),
            None => after_line(numbering@, regs@, line@) is None,
        },
{
    if trimmed(line).len() == 0 {
        return Some(regs);
    }
    let ins = match read_four("(\\d+) (\\d+) (\\d+) (\\d+)", line) {
        Some(ins) => ins,
        None => {
            return None;
        },
    };
    if ins[0] >= numbering.len() {
        return None;
    }
    numbering[ins[0]].execute(regs, ins[1], ins[2], ins[3])
}

/// Once a line cannot run, the program has no outcome.
pub proof fn halted_stays(numbering: Seq<Opcode>, ls: Seq<Seq<char>>, k: int)
    requires
        0 <= k <= ls.len(),
        after_lines(numbering, ls.take(k)) is None,
    ensures
        after_lines(numbering, ls) is None,
    decreases ls.len(),
{
    if k < ls.len() {
        assert(ls.drop_last().take(k) == ls.take(k));
        halted_stays(numbering, ls.drop_last(), k);
    } else {
        assert(ls.take(k) == ls);
    }
}

/// Once a sample cannot be used, the candidates are undefined.
pub proof fn narrowed_none_stays(ss: Seq<Sample>, k: int)
    requires
        0 <= k <= ss.len(),
        narrowed(ss.take(k)) is None,
    ensures
        narrowed(ss) is None,
    decreases ss.len(),
{
    if k < ss.len() {
        assert(ss.drop_last().take(k) == ss.take(k));
        narrowed_none_stays(ss.drop_last(), k);
    } else {
        assert(ss.take(k) == ss);
    }
}

/// The candidates for each number that the samples leave.
pub fn narrow_all(cases: &Vec<TestCase>) -> (r: Option<Vec<Vec<Opcode>>>)
    ensures
        match r {
            Some(poss) => poss.len() == 16 && narrowed(samples(cases@)) == Some(lists(poss@)),
            None => narrowed(samples(cases@)) is None,
        },
{
    let ghost ss = samples(cases@);
    let mut poss: Vec<Vec<Opcode>> = Vec::new();
    while poss.len() < 16
        invariant
            poss.len() <= 16,
            forall|i: int| 0 <= i < poss.len() ==> (#[trigger] poss[i])@ == all_opcodes(),
        decreases 16 - poss.len(),
    {
        poss.push(opcode_list());
    }
    assert(lists(poss@) =~= Seq::new(16, |i: int| all_opcodes()));
    assert(ss.take(0) =~= seq![]);
    let mut k: usize = 0;
    while k < cases.len()
        invariant
            k <= cases.len(),
            ss == samples(cases@),
            poss.len() == 16,
            narrowed(ss.take(k as int)) == Some(lists(poss@)),
        decreases cases.len() - k,
    {
        assert(ss.take(k + 1).drop_last() == ss.take(k as int));
        assert(ss.take(k + 1).last() == sample_of(cases[k as int]));
        let number = cases[k].opcode;
        if number >= 16 {
            proof {
                narrowed_none_stays(ss, k + 1);
            }
            return None;
        }
        assert(lists(poss@)[number as int] == poss[number as int]@);
        if poss[number].len() != 1 {
            match matching_opcodes(&cases[k]) {
                Some(found) => {
                    let kept = keep_opcodes(&poss[number], &found);
                    let ghost prev = lists(poss@);
                    poss[number] = kept;
                    assert(lists(poss@) =~= prev.update(number as int, kept@));
                },
                None => {
                    proof {
                        narrowed_none_stays(ss, k + 1);
                    }
                    return None;
                },
            }
        }
        k += 1;
    }
    assert(ss.take(cases.len() as int) == ss);
    Some(poss)
}

/// Makes passes until every number has exactly one candidate, and gives the
/// instruction of each number. `None` where a pass strikes nothing first.
pub fn settle_all(candidates: Vec<Vec<Opcode>>) -> (r: Option<Vec<Opcode>>)
    requires
        candidates.len() == 16,
    ensures
        match r {
            Some(ops) => settle(lists(candidates@)) is Some && ops@ == numbering(
                settle(lists(candidates@)).unwrap(),
            ),
            None => settle(lists(candidates@)) is None,
        },
{
    let ghost start = lists(candidates@);
    let mut poss = candidates;
    loop
        invariant_except_break
            poss.len() == 16,
            start == lists(candidates@),
            settle(start) == settle(lists(poss@)),
        ensures
            poss.len() == 16,
            start == lists(candidates@),
            all_single(lists(poss@)),
            settle(start) == Some(lists(poss@)),
        decreases total(lists(poss@), 16),
    {
        if is_settled(&poss) {
            break;
        }
        let ghost prev = lists(poss@);
        let before = count_candidates(&poss);
        sweep(&mut poss);
        let after = count_candidates(&poss);
        assert(prev.len() == 16 && lists(poss@).len() == 16);
        assert(lists(poss@) == sweep_from(prev, 0));
        if after >= before {
            assert(settle(prev) is None);
            return None;
        }
        assert(settle(prev) == settle(lists(poss@)));
    }
    let mut ops: Vec<Opcode> = Vec::new();
    let mut i: usize = 0;
    while i < 16
        invariant
            i <= 16,
            poss.len() == 16,
            all_single(lists(poss@)),
            ops.len() == i,
            forall|j: int| 0 <= j < i ==> ops[j] == #[trigger] lists(poss@)[j][0],
        decreases 16 - i,
    {
        assert(lists(poss@)[i as int].len() == 1);
        ops.push(poss[i][0]);
        i += 1;
    }
    assert(ops@ =~= numbering(lists(poss@)));
    Some(ops)
}

/// The registers after the lines of the program, starting from zeros.
pub fn run_program(numbering: &Vec<Opcode>, ls: &Vec<Vec<char>>) -> (r: Option<[usize; 4]>)
    ensures
        match r {
            Some(out) => after_lines(numbering@, views(ls@)) == Some(out@),
            None => after_lines(numbering@, views(ls@)) is None,
        },
{
    let mut regs: [usize; 4] = [0, 0, 0, 0];
    assert(regs@ =~= seq![0usize, 0usize, 0usize, 0usize]);
    let mut k: usize = 0;
    assert(views(ls@).take(0) =~= seq![]);
    while k < ls.len()
        invariant
            k <= ls.len(),
            after_lines(numbering@, views(ls@).take(k as int)) == Some(regs@),
        decreases ls.len() - k,
    {
        assert(views(ls@).take(k + 1).drop_last() == views(ls@).take(k as int));
        assert(views(ls@).take(k + 1).last() == ls[k as int]@);
        regs = match run_line(numbering, regs, &ls[k]) {
            Some(out) => out,
            None => {
                proof {
                    halted_stays(numbering@, views(ls@), k + 1);
                }
                return None;
            },
        };
        k += 1;
    }
    assert(views(ls@).take(ls.len() as int) == views(ls@));
    Some(regs)
}

/// What register 0 holds after the program, in decimal. The samples decide
/// which instruction each number stands for. `None` where a sample has a
/// number of 16 or more, an instruction cannot run on a sample or in the
/// program, the samples do not settle the numbering, there is no program, or
/// one of its lines writes no instruction.
pub fn part2(input: &str, cases: Vec<TestCase>) -> (r: Option<String>)
    ensures
        opt_view(r) == program_answer(input@, samples(cases@)),
{
    let poss = match narrow_all(&cases) {
        Some(poss) => poss,
        None => {
            return None;
        },
    };
    let ops = match settle_all(poss) {
        Some(ops) => ops,
        None => {
            return None;
        },
    };
    let chars = chars_of(input);
    let three = line_feeds(3);
    let one = line_feeds(1);
    assert(three@ =~= seq!['\n', '\n', '\n']);
    assert(one@ =~= seq!['\n']);
    let sections = split_text(&chars, &three);
    if sections.len() < 2 {
        return None;
    }
    assert(views(sections@)[1] == sections[1]@);
    let ls = split_text(&sections[1], &one);
    match run_program(&ops, &ls) {
        Some(regs) => Some(usize_string(regs[0])),
        None => None,
    }
}

} // verus!
