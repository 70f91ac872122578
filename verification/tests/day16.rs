use advent2018::day16::{self, Opcode, TestCase};

const ALL: [Opcode; 16] = [
    Opcode::Addr, Opcode::Addi, Opcode::Mulr, Opcode::Muli, Opcode::Banr, Opcode::Bani,
    Opcode::Borr, Opcode::Bori, Opcode::Setr, Opcode::Seti, Opcode::Gtir, Opcode::Gtri,
    Opcode::Gtrr, Opcode::Eqir, Opcode::Eqri, Opcode::Eqrr,
];

#[test]
fn day16_sample_that_behaves_like_three() {
    let text = "Before: [3, 2, 1, 1]\n9 2 1 2\nAfter:  [3, 2, 2, 1]\n\n\n\n9 2 1 2\n";
    let (answer, cases) = day16::part1(text).unwrap();
    assert_eq!(answer, "1");
    assert_eq!(cases.len(), 1);
    assert_eq!(cases[0].input_registers, [3, 2, 1, 1]);
    assert_eq!((cases[0].opcode, cases[0].a, cases[0].b, cases[0].c), (9, 2, 1, 2));
    assert_eq!(cases[0].output_registers, [3, 2, 2, 1]);
    assert_eq!(
        day16::matching_opcodes(&cases[0]),
        Some(vec![Opcode::Addi, Opcode::Mulr, Opcode::Seti])
    );
}

#[test]
fn day16_two_samples() {
    let text = "Before: [3, 2, 1, 1]\n9 2 1 2\nAfter:  [3, 2, 2, 1]\n\nBefore: [0, 0, 0, 0]\n1 0 0 0\nAfter:  [9, 9, 9, 9]";
    let (answer, cases) = day16::part1(text).unwrap();
    assert_eq!(answer, "1");
    assert_eq!(cases.len(), 2);
    assert_eq!(day16::matching_opcodes(&cases[1]), Some(vec![]));
}

#[test]
fn day16_every_instruction() {
    let regs = [6, 3, 5, 0];
    assert_eq!(Opcode::Addr.execute(regs, 0, 1, 3), Some([6, 3, 5, 9]));
    assert_eq!(Opcode::Addi.execute(regs, 0, 7, 3), Some([6, 3, 5, 13]));
    assert_eq!(Opcode::Mulr.execute(regs, 0, 1, 3), Some([6, 3, 5, 18]));
    assert_eq!(Opcode::Muli.execute(regs, 0, 7, 3), Some([6, 3, 5, 42]));
    assert_eq!(Opcode::Banr.execute(regs, 0, 1, 3), Some([6, 3, 5, 2]));
    assert_eq!(Opcode::Bani.execute(regs, 0, 12, 3), Some([6, 3, 5, 4]));
    assert_eq!(Opcode::Borr.execute(regs, 0, 1, 3), Some([6, 3, 5, 7]));
    assert_eq!(Opcode::Bori.execute(regs, 0, 8, 3), Some([6, 3, 5, 14]));
    assert_eq!(Opcode::Setr.execute(regs, 2, 99, 0), Some([5, 3, 5, 0]));
    assert_eq!(Opcode::Seti.execute(regs, 99, 99, 0), Some([99, 3, 5, 0]));
    assert_eq!(Opcode::Gtir.execute(regs, 4, 1, 3), Some([6, 3, 5, 1]));
    assert_eq!(Opcode::Gtir.execute(regs, 3, 1, 0), Some([0, 3, 5, 0]));
    assert_eq!(Opcode::Gtri.execute(regs, 0, 5, 3), Some([6, 3, 5, 1]));
    assert_eq!(Opcode::Gtrr.execute(regs, 1, 2, 0), Some([0, 3, 5, 0]));
    assert_eq!(Opcode::Eqir.execute(regs, 5, 2, 3), Some([6, 3, 5, 1]));
    assert_eq!(Opcode::Eqri.execute(regs, 1, 3, 3), Some([6, 3, 5, 1]));
    assert_eq!(Opcode::Eqrr.execute(regs, 0, 1, 3), Some([6, 3, 5, 0]));
}

#[test]
fn day16_instruction_that_cannot_run() {
    let regs = [1, 2, 3, 4];
    assert_eq!(Opcode::Addr.execute(regs, 4, 0, 0), None);
    assert_eq!(Opcode::Addr.execute(regs, 0, 4, 0), None);
    assert_eq!(Opcode::Seti.execute(regs, 9, 9, 4), None);
    assert_eq!(Opcode::Addi.execute(regs, 0, usize::MAX, 0), None);
    assert_eq!(Opcode::Muli.execute(regs, 1, usize::MAX, 0), None);
    assert_eq!(Opcode::Seti.execute(regs, 9, 9, 3), Some([1, 2, 3, 9]));
}

fn samples_for_identity_numbering() -> Vec<TestCase> {
    let inputs: [([usize; 4], usize, usize, usize); 6] = [
        ([3, 2, 1, 1], 2, 1, 2),
        ([1, 2, 3, 0], 1, 2, 3),
        ([5, 7, 0, 2], 0, 3, 1),
        ([2, 0, 6, 3], 3, 2, 0),
        ([9, 1, 4, 2], 2, 0, 1),
        ([0, 3, 3, 1], 1, 1, 0),
    ];
    let mut cases = Vec::new();
    for (number, op) in ALL.iter().enumerate() {
        for (regs, a, b, c) in inputs.iter() {
            let out = op.execute(*regs, *a, *b, *c).unwrap();
            cases.push(TestCase {
                input_registers: *regs,
                opcode: number,
                a: *a,
                b: *b,
                c: *c,
                output_registers: out,
            });
        }
    }
    cases
}

#[test]
fn day16_program_after_the_numbering_is_found() {
    let text = "no samples here\n\n\n\n9 5 0 0\n1 0 3 0\n\n3 0 2 0\n";
    assert_eq!(day16::part2(text, samples_for_identity_numbering()), Some("16".to_string()));
}

#[test]
fn day16_numbering_that_cannot_be_found() {
    let text = "x\n\n\n\n9 5 0 0\n";
    assert_eq!(day16::part2(text, Vec::new()), None);
    let mut cases = samples_for_identity_numbering();
    cases[0].opcode = 16;
    assert_eq!(day16::part2(text, cases), None);
}

#[test]
fn day16_program_missing_or_broken() {
    assert_eq!(day16::part2("only samples", samples_for_identity_numbering()), None);
    assert_eq!(day16::part2("x\n\n\n\nnot an instruction\n", samples_for_identity_numbering()), None);
    assert_eq!(day16::part2("x\n\n\n\n0 9 9 0\n", samples_for_identity_numbering()), None);
    assert_eq!(day16::part2("x\n\n\n\n", samples_for_identity_numbering()), Some("0".to_string()));
}

#[test]
fn day16_rejects_a_block_that_is_no_sample() {
    assert!(day16::part1("Before: [3, 2, 1, 1]\n9 2 1 2\n").is_none());
    assert!(day16::part1("").is_none());
}
