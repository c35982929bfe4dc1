use aoc::day17::{join, parse, puts_out_itself, q1, q2, run, Effect, Opcode, Operand, Registers};

const EXAMPLE: &str = "\
Register A: 729
Register B: 0
Register C: 0

Program: 0,1,5,4,3,0";

const STEPS: usize = 1_000_000;

fn registers(a: u64, b: u64, c: u64) -> Registers {
    Registers { a, b, c, output: Vec::new() }
}

#[test]
fn day17_test_example() {
    let input = parse(EXAMPLE).unwrap();
    let expected = "4,6,3,5,6,3,5,2,1,0";
    assert_eq!(q1(&input, STEPS), Some(expected.to_string()));
}

#[test]
fn day17_test_example_q2() {
    let input = parse(
        "Register A: 2024
Register B: 0
Register C: 0

Program: 0,3,5,4,3,0",
    )
    .unwrap();
    let expected = 117440;
    assert_eq!(q2(&input, u64::MAX, STEPS), Some(expected));
    assert!(puts_out_itself(&input, 117440, STEPS));
    assert!(!puts_out_itself(&input, 2024, STEPS));
    assert_eq!(q2(&input, 117440, STEPS), None);
}

#[test]
fn parse_reads_registers_and_program() {
    let input = parse(EXAMPLE).unwrap();
    assert_eq!(input.registers, registers(729, 0, 0));
    assert_eq!(input.program, vec![0, 1, 5, 4, 3, 0]);
    assert!(parse("Register A: 1\nRegister B: 2").is_none());
    assert!(parse("Register A: -1\nRegister B: 2\nRegister C: 3").is_none());
}

#[test]
fn single_instructions() {
    // If register C contains 9, the program 2,6 would set register B to 1.
    let mut r = registers(0, 0, 9);
    assert_eq!(Opcode::from(2).run(&mut r, Operand::from(6)), None);
    assert_eq!(r.b, 1);
    // If register B contains 29, the program 1,7 would set register B to 26.
    let mut r = registers(0, 29, 0);
    assert_eq!(Opcode::Bxl.run(&mut r, Operand(7)), None);
    assert_eq!(r.b, 26);
    // If register B contains 2024 and register C contains 43690, the program 4,0 would set
    // register B to 44354.
    let mut r = registers(0, 2024, 43690);
    assert_eq!(Opcode::Bxc.run(&mut r, Operand(0)), None);
    assert_eq!(r.b, 44354);
    let mut r = registers(100, 3, 0);
    assert_eq!(Opcode::Adv.run(&mut r, Operand(5)), None);
    assert_eq!(r.a, 12);
    assert_eq!(Opcode::Cdv.run(&mut r, Operand(2)), None);
    assert_eq!(r.c, 3);
    r.b = 200;
    assert_eq!(Opcode::Bdv.run(&mut r, Operand(5)), None);
    assert_eq!(r.b, 0);
    assert_eq!(Opcode::Jnz.run(&mut r, Operand(4)), Some(Effect::SetIp(4)));
    r.a = 0;
    assert_eq!(Opcode::Jnz.run(&mut r, Operand(4)), None);
    assert_eq!(Opcode::Out.run(&mut r, Operand(6)), None);
    assert_eq!(r.output, vec![3]);
    assert_eq!(Operand(3).literal(), 3);
    assert_eq!(Operand(4).combo(&registers(7, 8, 9)), 7);
    assert_eq!(Operand(6).combo(&registers(7, 8, 9)), 9);
    assert_eq!(Operand(2).combo(&registers(7, 8, 9)), 2);
}

#[test]
fn small_programs() {
    // If register A contains 10, the program 5,0,5,1,5,4 would output 0,1,2.
    assert_eq!(run(registers(10, 0, 0), &[5, 0, 5, 1, 5, 4], false, STEPS), Some("0,1,2".into()));
    // If register A contains 2024, the program 0,1,5,4,3,0 would output 4,2,5,6,7,7,7,7,3,1,0.
    assert_eq!(
        run(registers(2024, 0, 0), &[0, 1, 5, 4, 3, 0], false, STEPS),
        Some("4,2,5,6,7,7,7,7,3,1,0".into())
    );
    assert_eq!(run(registers(0, 0, 0), &[], false, 0), Some(String::new()));
}

#[test]
fn runs_that_do_not_halt_give_nothing() {
    // A jump to itself never halts.
    assert_eq!(run(registers(1, 0, 0), &[3, 0], false, 1000), None);
    // An instruction without its operand.
    assert_eq!(run(registers(1, 0, 0), &[5], false, 1000), None);
    // No such instruction, no such operand.
    assert_eq!(run(registers(1, 0, 0), &[8, 0], false, 1000), None);
    assert_eq!(run(registers(1, 0, 0), &[5, 7], false, 1000), None);
    // Out of steps right at the end.
    assert_eq!(run(registers(1, 0, 0), &[5, 0, 5, 1], false, 1), None);
    assert_eq!(run(registers(1, 0, 0), &[5, 0, 5, 1], false, 2), Some("0,1".into()));
}

#[test]
fn early_stop_gives_empty_text() {
    assert_eq!(run(registers(10, 0, 0), &[5, 0, 5, 1, 5, 4], true, STEPS), Some(String::new()));
    assert_eq!(run(registers(10, 0, 0), &[5, 1], true, STEPS), Some(String::new()));
    assert_eq!(run(registers(5, 0, 0), &[5, 4], true, STEPS), Some("5".into()));
}

#[test]
fn join_puts_commas_between() {
    assert_eq!(join(&vec![]), "");
    assert_eq!(join(&vec![7]), "7");
    assert_eq!(join(&vec![1, 20, 300]), "1,20,300");
}
