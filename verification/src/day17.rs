//! A small computer with three registers and eight instructions.
use crate::scan::{digits_of, numbers_fit, numbers_in, push_number, scan_numbers, string_push};
use vstd::prelude::*;
use vstd::string::StringSliceAdditionalSpecFns;

verus! {

/// The three registers of the computer and what it has put out so far.
#[derive(Clone, Debug, PartialEq, Eq)]
pub struct Registers {
    pub a: u64,
    pub b: u64,
    pub c: u64,
    pub output: Vec<u64>,
}

/// The registers as plain values.
#[verifier::ext_equal]
pub struct RegistersView {
    pub a: u64,
    pub b: u64,
    pub c: u64,
    pub output: Seq<u64>,
}

impl View for Registers {
    type V = RegistersView;

    open spec fn view(&self) -> RegistersView {
        RegistersView { a: self.a, b: self.b, c: self.c, output: self.output@ }
    }
}

/// The computer as it starts: the registers and the program.
pub struct Input {
    pub registers: Registers,
    pub program: Vec<u64>,
}

/// The number that follows an opcode in the program.
#[derive(Clone, Copy, Debug, PartialEq, Eq, Structural)]
pub struct Operand(pub u64);

/// What an instruction does besides changing the registers.
#[derive(Clone, Copy, Debug, PartialEq, Eq, Structural)]
pub enum Effect {
    SetIp(usize),
}

/// The eight instructions of the computer.
#[derive(Clone, Copy, Debug, PartialEq, Eq, Structural)]
pub enum Opcode {
    Adv,
    Bxl,
    Bst,
    Jnz,
    Bxc,
    Out,
    Bdv,
    Cdv,
}

/// Why a run came to an end, or that it did not.
pub enum Outcome {
    /// The instruction pointer left the program; the field is the output.
    Halted(Seq<u64>),
    /// The output stopped being the start of the program.
    Stopped,
    /// The run took more steps than it was given.
    OutOfSteps,
    /// An instruction without operand, an operand that stands for no value,
    /// or a jump that does not fit.
    Fault,
}

/// The value `a` halved `k` times, each time rounding down: `a` divided by
/// two to the power `k`.
pub open spec fn halved(a: u64, k: nat) -> u64
    decreases k,
{
    if k == 0 {
        a
    } else {
        halved(a, (k - 1) as nat) / 2
    }
}

/// The value of the combo operand `op`: itself up to three, then the
/// registers A, B and C.
pub open spec fn spec_combo(op: u64, registers: RegistersView) -> u64 {
    if op <= 3 {
        op
    } else if op == 4 {
        registers.a
    } else if op == 5 {
        registers.b
    } else {
        registers.c
    }
}

/// The instruction that the number `code` stands for.
pub open spec fn spec_opcode(code: u64) -> Opcode {
    if code == 0 {
        Opcode::Adv
    } else if code == 1 {
        Opcode::Bxl
    } else if code == 2 {
        Opcode::Bst
    } else if code == 3 {
        Opcode::Jnz
    } else if code == 4 {
        Opcode::Bxc
    } else if code == 5 {
        Opcode::Out
    } else if code == 6 {
        Opcode::Bdv
    } else {
        Opcode::Cdv
    }
}

/// Whether the instruction `opcode` reads its operand as a combo operand.
pub open spec fn reads_combo(opcode: Opcode) -> bool {
    opcode == Opcode::Adv || opcode == Opcode::Bst || opcode == Opcode::Out || opcode == Opcode::Bdv
        || opcode == Opcode::Cdv
}

/// The registers after the instruction `opcode` with operand `op`.
pub open spec fn registers_after(opcode: Opcode, op: u64, r: RegistersView) -> RegistersView {
    let combo = spec_combo(op, r);
    match opcode {
        Opcode::Adv => RegistersView { a: halved(r.a, combo as nat), ..r },
        Opcode::Bxl => RegistersView { b: r.b ^ op, ..r },
        Opcode::Bst => RegistersView { b: combo % 8, ..r },
        Opcode::Jnz => r,
        Opcode::Bxc => RegistersView { b: r.b ^ r.c, ..r },
        Opcode::Out => RegistersView { output: r.output.push(combo % 8), ..r },
        Opcode::Bdv => RegistersView { b: halved(r.a, combo as nat), ..r },
        Opcode::Cdv => RegistersView { c: halved(r.a, combo as nat), ..r },
    }
}

/// Where the instruction `opcode` with operand `op` jumps to, if it jumps.
pub open spec fn jump_of(opcode: Opcode, op: u64, r: RegistersView) -> Option<u64> {
    if opcode == Opcode::Jnz && r.a != 0 {
        Some(op)
    } else {
        None
    }
}

/// Whether `output` is the start of `program`.
pub open spec fn starts(program: Seq<u64>, output: Seq<u64>) -> bool {
    output.len() <= program.len() && forall|i: int|
        0 <= i < output.len() ==> #[trigger] output[i] == program[i]
}

/// How the run of `program` ends that starts with the registers `r` and the
/// instruction pointer `ip`, and takes `steps` steps at most.
pub open spec fn execute(
    program: Seq<u64>,
    r: RegistersView,
    ip: int,
    stop_early: bool,
    steps: nat,
) -> Outcome
    decreases steps,
{
    if ip < 0 || ip >= program.len() {
        Outcome::Halted(r.output)
    } else if steps == 0 {
        Outcome::OutOfSteps
    } else if ip + 1 >= program.len() || program[ip] > 7 {
        Outcome::Fault
    } else {
        let opcode = spec_opcode(program[ip]);
        let op = program[ip + 1];
        if reads_combo(opcode) && op > 6 {
            Outcome::Fault
        } else {
            let after = registers_after(opcode, op, r);
            match jump_of(opcode, op, r) {
                Some(target) => if target > usize::MAX {
                    Outcome::Fault
                } else if stop_early && !starts(program, after.output) {
                    Outcome::Stopped
                } else {
                    execute(program, after, target as int, stop_early, (steps - 1) as nat)
                },
                None => if stop_early && !starts(program, after.output) {
                    Outcome::Stopped
                } else {
                    execute(program, after, ip + 2, stop_early, (steps - 1) as nat)
                },
            }
        }
    }
}

/// The output written as text: its numbers, with a comma between them.
pub open spec fn joined(output: Seq<u64>) -> Seq<char>
    decreases output.len(),
{
    if output.len() == 0 {
        Seq::empty()
    } else if output.len() == 1 {
        digits_of(output[0] as nat)
    } else {
        joined(output.drop_last()).push(',') + digits_of(output.last() as nat)
    }
}

impl Operand {
    /// The operand with the given number.
    pub fn from(value: u64) -> (operand: Operand)
        ensures
            operand == Operand(value),
    {
        Operand(value)
    }

    /// The operand read as the number it is.
    pub fn literal(self) -> (value: u64)
        ensures
            value == self.0,
    {
        self.0
    }

    /// The operand read as a combo operand: 0 to 3 stand for themselves, 4 to 6
    /// for the registers A, B and C.
    pub fn combo(self, registers: &Registers) -> (value: u64)
        requires
            self.0 <= 6,
        ensures
            value == spec_combo(self.0, registers@),
    {
        if self.0 <= 3 {
            // Combo operands 0 through 3 represent literal values 0 through 3.
            self.0
        } else if self.0 == 4 {
            registers.a
        } else if self.0 == 5 {
            registers.b
        } else {
            registers.c
        }
    }
}

/// Halving nothing leaves nothing.
pub proof fn lemma_halved_zero(k: nat)
    ensures
        halved(0, k) == 0,
    decreases k,
{
    if k > 0 {
        lemma_halved_zero((k - 1) as nat);
    }
}

/// Halving `j` times and then `k` times is halving `j + k` times.
pub proof fn lemma_halved_add(a: u64, j: nat, k: nat)
    ensures
        halved(halved(a, j), k) == halved(a, j + k),
    decreases k,
{
    if k > 0 {
        lemma_halved_add(a, j, (k - 1) as nat);
        assert((j + k - 1) as nat == j + (k - 1) as nat);
    }
}

/// The value `a` halved `operand` times: `a` divided by two to the power of
/// the combo operand.
pub fn pow2(operand: Operand, registers: &Registers) -> (quotient: u64)
    requires
        operand.0 <= 6,
    ensures
        quotient == halved(registers.a, spec_combo(operand.0, registers@) as nat),
{
    let times = operand.combo(registers);
    let mut value = registers.a;
    let mut done: u64 = 0;
    while done < times && value > 0
        invariant
            done <= times,
            value == halved(registers.a, done as nat),
        decreases value,
    {
        value = value / 2;
        done += 1;
    }
    proof {
        if done < times {
            lemma_halved_zero((times - done) as nat);
            lemma_halved_add(registers.a, done as nat, (times - done) as nat);
        }
    }
    value
}

impl Opcode {
    /// The instruction that `value` stands for.
    pub fn from(value: u64) -> (opcode: Opcode)
        requires
            value <= 7,
        ensures
            opcode == spec_opcode(value),
    {
        if value == 0 {
            Self::Adv
        } else if value == 1 {
            Self::Bxl
        } else if value == 2 {
            Self::Bst
        } else if value == 3 {
            Self::Jnz
        } else if value == 4 {
            Self::Bxc
        } else if value == 5 {
            Self::Out
        } else if value == 6 {
            Self::Bdv
        } else {
            Self::Cdv
        }
    }

    /// Carries out the instruction. The result is where to jump to, if the
    /// instruction jumps.
    pub fn run(&self, registers: &mut Registers, operand: Operand) -> (effect: Option<Effect>)
        requires
            reads_combo(*self) ==> operand.0 <= 6,
            jump_of(*self, operand.0, old(registers)@).is_some() ==> operand.0 <= usize::MAX,
        ensures
            final(registers)@ == registers_after(*self, operand.0, old(registers)@),
            effect == (match jump_of(*self, operand.0, old(registers)@) {
                Some(target) => Some(Effect::SetIp(target as usize)),
                None => None,
            }),
    {
        match self {
            Opcode::Adv => {
                // The numerator is the value in the A register. The denominator is found by
                // raising 2 to the power of the instruction's combo operand.
                registers.a = pow2(operand, registers);
            },
            Opcode::Bxl => {
                // The bitwise XOR of register B and the instruction's literal operand.
                registers.b = registers.b ^ operand.literal();
            },
            Opcode::Bst => {
                // The value of its combo operand modulo 8.
                registers.b = operand.combo(registers) % 8;
            },
            Opcode::Jnz => {
                // Does nothing if the A register is 0. Otherwise jumps to its literal operand.
                if registers.a != 0 {
                    let new_ip = operand.literal() as usize;
                    return Some(Effect::SetIp(new_ip));
                }
            },
            Opcode::Bxc => {
                // The bitwise XOR of register B and register C. The operand is ignored.
                registers.b = registers.b ^ registers.c;
            },
            Opcode::Out => {
                // Outputs the value of its combo operand modulo 8.
                let value = operand.combo(registers) % 8;
                registers.output.push(value);
            },
            Opcode::Bdv => {
                // Like adv, but the result is stored in the B register.
                registers.b = pow2(operand, registers);
            },
            Opcode::Cdv => {
                // Like adv, but the result is stored in the C register.
                registers.c = pow2(operand, registers);
            },
        }
        None
    }
}

/// Whether `output` is the start of `program`.
pub fn starts_with(program: &[u64], output: &Vec<u64>) -> (is_start: bool)
    ensures
        is_start == starts(program@, output@),
{
    if output.len() > program.len() {
        return false;
    }
    let mut i: usize = 0;
    while i < output.len()
        invariant
            output@.len() <= program@.len(),
            i <= output@.len(),
            forall|j: int| 0 <= j < i ==> #[trigger] output@[j] == program@[j],
        decreases output@.len() - i,
    {
        if output[i] != program[i] {
            return false;
        }
        i += 1;
    }
    true
}

/// Writes the numbers of `output` with a comma between them.
pub fn join(output: &Vec<u64>) -> (text: String)
    ensures
        text@ == joined(output@),
{
    let mut text = String::new();
    let mut i: usize = 0;
    while i < output.len()
        invariant
            i <= output@.len(),
            text@ == joined(output@.take(i as int)),
        decreases output@.len() - i,
    {
        proof {
            let next = output@.take(i + 1);
            assert(next.drop_last() == output@.take(i as int));
            assert(next.last() == output@[i as int]);
            if i == 0 {
                assert(next[0] == output@[0]);
            }
        }
        if i > 0 {
            string_push(&mut text, ',');
        }
        push_number(&mut text, output[i]);
        i += 1;
    }
    proof {
        assert(output@.take(output@.len() as int) == output@);
    }
    text
}

/// Runs the program for `max_steps` steps at most. The result is the output
/// when the program halts, nothing when `stop_early` is set and the output
/// stops being the start of the program, and `None` when the steps run out or
/// the program is at fault.
pub fn run(registers: Registers, program: &[u64], stop_early: bool, max_steps: usize) -> (text:
    Option<String>)
    ensures
        match execute(program@, registers@, 0, stop_early, max_steps as nat) {
            Outcome::Halted(output) => text.is_some() && text.unwrap()@ == joined(output),
            Outcome::Stopped => text.is_some() && text.unwrap()@ == Seq::<char>::empty(),
            Outcome::OutOfSteps => text.is_none(),
            Outcome::Fault => text.is_none(),
        },
{
    let ghost start = registers@;
    let mut regs = registers;
    // Run the program.
    let mut ip: usize = 0;
    let mut steps = max_steps;
    while ip < program.len()
        invariant
            start == registers@,
            execute(program@, regs@, ip as int, stop_early, steps as nat) == execute(
                program@,
                start,
                0,
                stop_early,
                max_steps as nat,
            ),
        decreases steps,
    {
        if steps == 0 {
            return None;
        }
        if ip + 1 >= program.len() || program[ip] > 7 {
            return None;
        }
        let opcode = Opcode::from(program[ip]);
        let operand = Operand::from(program[ip + 1]);
        if operand.0 > 6 && (program[ip] == 0 || program[ip] == 2 || program[ip] >= 5) {
            return None;
        }
        if program[ip] == 3 && regs.a != 0 && operand.0 > usize::MAX as u64 {
            return None;
        }
        match opcode.run(&mut regs, operand) {
            Some(Effect::SetIp(new_ip)) => ip = new_ip,
            None => ip += 2,
        }
        if stop_early && !starts_with(program, &regs.output) {
            return Some(String::new());
        }
        steps -= 1;
    }
    Some(join(&regs.output))
}

/// Whether the numbers of `text` describe a computer: the three registers,
/// then the program.
pub open spec fn is_listing(text: Seq<u8>) -> bool {
    &&& numbers_fit(text)
    &&& numbers_in(text).len() >= 3
    &&& forall|i: int| 0 <= i < numbers_in(text).len() ==> #[trigger] numbers_in(text)[i] >= 0
}

/// Reads the registers and the program: the numbers of the text, first the
/// registers A, B and C, then the program.
pub fn parse(input: &str) -> (parsed: Option<Input>)
    ensures
        match parsed {
            Some(computer) => {
                let numbers = numbers_in(input.spec_bytes());
                &&& is_listing(input.spec_bytes())
                &&& computer.registers.a == numbers[0]
                &&& computer.registers.b == numbers[1]
                &&& computer.registers.c == numbers[2]
                &&& computer.registers.output@.len() == 0
                &&& computer.program@.len() == numbers.len() - 3
                &&& forall|i: int|
                    0 <= i < computer.program@.len() ==> #[trigger] computer.program@[i]
                        == numbers[i + 3]
            },
            None => !is_listing(input.spec_bytes()),
        },
{
    let ghost text = input.spec_bytes();
    let numbers = match scan_numbers(input.as_bytes()) {
        Some(numbers) => numbers,
        None => {
            return None;
        },
    };
    if numbers.len() < 3 {
        return None;
    }
    let mut values: Vec<u64> = Vec::new();
    let mut i: usize = 0;
    while i < numbers.len()
        invariant
            text == input.spec_bytes(),
            numbers@.len() == numbers_in(text).len(),
            forall|j: int| 0 <= j < numbers@.len() ==> #[trigger] numbers@[j] == numbers_in(text)[j],
            i <= numbers@.len(),
            values@.len() == i,
            forall|j: int| 0 <= j < i ==> #[trigger] values@[j] == numbers_in(text)[j],
        decreases numbers@.len() - i,
    {
        let number = numbers[i];
        if number < 0 {
            proof {
                assert(numbers@[i as int] == numbers_in(text)[i as int]);
            }
            return None;
        }
        values.push(number as u64);
        i += 1;
    }
    let mut program: Vec<u64> = Vec::new();
    let mut k: usize = 3;
    while k < values.len()
        invariant
            3 <= k <= values@.len(),
            program@.len() == k - 3,
            forall|j: int| 0 <= j < program@.len() ==> #[trigger] program@[j] == values@[j + 3],
        decreases values@.len() - k,
    {
        program.push(values[k]);
        k += 1;
    }
    proof {
        assert forall|i: int| 0 <= i < numbers_in(text).len() implies #[trigger] numbers_in(
            text,
        )[i] >= 0 by {
            assert(values@[i] == numbers_in(text)[i]);
        }
        assert forall|i: int| 0 <= i < program@.len() implies #[trigger] program@[i] == numbers_in(
            text,
        )[i + 3] by {
            assert(values@[i + 3] == numbers_in(text)[i + 3]);
        }
    }
    Some(
        Input {
            registers: Registers { a: values[0], b: values[1], c: values[2], output: Vec::new() },
            program,
        },
    )
}

/// A run that is not to stop early does not stop early.
pub proof fn lemma_never_stopped(program: Seq<u64>, r: RegistersView, ip: int, steps: nat)
    ensures
        execute(program, r, ip, false, steps) != Outcome::Stopped,
    decreases steps,
{
    if 0 <= ip < program.len() && steps > 0 && ip + 1 < program.len() && program[ip] <= 7 {
        let opcode = spec_opcode(program[ip]);
        let op = program[ip + 1];
        let after = registers_after(opcode, op, r);
        match jump_of(opcode, op, r) {
            Some(target) => {
                lemma_never_stopped(program, after, target as int, (steps - 1) as nat);
            },
            None => {
                lemma_never_stopped(program, after, ip + 2, (steps - 1) as nat);
            },
        }
    }
}

/// The output of the program, or `None` when it does not halt within
/// `max_steps` steps.
pub fn q1(input: &Input, max_steps: usize) -> (text: Option<String>)
    ensures
        match execute(input.program@, input.registers@, 0, false, max_steps as nat) {
            Outcome::Halted(output) => text.is_some() && text.unwrap()@ == joined(output),
            _ => text.is_none(),
        },
{
    let registers = Registers {
        a: input.registers.a,
        b: input.registers.b,
        c: input.registers.c,
        output: input.registers.output.clone(),
    };
    proof {
        assert(registers@ =~= input.registers@);
        lemma_never_stopped(input.program@, input.registers@, 0, max_steps as nat);
    }
    run(registers, input.program.as_slice(), false, max_steps)
}

/// Whether the program, started with `a` in register A, puts out itself
/// within `max_steps` steps.
pub open spec fn reproduces(input: Input, a: u64, max_steps: nat) -> bool {
    execute(
        input.program@,
        RegistersView { a, ..input.registers@ },
        0,
        true,
        max_steps,
    ) == Outcome::Halted(input.program@)
}

/// Whether the program, started with `a` in register A, puts out itself.
pub fn puts_out_itself(input: &Input, a: u64, max_steps: usize) -> (same: bool)
    ensures
        same == reproduces(*input, a, max_steps as nat),
{
    let ghost r = RegistersView { a, ..input.registers@ };
    let mut registers = Registers {
        a,
        b: input.registers.b,
        c: input.registers.c,
        output: input.registers.output.clone(),
    };
    proof {
        assert(registers@ =~= r);
    }
    let program = input.program.as_slice();
    let mut ip: usize = 0;
    let mut steps = max_steps;
    while ip < program.len()
        invariant
            program@ == input.program@,
            r == (RegistersView { a, ..input.registers@ }),
            execute(program@, registers@, ip as int, true, steps as nat) == execute(
                program@,
                r,
                0,
                true,
                max_steps as nat,
            ),
        decreases steps,
    {
        if steps == 0 {
            return false;
        }
        if ip + 1 >= program.len() || program[ip] > 7 {
            return false;
        }
        let opcode = Opcode::from(program[ip]);
        let operand = Operand::from(program[ip + 1]);
        if operand.0 > 6 && (program[ip] == 0 || program[ip] == 2 || program[ip] >= 5) {
            return false;
        }
        if program[ip] == 3 && registers.a != 0 && operand.0 > usize::MAX as u64 {
            return false;
        }
        match opcode.run(&mut registers, operand) {
            Some(Effect::SetIp(new_ip)) => ip = new_ip,
            None => ip += 2,
        }
        if !starts_with(program, &registers.output) {
            return false;
        }
        steps -= 1;
    }
    let same = registers.output.len() == program.len() && starts_with(program, &registers.output);
    proof {
        if same {
            assert(registers.output@ =~= program@);
        }
    }
    same
}

/// The least value below `limit` for register A with which the program puts
/// out itself.
pub fn q2(input: &Input, limit: u64, max_steps: usize) -> (found: Option<u64>)
    ensures
        match found {
            Some(a) => a < limit && reproduces(*input, a, max_steps as nat) && forall|b: u64|
                b < a ==> !reproduces(*input, b, max_steps as nat),
            None => forall|b: u64| b < limit ==> !reproduces(*input, b, max_steps as nat),
        },
{
    let mut a: u64 = 0;
    while a < limit
        invariant
            a <= limit,
            forall|b: u64| b < a ==> !reproduces(*input, b, max_steps as nat),
        decreases limit - a,
    {
        if puts_out_itself(input, a, max_steps) {
            return Some(a);
        }
        a += 1;
    }
    None
}

} // verus!
