use vstd::prelude::*;
use vstd::string::*;
use crate::mul_instruction::{
    MulInstruction,
    closing_at,
    first_factor,
    mul_fault,
    second_factor,
};

verus! {

/// One instruction of the program text.
#[derive(Debug, PartialEq, Clone, Copy)]
pub enum Instruction {
    /// Multiply two numbers.
    Mul(MulInstruction),
    /// Switch multiplications on.
    Do,
    /// Switch multiplications off.
    Dont,
}

impl Instruction {
    /// Whether the instruction is a multiplication.
    pub fn is_mul(&self) -> (r: bool)
        ensures
            r == (*self is Mul),
    {
        match self {
            Self::Mul(_) => true,
            _ => false,
        }
    }

    /// The multiplication that the instruction holds.
    pub fn unwrap_mul(self) -> (mul: MulInstruction)
        requires
            self is Mul,
        ensures
            self == Instruction::Mul(mul),
    {
        match self {
            Self::Mul(mul) => mul,
            _ => unreached(),
        }
    }
}

/// Whether the text begins with `don't()`.
pub open spec fn starts_with_dont(s: Seq<char>) -> bool {
    s.len() >= 7 && s[0] == 'd' && s[1] == 'o' && s[2] == 'n' && s[3] == '\'' && s[4] == 't'
        && s[5] == '(' && s[6] == ')'
}

/// Whether the text begins with `do()`.
pub open spec fn starts_with_do(s: Seq<char>) -> bool {
    s.len() >= 4 && s[0] == 'd' && s[1] == 'o' && s[2] == '(' && s[3] == ')'
}

/// The part of the text that is looked at from place `pointer`: twelve
/// characters, or what is left where that is less.
pub open spec fn sample_at(s: Seq<char>, pointer: int) -> Seq<char> {
    if s.len() - pointer > 12 {
        s.subrange(pointer, pointer + 12)
    } else {
        s.subrange(pointer, s.len() as int)
    }
}

/// The instruction that the text holds at place `pointer`, if there is one,
/// and the number of characters to go on by.
pub open spec fn instruction_at(s: Seq<char>, pointer: int) -> (Option<Instruction>, int) {
    let sample = sample_at(s, pointer);
    if mul_fault(sample) is None {
        (
            Some(
                Instruction::Mul(
                    MulInstruction {
                        value_1: first_factor(sample) as u32,
                        value_2: second_factor(sample) as u32,
                    },
                ),
            ),
            closing_at(sample),
        )
    } else if starts_with_dont(sample) {
        (Some(Instruction::Dont), 7)
    } else if starts_with_do(sample) {
        (Some(Instruction::Do), 4)
    } else {
        (None, 1)
    }
}

/// The instructions that the text holds from place `pointer` on, in their
/// order. The text is read as long as more than eight characters are left.
pub open spec fn instructions_from(s: Seq<char>, pointer: int) -> Seq<Instruction>
    decreases s.len() - pointer,
{
    if pointer < 0 || s.len() - pointer <= 8 {
        Seq::empty()
    } else {
        let (found, step) = instruction_at(s, pointer);
        let rest = instructions_from(s, pointer + step);
        match found {
            Some(instruction) => seq![instruction] + rest,
            None => rest,
        }
    }
}

/// Whether `sample` begins with `don't()`.
fn is_dont(sample: &str) -> (r: bool)
    requires
        sample@.len() >= 8,
    ensures
        r == starts_with_dont(sample@),
{
    sample.get_char(0) == 'd' && sample.get_char(1) == 'o' && sample.get_char(2) == 'n'
        && sample.get_char(3) == '\'' && sample.get_char(4) == 't' && sample.get_char(5) == '('
        && sample.get_char(6) == ')'
}

/// Whether `sample` begins with `do()`.
fn is_do(sample: &str) -> (r: bool)
    requires
        sample@.len() >= 8,
    ensures
        r == starts_with_do(sample@),
{
    sample.get_char(0) == 'd' && sample.get_char(1) == 'o' && sample.get_char(2) == '('
        && sample.get_char(3) == ')'
}

/// Reads the instructions of a program text: every `mul(a,b)` with numbers
/// of one to three digits, every `do()` and every `don't()`, in their
/// order. Anything else is passed over.
pub fn load_instructions(data: &str) -> (instructions: Vec<Instruction>)
    requires
        data.is_ascii(),
    ensures
        instructions@ == instructions_from(data@, 0),
{
    let len = data.unicode_len();
    let mut pointer: usize = 0;
    let mut instructions: Vec<Instruction> = Vec::new();
    while len - pointer > 8
        invariant
            data.is_ascii(),
            len == data@.len(),
            pointer <= len,
            instructions@ + instructions_from(data@, pointer as int) == instructions_from(data@, 0),
        decreases len - pointer,
    {
        let size: usize = if len - pointer > 12 {
            12
        } else {
            len - pointer
        };
        let sample = data.substring_ascii(pointer, pointer + size);
        let ghost before = instructions@;
        let ghost rest = instructions_from(data@, pointer as int);
        let ghost (found, step) = instruction_at(data@, pointer as int);
        proof {
            assert(sample@ == sample_at(data@, pointer as int));
        }
        if let Ok((instruction, used_length)) = MulInstruction::new(sample) {
            instructions.push(Instruction::Mul(instruction));
            pointer += used_length;
        } else if is_dont(sample) {
            instructions.push(Instruction::Dont);
            pointer += 7;
        } else if is_do(sample) {
            instructions.push(Instruction::Do);
            pointer += 4;
        } else {
            pointer += 1;
        }
        proof {
            let after = instructions_from(data@, pointer as int);
            match found {
                Some(instruction) => {
                    assert(instructions@ == before.push(instruction));
                    assert(rest == seq![instruction] + after);
                    assert(before.push(instruction) + after =~= before + (seq![instruction]
                        + after));
                },
                None => {},
            }
        }
    }
    proof {
        assert(instructions_from(data@, pointer as int) =~= Seq::<Instruction>::empty());
        assert(instructions@ + Seq::<Instruction>::empty() =~= instructions@);
    }
    instructions
}

/// What an instruction adds to the sum of all products.
pub open spec fn product_of(instruction: Instruction) -> nat {
    match instruction {
        Instruction::Mul(mul) => mul.product(),
        _ => 0,
    }
}

/// The sum of the products of all multiplications.
pub open spec fn total(instructions: Seq<Instruction>) -> nat
    decreases instructions.len(),
{
    if instructions.len() == 0 {
        0
    } else {
        total(instructions.drop_last()) + product_of(instructions.last())
    }
}

/// Whether multiplications count after the instructions have been read:
/// they do at first, and then as the last `do()` or `don't()` says.
pub open spec fn enabled_after(instructions: Seq<Instruction>) -> bool
    decreases instructions.len(),
{
    if instructions.len() == 0 {
        true
    } else {
        match instructions.last() {
            Instruction::Do => true,
            Instruction::Dont => false,
            Instruction::Mul(_) => enabled_after(instructions.drop_last()),
        }
    }
}

/// The sum of the products of the multiplications that count.
pub open spec fn enabled_total(instructions: Seq<Instruction>) -> nat
    decreases instructions.len(),
{
    if instructions.len() == 0 {
        0
    } else if enabled_after(instructions.drop_last()) {
        enabled_total(instructions.drop_last()) + product_of(instructions.last())
    } else {
        enabled_total(instructions.drop_last())
    }
}

/// The sums over the first instructions are no more than the sums over all.
pub proof fn lemma_totals_grow(instructions: Seq<Instruction>, i: int)
    requires
        0 <= i <= instructions.len(),
    ensures
        total(instructions.subrange(0, i)) <= total(instructions),
        enabled_total(instructions.subrange(0, i)) <= enabled_total(instructions),
    decreases instructions.len() - i,
{
    if i < instructions.len() {
        lemma_totals_grow(instructions, i + 1);
        assert(instructions.subrange(0, i + 1).drop_last() =~= instructions.subrange(0, i));
    } else {
        assert(instructions.subrange(0, i) =~= instructions);
    }
}

/// The sum of the products of all multiplications.
pub fn part1(instructions: &Vec<Instruction>) -> (sum: u32)
    requires
        total(instructions@) <= u32::MAX,
    ensures
        sum == total(instructions@),
{
    let mut result: u32 = 0;
    let mut i: usize = 0;
    while i < instructions.len()
        invariant
            i <= instructions.len(),
            total(instructions@) <= u32::MAX,
            result == total(instructions@.subrange(0, i as int)),
        decreases instructions.len() - i,
    {
        proof {
            lemma_totals_grow(instructions@, i + 1);
            assert(instructions@.subrange(0, i + 1).drop_last() =~= instructions@.subrange(
                0,
                i as int,
            ));
        }
        if instructions[i].is_mul() {
            let mul = instructions[i].unwrap_mul();
            assert(mul.value_1 * mul.value_2 <= u32::MAX);
            result = result + mul.value_1 * mul.value_2;
        }
        i += 1;
    }
    proof {
        assert(instructions@.subrange(0, i as int) =~= instructions@);
    }
    result
}

/// The sum of the products of the multiplications that count: those not
/// switched off by a `don't()` before them with no `do()` in between.
pub fn part2(instructions: &Vec<Instruction>) -> (sum: u32)
    requires
        enabled_total(instructions@) <= u32::MAX,
    ensures
        sum == enabled_total(instructions@),
{
    let mut result: u32 = 0;
    let mut dont = false;
    let mut i: usize = 0;
    while i < instructions.len()
        invariant
            i <= instructions.len(),
            enabled_total(instructions@) <= u32::MAX,
            result == enabled_total(instructions@.subrange(0, i as int)),
            dont == !enabled_after(instructions@.subrange(0, i as int)),
        decreases instructions.len() - i,
    {
        proof {
            lemma_totals_grow(instructions@, i + 1);
            assert(instructions@.subrange(0, i + 1).drop_last() =~= instructions@.subrange(
                0,
                i as int,
            ));
        }
        match instructions[i] {
            Instruction::Do => {
                dont = false;
            },
            Instruction::Dont => {
                dont = true;
            },
            Instruction::Mul(mul) => {
                if !dont {
                    assert(mul.value_1 * mul.value_2 <= u32::MAX);
                    result = result + mul.value_1 * mul.value_2;
                }
            },
        }
        i += 1;
    }
    proof {
        assert(instructions@.subrange(0, i as int) =~= instructions@);
    }
    result
}

} // verus!
