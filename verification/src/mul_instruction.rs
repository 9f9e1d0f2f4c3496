use vstd::prelude::*;
use vstd::string::*;
use crate::num_wrapper::NumWrapper;

verus! {

/// A multiplication read from text: its two factors.
#[derive(Debug, PartialEq, Clone, Copy)]
pub struct MulInstruction {
    pub value_1: u32,
    pub value_2: u32,
}

/// Why a text does not start with a multiplication.
#[derive(Debug, PartialEq, Eq, Structural, Clone, Copy)]
pub enum MulFault {
    /// The text does not start with `mul(`.
    NoPrefix,
    /// No digit follows `mul(`.
    NoFirstValue,
    /// No comma follows the first number.
    NoComma,
    /// The text ends inside the second number.
    Truncated,
    /// No digit follows the comma.
    NoSecondValue,
    /// No closing bracket follows the second number.
    NoClosing,
}

/// Whether `c` is one of the ten decimal digits.
pub open spec fn is_digit(c: char) -> bool {
    '0' <= c <= '9'
}

/// Whether a digit stands at place `at` of `s`.
pub open spec fn digit_at(s: Seq<char>, at: int) -> bool {
    0 <= at < s.len() && is_digit(s[at])
}

/// The number of digits in a row from place `from` of `s`, three at most.
pub open spec fn digit_run(s: Seq<char>, from: int) -> int {
    if !digit_at(s, from) {
        0
    } else if !digit_at(s, from + 1) {
        1
    } else if !digit_at(s, from + 2) {
        2
    } else {
        3
    }
}

/// The number that a row of digits spells in base ten.
pub open spec fn digits_value(s: Seq<char>) -> nat
    decreases s.len(),
{
    if s.len() == 0 {
        0
    } else {
        (digits_value(s.drop_last()) * 10 + (s.last() as u32 - '0' as u32)) as nat
    }
}

/// Whether the text begins with `mul(`.
pub open spec fn has_prefix(s: Seq<char>) -> bool {
    s.len() >= 4 && s[0] == 'm' && s[1] == 'u' && s[2] == 'l' && s[3] == '('
}

/// What keeps the text, of eight to twelve characters, from starting with
/// `mul(a,b)`, where `a` and `b` have one to three digits; `None` where
/// nothing does.
pub open spec fn mul_fault(s: Seq<char>) -> Option<MulFault> {
    let first = digit_run(s, 4);
    let second_at = 5 + first;
    let second = digit_run(s, second_at);
    if !has_prefix(s) {
        Some(MulFault::NoPrefix)
    } else if first == 0 {
        Some(MulFault::NoFirstValue)
    } else if !(4 + first < s.len() && s[4 + first] == ',') {
        Some(MulFault::NoComma)
    } else if second < 3 && second_at + second >= s.len() {
        Some(MulFault::Truncated)
    } else if second == 0 {
        Some(MulFault::NoSecondValue)
    } else if !(second_at + second < s.len() && s[second_at + second] == ')') {
        Some(MulFault::NoClosing)
    } else {
        None
    }
}

/// The first factor of a text that starts with a multiplication.
pub open spec fn first_factor(s: Seq<char>) -> nat {
    digits_value(s.subrange(4, 4 + digit_run(s, 4)))
}

/// The second factor of a text that starts with a multiplication.
pub open spec fn second_factor(s: Seq<char>) -> nat {
    let at = 5 + digit_run(s, 4);
    digits_value(s.subrange(at, at + digit_run(s, at)))
}

/// The place of the closing bracket in a text that starts with a
/// multiplication.
pub open spec fn closing_at(s: Seq<char>) -> int {
    let at = 5 + digit_run(s, 4);
    at + digit_run(s, at)
}

/// The words that tell of a fault.
pub open spec fn fault_message(fault: MulFault) -> &'static str {
    match fault {
        MulFault::NoPrefix => "The string does not start with a mul(",
        MulFault::NoFirstValue => "v_1_counter is 0 so no value was read",
        MulFault::NoComma => "Expected an , after value_1",
        MulFault::Truncated => "Could not get a char from the string for value 1",
        MulFault::NoSecondValue => "v_2_counter is 0 so no value was read",
        MulFault::NoClosing => "The chain does not end with a )",
    }
}

/// A row of up to three digits spells a number below a thousand.
pub proof fn lemma_digits_value_small(s: Seq<char>)
    requires
        s.len() <= 3,
        forall|i: int| 0 <= i < s.len() ==> is_digit(#[trigger] s[i]),
    ensures
        s.len() == 0 ==> digits_value(s) == 0,
        s.len() == 1 ==> digits_value(s) < 10,
        s.len() == 2 ==> digits_value(s) < 100,
        digits_value(s) < 1000,
    decreases s.len(),
{
    if s.len() > 0 {
        lemma_digits_value_small(s.drop_last());
    }
}

/// Reads the digits in a row from place `offset` of `data`, three at most.
/// Returns the number they spell, how many they are, and whether the text
/// ended before three were read.
fn read_number(data: &str, offset: usize) -> (r: (u32, usize, bool))
    requires
        offset <= data@.len() <= 12,
    ensures
        r.1 == digit_run(data@, offset as int),
        r.0 == digits_value(data@.subrange(offset as int, offset + r.1)),
        r.0 < 1000,
        r.2 == (r.1 < 3 && offset + r.1 >= data@.len()),
{
    let len = data.unicode_len();
    let mut value: u32 = 0;
    let mut counter: usize = 0;
    let mut truncated = false;
    let mut done = false;
    proof {
        assert(data@.subrange(offset as int, offset as int) =~= Seq::<char>::empty());
    }
    while counter < 3 && !done
        invariant
            counter <= 3,
            offset <= data@.len() <= 12,
            offset + counter <= len,
            len == data@.len(),
            forall|j: int| offset <= j < offset + counter ==> digit_at(data@, j),
            value == digits_value(data@.subrange(offset as int, offset + counter)),
            value < 1000,
            counter == 0 ==> value == 0,
            counter == 1 ==> value < 10,
            counter == 2 ==> value < 100,
            done ==> counter < 3 && !digit_at(data@, offset + counter),
            truncated == (done && offset + counter >= len),
        decreases 3 - counter + (if done { 0int } else { 1int }),
    {
        if offset + counter >= len {
            truncated = true;
            done = true;
        } else {
            let next_char = data.get_char(offset + counter);
            if !(next_char >= '0' && next_char <= '9') {
                done = true;
            } else {
                proof {
                    let before = data@.subrange(offset as int, offset + counter);
                    let after = data@.subrange(offset as int, offset + counter + 1);
                    assert(after.drop_last() =~= before);
                    assert(after.last() == next_char);
                    assert forall|i: int| 0 <= i < after.len() implies is_digit(
                        #[trigger] after[i],
                    ) by {
                        assert(digit_at(data@, offset + i));
                    }
                    lemma_digits_value_small(after);
                }
                value = value * 10;
                value = value + (next_char as u32 - '0' as u32);
                counter += 1;
            }
        }
    }
    (value, counter, truncated)
}

impl MulInstruction {
    /// Reads a multiplication `mul(a,b)` from the start of `data`, where `a`
    /// and `b` are numbers of one to three digits. Returns it with the place
    /// of the closing bracket, or the words for what is wrong with the text.
    pub fn new(data: &str) -> (r: Result<(Self, usize), &'static str>)
        requires
            data.is_ascii(),
            8 <= data@.len() <= 12,
        ensures
            match r {
                Ok((mul, used)) => {
                    &&& mul_fault(data@) is None
                    &&& mul.value_1 == first_factor(data@)
                    &&& mul.value_2 == second_factor(data@)
                    &&& used == closing_at(data@)
                },
                Err(e) => mul_fault(data@) is Some && e == fault_message(mul_fault(data@)->Some_0),
            },
    {
        if !(data.get_char(0) == 'm' && data.get_char(1) == 'u' && data.get_char(2) == 'l'
            && data.get_char(3) == '(') {
            return Err("The string does not start with a mul(");
        }
        let v_1_offset: usize = 4;
        let (value_1, v_1_counter, _) = read_number(data, v_1_offset);
        if v_1_counter == 0 {
            return Err("v_1_counter is 0 so no value was read");
        }
        if data.get_char(v_1_offset + v_1_counter) != ',' {
            return Err("Expected an , after value_1");
        }
        let v_2_offset: usize = v_1_offset + v_1_counter + 1;
        let (value_2, v_2_counter, truncated) = read_number(data, v_2_offset);
        if truncated {
            return Err("Could not get a char from the string for value 1");
        }
        if v_2_counter == 0 {
            return Err("v_2_counter is 0 so no value was read");
        }
        if v_2_offset + v_2_counter >= data.unicode_len() || data.get_char(v_2_offset + v_2_counter)
            != ')' {
            return Err("The chain does not end with a )");
        }
        Ok((Self { value_1, value_2 }, v_2_offset + v_2_counter))
    }

    /// The product of the two factors.
    pub open spec fn product(self) -> nat {
        (self.value_1 * self.value_2) as nat
    }
}

impl NumWrapper<u32> {
    /// Adds the product of the factors of `rhs` to the number in place.
    pub fn add_assign_mul(&mut self, rhs: MulInstruction)
        requires
            old(self)@ + rhs.product() <= u32::MAX,
        ensures
            final(self)@ == old(self)@ + rhs.product(),
    {
        assert(rhs.value_1 * rhs.value_2 <= u32::MAX);
        self.add_assign(rhs.value_1 * rhs.value_2);
    }
}

} // verus!
