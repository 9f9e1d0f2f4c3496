use vstd::prelude::*;
use crate::text::{
    ParseNumberError,
    chars_of,
    copy_range,
    find_pair,
    first_pair_at,
    lemma_trim_twice,
    parse_u128,
    split_whitespace,
    trim,
    trimmed,
    u128_of,
    u128s_of,
    words_of,
};
use crate::utilities::{CollectIntoResult, MapParse, collect_spec, digits, lemma_digits_of_u128};

verus! {

/// An equation to complete: the value wanted and the numbers to combine.
#[derive(Debug)]
pub struct Equation {
    pub result: u128,
    pub values: Vec<u128>,
}

/// Ten to the power `k`.
pub open spec fn pow10(k: nat) -> nat
    decreases k,
{
    if k == 0 {
        1
    } else {
        10 * pow10((k - 1) as nat)
    }
}

/// The number written as the digits of `a` followed by those of `b`.
pub open spec fn concat_spec(a: nat, b: nat) -> nat {
    a * pow10(digits(b)) + b
}

/// Whether the value wanted can be reached from the running value `n` by
/// joining each of the numbers from place `i` on with `+` or `*`, read from
/// left to right. A running value above the value wanted is given up.
pub open spec fn possible_p1(result: nat, values: Seq<u128>, n: nat, i: nat) -> bool
    decreases values.len() - i,
{
    if n > result {
        false
    } else if i >= values.len() {
        n == result
    } else {
        possible_p1(result, values, n + values[i as int] as nat, i + 1) || possible_p1(
            result,
            values,
            n * values[i as int] as nat,
            i + 1,
        )
    }
}

/// As `possible_p1`, with writing the next number behind the running value
/// as a third way to join them.
pub open spec fn possible_p2(result: nat, values: Seq<u128>, n: nat, i: nat) -> bool
    decreases values.len() - i,
{
    if n > result {
        false
    } else if i >= values.len() {
        n == result
    } else {
        possible_p2(result, values, n + values[i as int] as nat, i + 1) || possible_p2(
            result,
            values,
            n * values[i as int] as nat,
            i + 1,
        ) || possible_p2(result, values, concat_spec(n, values[i as int] as nat), i + 1)
    }
}

/// The number of decimal digits of `a`; none for zero.
pub fn count_digits(a: u128) -> (result: u32)
    ensures
        result == digits(a as nat),
{
    let mut a = a;
    let ghost start = a;
    let mut result: u32 = 0;
    proof {
        lemma_digits_of_u128(a);
    }
    while a != 0
        invariant
            result + digits(a as nat) == digits(start as nat),
            digits(start as nat) <= 39,
        decreases a,
    {
        result += 1;
        a /= 10;
    }
    result
}

/// Ten to the power `k`, where it fits.
pub fn checked_pow10(k: u32) -> (r: Option<u128>)
    ensures
        match r {
            Some(p) => p == pow10(k as nat),
            None => pow10(k as nat) > u128::MAX,
        },
{
    let mut p: u128 = 1;
    let mut i: u32 = 0;
    while i < k
        invariant
            i <= k,
            p == pow10(i as nat),
        decreases k - i,
    {
        match p.checked_mul(10) {
            Some(next) => {
                p = next;
            },
            None => {
                proof {
                    lemma_pow10_grows((i + 1) as nat, k as nat);
                }
                return None;
            },
        }
        i += 1;
    }
    Some(p)
}

/// A higher power of ten is no smaller.
pub proof fn lemma_pow10_grows(a: nat, b: nat)
    requires
        a <= b,
    ensures
        pow10(a) <= pow10(b),
        pow10(a) >= 1,
    decreases b,
{
    if a < b {
        lemma_pow10_grows(a, (b - 1) as nat);
    } else if a > 0 {
        lemma_pow10_grows((a - 1) as nat, (a - 1) as nat);
    }
}

/// The number written as the digits of `a` followed by those of `b`, where
/// it fits.
pub fn checked_concat(a: u128, b: u128) -> (r: Option<u128>)
    ensures
        match r {
            Some(c) => c == concat_spec(a as nat, b as nat),
            None => concat_spec(a as nat, b as nat) > u128::MAX,
        },
{
    let shift = match checked_pow10(count_digits(b)) {
        Some(p) => p,
        None => {
            if a == 0 {
                return Some(b);
            }
            proof {
                let p = pow10(digits(b as nat));
                assert(a * p >= p) by (nonlinear_arith)
                    requires
                        a >= 1,
                        p >= 0,
                ;
            }
            return None;
        },
    };
    let shifted = match a.checked_mul(shift) {
        Some(s) => s,
        None => {
            return None;
        },
    };
    shifted.checked_add(b)
}

/// The number written as the digits of `a` followed by those of `b`.
pub fn concat(a: u128, b: u128) -> (r: u128)
    requires
        concat_spec(a as nat, b as nat) <= u128::MAX,
    ensures
        r == concat_spec(a as nat, b as nat),
{
    match checked_concat(a, b) {
        Some(c) => c,
        None => unreached(),
    }
}

/// Whether the text, white space at its ends left aside, can be read as an
/// equation: it holds a colon with a blank behind it, or it is no number at
/// all.
pub open spec fn readable(s: Seq<char>) -> bool {
    let t = trimmed(s);
    first_pair_at(t, 0, ':', ' ') < t.len() || u128_of(t) is Err
}

/// The value wanted that the text shows: what stands before the first
/// colon with a blank behind it, white space left aside.
pub open spec fn wanted_of(s: Seq<char>) -> Result<u128, ParseNumberError> {
    let t = trimmed(s);
    u128_of(trimmed(t.subrange(0, first_pair_at(t, 0, ':', ' '))))
}

/// The numbers to combine that the text shows: the words behind the first
/// colon with a blank behind it, up to the next one.
pub open spec fn values_of(s: Seq<char>) -> Result<Seq<u128>, ParseNumberError> {
    let t = trimmed(s);
    let from = first_pair_at(t, 0, ':', ' ') + 2;
    collect_spec(u128s_of(words_of(t.subrange(from, first_pair_at(t, from, ':', ' ')))))
}

impl Equation {
    /// Reads an equation from a text such as `190: 10 19`. Of what is wrong
    /// with the value wanted and what is wrong with the numbers behind it,
    /// the first is the error.
    pub fn from_text(s: &str) -> (r: Result<Self, ParseNumberError>)
        requires
            readable(s@),
        ensures
            match r {
                Ok(equation) => wanted_of(s@) == Ok::<u128, ParseNumberError>(equation.result)
                    && values_of(s@) == Ok::<Seq<u128>, ParseNumberError>(equation.values@),
                Err(e) => wanted_of(s@) == Err::<u128, ParseNumberError>(e) || (wanted_of(s@) is Ok
                    && values_of(s@) == Err::<Seq<u128>, ParseNumberError>(e)),
            },
    {
        let t = trim(&chars_of(s));
        let at = find_pair(&t, 0, ':', ' ');
        let head = trim(&copy_range(&t, 0, at));
        let result = match parse_u128(&head) {
            Ok(result) => result,
            Err(e) => {
                return Err(e);
            },
        };
        if at >= t.len() {
            proof {
                assert(t@.subrange(0, at as int) =~= t@);
                lemma_trim_twice(s@);
            }
            unreached()
        } else {
            let next = find_pair(&t, at + 2, ':', ' ');
            let words = split_whitespace(&copy_range(&t, at + 2, next));
            let results = MapParse::<u128>::parse(words);
            proof {
                assert(results@ =~= u128s_of(words_of(t@.subrange(at + 2, next as int))));
            }
            match results.collect_result() {
                Ok(values) => Ok(Self::new(result, values)),
                Err(e) => Err(e),
            }
        }
    }

    /// The equation that wants `result` from `values`.
    pub fn new(result: u128, values: Vec<u128>) -> (r: Self)
        ensures
            r.result == result,
            r.values == values,
    {
        Self { result, values }
    }

    /// Whether the value wanted can be made of the numbers with `+` and `*`.
    pub fn is_possible_p1(&self) -> (r: bool)
        requires
            self.values@.len() > 0,
        ensures
            r == possible_p1(self.result as nat, self.values@, self.values@[0] as nat, 1),
    {
        self.test_is_possible_p1(self.values[0], 1)
    }

    /// Whether the value wanted can be made of the numbers with `+`, `*`
    /// and writing one number behind the other.
    pub fn is_possible_p2(&self) -> (r: bool)
        requires
            self.values@.len() > 0,
        ensures
            r == possible_p2(self.result as nat, self.values@, self.values@[0] as nat, 1),
    {
        self.test_is_possible_p2(self.values[0], 1)
    }

    /// Whether the value wanted can be reached from the running value `n`
    /// with the numbers from place `i` on.
    pub fn test_is_possible_p1(&self, n: u128, i: usize) -> (r: bool)
        ensures
            r == possible_p1(self.result as nat, self.values@, n as nat, i as nat),
        decreases self.values@.len() - i,
    {
        if n > self.result {
            return false;
        }
        if i >= self.values.len() {
            return n == self.result;
        }
        let v = self.values[i];
        let ghost wanted = self.result as nat;
        proof {
            assert(n + v > wanted ==> !possible_p1(wanted, self.values@, (n + v) as nat, (i + 1) as nat));
            assert(n * v > wanted ==> !possible_p1(wanted, self.values@, (n * v) as nat, (i + 1) as nat));
        }
        let by_sum = match n.checked_add(v) {
            Some(sum) => self.test_is_possible_p1(sum, i + 1),
            None => false,
        };
        if by_sum {
            return true;
        }
        match n.checked_mul(v) {
            Some(product) => self.test_is_possible_p1(product, i + 1),
            None => false,
        }
    }

    /// Whether the value wanted can be reached from the running value `n`
    /// with the numbers from place `i` on, writing one number behind the
    /// other included.
    pub fn test_is_possible_p2(&self, n: u128, i: usize) -> (r: bool)
        ensures
            r == possible_p2(self.result as nat, self.values@, n as nat, i as nat),
        decreases self.values@.len() - i,
    {
        if n > self.result {
            return false;
        }
        if i >= self.values.len() {
            return n == self.result;
        }
        let v = self.values[i];
        let ghost wanted = self.result as nat;
        proof {
            assert(n + v > wanted ==> !possible_p2(wanted, self.values@, (n + v) as nat, (i + 1) as nat));
            assert(n * v > wanted ==> !possible_p2(wanted, self.values@, (n * v) as nat, (i + 1) as nat));
        }
        let by_sum = match n.checked_add(v) {
            Some(sum) => self.test_is_possible_p2(sum, i + 1),
            None => false,
        };
        if by_sum {
            return true;
        }
        let by_product = match n.checked_mul(v) {
            Some(product) => self.test_is_possible_p2(product, i + 1),
            None => false,
        };
        if by_product {
            return true;
        }
        proof {
            let joined = concat_spec(n as nat, v as nat);
            assert(joined > wanted ==> !possible_p2(wanted, self.values@, joined, (i + 1) as nat));
        }
        match checked_concat(n, v) {
            Some(joined) => self.test_is_possible_p2(joined, i + 1),
            None => false,
        }
    }
}

/// The test for an equation that can be completed with `+` and `*`.
pub open spec fn solvable_p1() -> spec_fn(Equation) -> bool {
    |e: Equation|
        e.values@.len() > 0 && possible_p1(e.result as nat, e.values@, e.values@[0] as nat, 1)
}

/// The test for an equation that can be completed with `+`, `*` and
/// writing one number behind the other.
pub open spec fn solvable_p2() -> spec_fn(Equation) -> bool {
    |e: Equation|
        e.values@.len() > 0 && possible_p2(e.result as nat, e.values@, e.values@[0] as nat, 1)
}

/// The sum of the values wanted by the equations for which `wanted` holds.
pub open spec fn sum_of_results(equations: Seq<Equation>, wanted: spec_fn(Equation) -> bool) -> nat
    decreases equations.len(),
{
    if equations.len() == 0 {
        0
    } else {
        sum_of_results(equations.drop_last(), wanted) + if wanted(equations.last()) {
            equations.last().result as nat
        } else {
            0nat
        }
    }
}

/// The sum over the first equations is no more than the sum over all.
pub proof fn lemma_sum_of_results_grows(
    equations: Seq<Equation>,
    wanted: spec_fn(Equation) -> bool,
    i: int,
)
    requires
        0 <= i <= equations.len(),
    ensures
        sum_of_results(equations.subrange(0, i), wanted) <= sum_of_results(equations, wanted),
    decreases equations.len() - i,
{
    if i < equations.len() {
        lemma_sum_of_results_grows(equations, wanted, i + 1);
        assert(equations.subrange(0, i + 1).drop_last() =~= equations.subrange(0, i));
    } else {
        assert(equations.subrange(0, i) =~= equations);
    }
}

/// The sum of the values wanted by the equations that can be completed
/// with `+` and `*`.
pub fn part1(data: &Vec<Equation>) -> (sum: u128)
    requires
        forall|i: int| 0 <= i < data@.len() ==> (#[trigger] data@[i]).values@.len() > 0,
        sum_of_results(data@, solvable_p1()) <= u128::MAX,
    ensures
        sum == sum_of_results(data@, solvable_p1()),
{
    let ghost wanted = solvable_p1();
    let mut sum: u128 = 0;
    let mut i: usize = 0;
    while i < data.len()
        invariant
            i <= data.len(),
            wanted == solvable_p1(),
            forall|j: int| 0 <= j < data@.len() ==> (#[trigger] data@[j]).values@.len() > 0,
            sum_of_results(data@, wanted) <= u128::MAX,
            sum == sum_of_results(data@.subrange(0, i as int), wanted),
        decreases data.len() - i,
    {
        proof {
            lemma_sum_of_results_grows(data@, wanted, i + 1);
            assert(data@.subrange(0, i + 1).drop_last() =~= data@.subrange(0, i as int));
        }
        if data[i].is_possible_p1() {
            sum = sum + data[i].result;
        }
        i += 1;
    }
    proof {
        assert(data@.subrange(0, i as int) =~= data@);
    }
    sum
}

/// The sum of the values wanted by the equations that can be completed
/// with `+`, `*` and writing one number behind the other.
pub fn part2(data: &Vec<Equation>) -> (sum: u128)
    requires
        forall|i: int| 0 <= i < data@.len() ==> (#[trigger] data@[i]).values@.len() > 0,
        sum_of_results(data@, solvable_p2()) <= u128::MAX,
    ensures
        sum == sum_of_results(data@, solvable_p2()),
{
    let ghost wanted = solvable_p2();
    let mut sum: u128 = 0;
    let mut i: usize = 0;
    while i < data.len()
        invariant
            i <= data.len(),
            wanted == solvable_p2(),
            forall|j: int| 0 <= j < data@.len() ==> (#[trigger] data@[j]).values@.len() > 0,
            sum_of_results(data@, wanted) <= u128::MAX,
            sum == sum_of_results(data@.subrange(0, i as int), wanted),
        decreases data.len() - i,
    {
        proof {
            lemma_sum_of_results_grows(data@, wanted, i + 1);
            assert(data@.subrange(0, i + 1).drop_last() =~= data@.subrange(0, i as int));
        }
        if data[i].is_possible_p2() {
            sum = sum + data[i].result;
        }
        i += 1;
    }
    proof {
        assert(data@.subrange(0, i as int) =~= data@);
    }
    sum
}

} // verus!
