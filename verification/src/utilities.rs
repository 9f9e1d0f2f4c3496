use vstd::prelude::*;
use vstd::std_specs::cmp::PartialEqSpec;
use crate::text::{
    ParseNumberError,
    chars_of,
    lines_of,
    parse_u128,
    parse_u32,
    parse_u64,
    trimmed,
    trimmed_lines,
    u128_of,
    u32_of,
    u64_of,
    views,
};

verus! {

/// The list `s` with the item at `from` taken out and put back at `to`;
/// `s` itself unless both are places of `s` and differ.
pub open spec fn moved<T>(s: Seq<T>, from: usize, to: usize) -> Seq<T> {
    if from < s.len() && to < s.len() && from != to {
        s.remove(from as int).insert(to as int, s[from as int])
    } else {
        s
    }
}

/// Moving one item of a list to another place.
pub trait MoveElement {
    /// What `move_element` makes of `before`.
    spec fn move_element_spec(before: &Self, after: &Self, from: usize, to: usize) -> bool;

    /// Moves the item at `from` to `to`; the items between shift by one.
    fn move_element(&mut self, from: usize, to: usize)
        ensures
            Self::move_element_spec(old(self), final(self), from, to),
    ;
}

impl<T> MoveElement for Vec<T> {
    open spec fn move_element_spec(before: &Self, after: &Self, from: usize, to: usize) -> bool {
        after@ == moved(before@, from, to)
    }

    fn move_element(&mut self, from: usize, to: usize) {
        if from < self.len() && to < self.len() && from != to {
            let item = self.remove(from);
            self.insert(to, item);
        }
    }
}

/// The number of items of `s` for which `wanted` holds.
pub open spec fn count_matching<T>(s: Seq<T>, wanted: spec_fn(T) -> bool) -> nat
    decreases s.len(),
{
    if s.len() == 0 {
        0
    } else {
        count_matching(s.drop_last(), wanted) + if wanted(s.last()) {
            1nat
        } else {
            0nat
        }
    }
}

/// No more items match than there are.
pub proof fn lemma_count_matching_bounded<T>(s: Seq<T>, wanted: spec_fn(T) -> bool)
    ensures
        count_matching(s, wanted) <= s.len(),
    decreases s.len(),
{
    if s.len() > 0 {
        lemma_count_matching_bounded(s.drop_last(), wanted);
    }
}

/// Telling even numbers from odd ones.
pub trait IsEven {
    /// Whether the number is a multiple of two.
    spec fn is_even_spec(&self) -> bool;

    /// Whether the number is a multiple of two.
    fn is_even(&self) -> (r: bool)
        ensures
            r == self.is_even_spec(),
    ;
}

impl IsEven for u32 {
    open spec fn is_even_spec(&self) -> bool {
        *self % 2 == 0
    }

    fn is_even(&self) -> (r: bool) {
        let x = *self;
        assert((x & 1 == 0) == (x % 2 == 0)) by (bit_vector);
        x & 1 == 0
    }
}

impl IsEven for u8 {
    open spec fn is_even_spec(&self) -> bool {
        *self % 2 == 0
    }

    fn is_even(&self) -> (r: bool) {
        let x = *self;
        assert((x & 1 == 0) == (x % 2 == 0)) by (bit_vector);
        x & 1 == 0
    }
}

impl IsEven for u16 {
    open spec fn is_even_spec(&self) -> bool {
        *self % 2 == 0
    }

    fn is_even(&self) -> (r: bool) {
        let x = *self;
        assert((x & 1 == 0) == (x % 2 == 0)) by (bit_vector);
        x & 1 == 0
    }
}

impl IsEven for u64 {
    open spec fn is_even_spec(&self) -> bool {
        *self % 2 == 0
    }

    fn is_even(&self) -> (r: bool) {
        let x = *self;
        assert((x & 1 == 0) == (x % 2 == 0)) by (bit_vector);
        x & 1 == 0
    }
}

impl IsEven for u128 {
    open spec fn is_even_spec(&self) -> bool {
        *self % 2 == 0
    }

    fn is_even(&self) -> (r: bool) {
        let x = *self;
        assert((x & 1 == 0) == (x % 2 == 0)) by (bit_vector);
        x & 1 == 0
    }
}

impl IsEven for usize {
    open spec fn is_even_spec(&self) -> bool {
        *self % 2 == 0
    }

    fn is_even(&self) -> (r: bool) {
        let x = *self;
        assert((x & 1 == 0) == (x % 2 == 0)) by (bit_vector);
        x & 1 == 0
    }
}

/// Counting up, handing out the number before.
pub trait IncrementAfter: Sized {
    /// Whether there is a next number.
    spec fn can_increment(&self) -> bool;

    /// Whether `after` is the number that follows `before`.
    spec fn follows(before: &Self, after: &Self) -> bool;

    /// Makes the number one greater and returns what it was.
    fn increment_after(&mut self) -> (r: Self)
        requires
            old(self).can_increment(),
        ensures
            r == *old(self),
            Self::follows(old(self), final(self)),
    ;
}

impl IncrementAfter for usize {
    open spec fn can_increment(&self) -> bool {
        *self < usize::MAX
    }

    open spec fn follows(before: &Self, after: &Self) -> bool {
        *after == *before + 1
    }

    fn increment_after(&mut self) -> (r: Self) {
        let temp = *self;
        *self = *self + 1;
        temp
    }
}

impl IncrementAfter for u8 {
    open spec fn can_increment(&self) -> bool {
        *self < u8::MAX
    }

    open spec fn follows(before: &Self, after: &Self) -> bool {
        *after == *before + 1
    }

    fn increment_after(&mut self) -> (r: Self) {
        let temp = *self;
        *self = *self + 1;
        temp
    }
}

impl IncrementAfter for u16 {
    open spec fn can_increment(&self) -> bool {
        *self < u16::MAX
    }

    open spec fn follows(before: &Self, after: &Self) -> bool {
        *after == *before + 1
    }

    fn increment_after(&mut self) -> (r: Self) {
        let temp = *self;
        *self = *self + 1;
        temp
    }
}

impl IncrementAfter for u32 {
    open spec fn can_increment(&self) -> bool {
        *self < u32::MAX
    }

    open spec fn follows(before: &Self, after: &Self) -> bool {
        *after == *before + 1
    }

    fn increment_after(&mut self) -> (r: Self) {
        let temp = *self;
        *self = *self + 1;
        temp
    }
}

impl IncrementAfter for u64 {
    open spec fn can_increment(&self) -> bool {
        *self < u64::MAX
    }

    open spec fn follows(before: &Self, after: &Self) -> bool {
        *after == *before + 1
    }

    fn increment_after(&mut self) -> (r: Self) {
        let temp = *self;
        *self = *self + 1;
        temp
    }
}

impl IncrementAfter for u128 {
    open spec fn can_increment(&self) -> bool {
        *self < u128::MAX
    }

    open spec fn follows(before: &Self, after: &Self) -> bool {
        *after == *before + 1
    }

    fn increment_after(&mut self) -> (r: Self) {
        let temp = *self;
        *self = *self + 1;
        temp
    }
}

/// The number of decimal digits of `n`; none for zero.
pub open spec fn digits(n: nat) -> nat
    decreases n,
{
    if n == 0 {
        0
    } else {
        1 + digits(n / 10)
    }
}

/// Counting the decimal digits of a number.
pub trait DigitCount {
    /// The number as a natural number.
    spec fn magnitude(&self) -> nat;

    /// The number of decimal digits; none for zero.
    fn digit_count(&self) -> (r: usize)
        ensures
            r == digits(self.magnitude()),
    ;
}

impl DigitCount for u64 {
    open spec fn magnitude(&self) -> nat {
        *self as nat
    }

    fn digit_count(&self) -> (r: usize) {
        let mut count: usize = 0;
        let mut data = *self;
        proof {
            lemma_digits_of_u64(*self);
        }
        while data != 0
            invariant
                count + digits(data as nat) == digits(*self as nat),
                digits(*self as nat) <= 20,
            decreases data,
        {
            count += 1;
            data /= 10;
        }
        count
    }
}

impl DigitCount for u8 {
    open spec fn magnitude(&self) -> nat {
        *self as nat
    }

    fn digit_count(&self) -> (r: usize) {
        let mut count: usize = 0;
        let mut data = *self;
        proof {
            lemma_digits_of_u64(*self as u64);
        }
        while data != 0
            invariant
                count + digits(data as nat) == digits(*self as nat),
                digits(*self as nat) <= 20,
            decreases data,
        {
            count += 1;
            data /= 10;
        }
        count
    }
}

impl DigitCount for u16 {
    open spec fn magnitude(&self) -> nat {
        *self as nat
    }

    fn digit_count(&self) -> (r: usize) {
        let mut count: usize = 0;
        let mut data = *self;
        proof {
            lemma_digits_of_u64(*self as u64);
        }
        while data != 0
            invariant
                count + digits(data as nat) == digits(*self as nat),
                digits(*self as nat) <= 20,
            decreases data,
        {
            count += 1;
            data /= 10;
        }
        count
    }
}

impl DigitCount for u32 {
    open spec fn magnitude(&self) -> nat {
        *self as nat
    }

    fn digit_count(&self) -> (r: usize) {
        let mut count: usize = 0;
        let mut data = *self;
        proof {
            lemma_digits_of_u64(*self as u64);
        }
        while data != 0
            invariant
                count + digits(data as nat) == digits(*self as nat),
                digits(*self as nat) <= 20,
            decreases data,
        {
            count += 1;
            data /= 10;
        }
        count
    }
}

impl DigitCount for usize {
    open spec fn magnitude(&self) -> nat {
        *self as nat
    }

    fn digit_count(&self) -> (r: usize) {
        let mut count: usize = 0;
        let mut data = *self;
        proof {
            lemma_digits_of_u64(*self as u64);
        }
        while data != 0
            invariant
                count + digits(data as nat) == digits(*self as nat),
                digits(*self as nat) <= 20,
            decreases data,
        {
            count += 1;
            data /= 10;
        }
        count
    }
}

impl DigitCount for u128 {
    open spec fn magnitude(&self) -> nat {
        *self as nat
    }

    fn digit_count(&self) -> (r: usize) {
        let mut count: usize = 0;
        let mut data = *self;
        proof {
            lemma_digits_of_u128(*self as u128);
        }
        while data != 0
            invariant
                count + digits(data as nat) == digits(*self as nat),
                digits(*self as nat) <= 39,
            decreases data,
        {
            count += 1;
            data /= 10;
        }
        count
    }
}

/// A smaller number has no more digits.
pub proof fn lemma_digits_monotone(a: nat, b: nat)
    requires
        a <= b,
    ensures
        digits(a) <= digits(b),
    decreases b,
{
    if a > 0 {
        lemma_digits_monotone(a / 10, b / 10);
    }
}

/// A number of 64 bits has at most twenty digits.
pub proof fn lemma_digits_of_u64(n: u64)
    ensures
        digits(n as nat) <= 20,
{
    lemma_digits_monotone(n as nat, 18446744073709551615);
    assert(digits(18446744073709551615) == 20) by {
        reveal_with_fuel(digits, 21);
    }
}

/// A number of 128 bits has at most thirty-nine digits.
pub proof fn lemma_digits_of_u128(n: u128)
    ensures
        digits(n as nat) <= 39,
{
    lemma_digits_monotone(n as nat, 340282366920938463463374607431768211455);
    assert(digits(340282366920938463463374607431768211455) == 39) by {
        reveal_with_fuel(digits, 40);
    }
}

/// Listing the characters of a text.
pub trait StringCharVec {
    /// The characters of the text.
    spec fn char_vec_spec(&self) -> Seq<char>;

    /// The characters of the text, in their order.
    fn char_vec(&self) -> (chars: Vec<char>)
        ensures
            chars@ == self.char_vec_spec(),
    ;
}

impl StringCharVec for &str {
    open spec fn char_vec_spec(&self) -> Seq<char> {
        self@
    }

    fn char_vec(&self) -> (chars: Vec<char>) {
        chars_of(self)
    }
}

impl StringCharVec for String {
    open spec fn char_vec_spec(&self) -> Seq<char> {
        self@
    }

    fn char_vec(&self) -> (chars: Vec<char>) {
        chars_of(self.as_str())
    }
}

/// Listing the lines of a text without the white space at its two ends.
pub trait IteratorTrimmedLines {
    /// The characters of the text.
    spec fn lines_text(&self) -> Seq<char>;

    /// The lines of the text without the white space at its two ends.
    fn trimmed_lines(&self) -> (parts: Vec<Vec<char>>)
        ensures
            views(parts@) == lines_of(trimmed(self.lines_text())),
    ;
}

impl IteratorTrimmedLines for &str {
    open spec fn lines_text(&self) -> Seq<char> {
        self@
    }

    fn trimmed_lines(&self) -> (parts: Vec<Vec<char>>) {
        trimmed_lines(&chars_of(self))
    }
}

impl IteratorTrimmedLines for String {
    open spec fn lines_text(&self) -> Seq<char> {
        self@
    }

    fn trimmed_lines(&self) -> (parts: Vec<Vec<char>>) {
        trimmed_lines(&chars_of(self.as_str()))
    }
}

/// Making a list of what is given.
pub trait IteratorToVec<T> {
    /// The items that are given, in their order.
    spec fn to_vec_spec(&self) -> Seq<T>;

    /// The items as a list.
    fn to_vec(self) -> (list: Vec<T>)
        ensures
            list@ == self.to_vec_spec(),
    ;
}

impl<T> IteratorToVec<T> for Vec<T> {
    open spec fn to_vec_spec(&self) -> Seq<T> {
        self@
    }

    fn to_vec(self) -> (list: Vec<T>) {
        self
    }
}

/// The list without the item at place `i`; the whole list where `i` is no
/// place of it.
pub open spec fn without_at<T>(s: Seq<T>, i: usize) -> Seq<T> {
    if i < s.len() {
        s.remove(i as int)
    } else {
        s
    }
}

/// Leaving one item out of a list.
pub trait IteratorWithout: Sized {
    /// Whether `rest` is the list without the item at place `i`.
    spec fn without_spec(&self, rest: &Self, i: usize) -> bool;

    /// The list without the item at place `i`; the whole list where `i` is
    /// no place of it.
    fn without(&self, i: usize) -> (rest: Self)
        ensures
            self.without_spec(&rest, i),
    ;
}

impl<T: Copy> IteratorWithout for Vec<T> {
    open spec fn without_spec(&self, rest: &Self, i: usize) -> bool {
        rest@ == without_at(self@, i)
    }

    fn without(&self, i: usize) -> (rest: Self) {
        let mut rest: Vec<T> = Vec::new();
        let mut k: usize = 0;
        while k < self.len()
            invariant
                k <= self.len(),
                rest@ == without_at(self@.subrange(0, k as int), i),
            decreases self.len() - k,
        {
            if k != i {
                rest.push(self[k]);
            }
            proof {
                let before = self@.subrange(0, k as int);
                let after = self@.subrange(0, k + 1);
                assert(after =~= before.push(self@[k as int]));
                assert(rest@ =~= without_at(after, i));
            }
            k += 1;
        }
        proof {
            assert(self@.subrange(0, k as int) =~= self@);
        }
        rest
    }
}

/// The place of the first error in a list of results, or the length of
/// the list where all is well.
pub open spec fn first_error<T, E>(s: Seq<Result<T, E>>) -> int
    decreases s.len(),
{
    if s.len() == 0 {
        0
    } else if first_error(s.drop_last()) < s.len() - 1 {
        first_error(s.drop_last())
    } else if s.last() is Err {
        s.len() - 1
    } else {
        s.len() as int
    }
}

/// What `first_error` names is the first error, or the length of the list.
pub proof fn lemma_first_error<T, E>(s: Seq<Result<T, E>>)
    ensures
        0 <= first_error(s) <= s.len(),
        first_error(s) < s.len() ==> s[first_error(s)] is Err,
        forall|j: int| 0 <= j < first_error(s) ==> (#[trigger] s[j]) is Ok,
    decreases s.len(),
{
    if s.len() > 0 {
        lemma_first_error(s.drop_last());
        assert forall|j: int| 0 <= j < first_error(s) implies (#[trigger] s[j]) is Ok by {
            if j < s.len() - 1 {
                assert(s.drop_last()[j] == s[j]);
            }
        }
    }
}

/// The values of a list of results, where every result is a value; else
/// the first error.
pub open spec fn collect_spec<T, E>(s: Seq<Result<T, E>>) -> Result<Seq<T>, E> {
    if first_error(s) < s.len() {
        Err(s[first_error(s)]->Err_0)
    } else {
        Ok(Seq::new(s.len(), |i: int| s[i]->Ok_0))
    }
}

/// Making one result of a list of results.
pub trait CollectIntoResult<T, E> {
    /// The results of the list.
    spec fn results(&self) -> Seq<Result<T, E>>;

    /// The values of the list, where every result is a value; else the
    /// first error.
    fn collect_result(self) -> (r: Result<Vec<T>, E>)
        ensures
            match r {
                Ok(values) => collect_spec(self.results()) == Ok::<Seq<T>, E>(values@),
                Err(e) => collect_spec(self.results()) == Err::<Seq<T>, E>(e),
            },
    ;
}

impl<T, E> CollectIntoResult<T, E> for Vec<Result<T, E>> {
    open spec fn results(&self) -> Seq<Result<T, E>> {
        self@
    }

    fn collect_result(self) -> (r: Result<Vec<T>, E>) {
        let mut rest = self;
        let mut backwards: Vec<T> = Vec::new();
        let mut error: Option<E> = None;
        let ghost mut at: int = 0;
        proof {
            lemma_first_error(self@);
        }
        while rest.len() > 0
            invariant
                rest@ == self@.subrange(0, rest@.len() as int),
                rest@.len() <= self@.len(),
                match error {
                    Some(e) => {
                        &&& rest@.len() <= at < self@.len()
                        &&& self@[at] == Err::<T, E>(e)
                        &&& forall|j: int| rest@.len() <= j < at ==> (#[trigger] self@[j]) is Ok
                    },
                    None => {
                        &&& backwards@.len() == self@.len() - rest@.len()
                        &&& forall|j: int|
                            rest@.len() <= j < self@.len() ==> #[trigger] self@[j] == Ok::<T, E>(
                                backwards@[self@.len() - 1 - j],
                            )
                    },
                },
            decreases rest@.len(),
        {
            let ghost before = rest@;
            let item = rest.pop();
            proof {
                assert(rest@ =~= self@.subrange(0, rest@.len() as int));
                assert(before.last() == self@[rest@.len() as int]);
            }
            match item {
                Some(Ok(value)) => {
                    if error.is_none() {
                        backwards.push(value);
                    }
                },
                Some(Err(e)) => {
                    error = Some(e);
                    proof {
                        at = rest@.len() as int;
                    }
                },
                None => {},
            }
        }
        match error {
            Some(e) => Err(e),
            None => {
                let mut values: Vec<T> = Vec::new();
                while backwards.len() > 0
                    invariant
                        backwards@.len() + values@.len() == self@.len(),
                        forall|j: int|
                            0 <= j < values@.len() ==> #[trigger] self@[j] == Ok::<T, E>(values@[j]),
                        forall|j: int|
                            values@.len() <= j < self@.len() ==> #[trigger] self@[j] == Ok::<T, E>(
                                backwards@[self@.len() - 1 - j],
                            ),
                    decreases backwards@.len(),
                {
                    let ghost k = values@.len() as int;
                    proof {
                        assert(self@[k] == Ok::<T, E>(backwards@[self@.len() - 1 - k]));
                    }
                    match backwards.pop() {
                        Some(value) => {
                            values.push(value);
                        },
                        None => {},
                    }
                }
                proof {
                    assert(values@ =~= Seq::new(self@.len(), |i: int| self@[i]->Ok_0));
                }
                Ok(values)
            },
        }
    }
}

/// The characters of each text of a list.
pub fn chars_of_all(texts: &Vec<&str>) -> (all: Vec<Vec<char>>)
    ensures
        all@.len() == texts@.len(),
        forall|i: int| 0 <= i < all@.len() ==> (#[trigger] all@[i])@ == texts@[i]@,
{
    let mut all: Vec<Vec<char>> = Vec::new();
    let mut i: usize = 0;
    while i < texts.len()
        invariant
            i <= texts.len(),
            all@.len() == i,
            forall|j: int| 0 <= j < i ==> (#[trigger] all@[j])@ == texts@[j]@,
        decreases texts.len() - i,
    {
        all.push(chars_of(texts[i]));
        i += 1;
    }
    all
}

/// Reading each text of a list as a number.
pub trait MapParse<T> {
    /// The texts of the list.
    spec fn texts(&self) -> Seq<Seq<char>>;

    /// The number that a text shows, or what is wrong with it.
    spec fn parse_spec(text: Seq<char>) -> Result<T, ParseNumberError>;

    /// For each text of the list the number that it shows, or what is
    /// wrong with it.
    fn parse(self) -> (r: Vec<Result<T, ParseNumberError>>)
        ensures
            r@.len() == self.texts().len(),
            forall|i: int| 0 <= i < r@.len() ==> #[trigger] r@[i] == Self::parse_spec(self.texts()[i]),
    ;
}

impl MapParse<u32> for Vec<Vec<char>> {
    open spec fn texts(&self) -> Seq<Seq<char>> {
        views(self@)
    }

    open spec fn parse_spec(text: Seq<char>) -> Result<u32, ParseNumberError> {
        u32_of(text)
    }

    fn parse(self) -> (r: Vec<Result<u32, ParseNumberError>>) {
        let mut r: Vec<Result<u32, ParseNumberError>> = Vec::new();
        let mut i: usize = 0;
        while i < self.len()
            invariant
                i <= self.len(),
                r@.len() == i,
                forall|j: int| 0 <= j < i ==> #[trigger] r@[j] == u32_of(self@[j]@),
            decreases self.len() - i,
        {
            r.push(parse_u32(&self[i]));
            i += 1;
        }
        r
    }
}

impl MapParse<u64> for Vec<Vec<char>> {
    open spec fn texts(&self) -> Seq<Seq<char>> {
        views(self@)
    }

    open spec fn parse_spec(text: Seq<char>) -> Result<u64, ParseNumberError> {
        u64_of(text)
    }

    fn parse(self) -> (r: Vec<Result<u64, ParseNumberError>>) {
        let mut r: Vec<Result<u64, ParseNumberError>> = Vec::new();
        let mut i: usize = 0;
        while i < self.len()
            invariant
                i <= self.len(),
                r@.len() == i,
                forall|j: int| 0 <= j < i ==> #[trigger] r@[j] == u64_of(self@[j]@),
            decreases self.len() - i,
        {
            r.push(parse_u64(&self[i]));
            i += 1;
        }
        r
    }
}

impl MapParse<u128> for Vec<Vec<char>> {
    open spec fn texts(&self) -> Seq<Seq<char>> {
        views(self@)
    }

    open spec fn parse_spec(text: Seq<char>) -> Result<u128, ParseNumberError> {
        u128_of(text)
    }

    fn parse(self) -> (r: Vec<Result<u128, ParseNumberError>>) {
        let mut r: Vec<Result<u128, ParseNumberError>> = Vec::new();
        let mut i: usize = 0;
        while i < self.len()
            invariant
                i <= self.len(),
                r@.len() == i,
                forall|j: int| 0 <= j < i ==> #[trigger] r@[j] == u128_of(self@[j]@),
            decreases self.len() - i,
        {
            r.push(parse_u128(&self[i]));
            i += 1;
        }
        r
    }
}

impl<'a> MapParse<u32> for Vec<&'a str> {
    open spec fn texts(&self) -> Seq<Seq<char>> {
        Seq::new(self@.len(), |i: int| self@[i]@)
    }

    open spec fn parse_spec(text: Seq<char>) -> Result<u32, ParseNumberError> {
        u32_of(text)
    }

    fn parse(self) -> (r: Vec<Result<u32, ParseNumberError>>) {
        MapParse::<u32>::parse(chars_of_all(&self))
    }
}

impl<'a> MapParse<u64> for Vec<&'a str> {
    open spec fn texts(&self) -> Seq<Seq<char>> {
        Seq::new(self@.len(), |i: int| self@[i]@)
    }

    open spec fn parse_spec(text: Seq<char>) -> Result<u64, ParseNumberError> {
        u64_of(text)
    }

    fn parse(self) -> (r: Vec<Result<u64, ParseNumberError>>) {
        MapParse::<u64>::parse(chars_of_all(&self))
    }
}

impl<'a> MapParse<u128> for Vec<&'a str> {
    open spec fn texts(&self) -> Seq<Seq<char>> {
        Seq::new(self@.len(), |i: int| self@[i]@)
    }

    open spec fn parse_spec(text: Seq<char>) -> Result<u128, ParseNumberError> {
        u128_of(text)
    }

    fn parse(self) -> (r: Vec<Result<u128, ParseNumberError>>) {
        MapParse::<u128>::parse(chars_of_all(&self))
    }
}

/// Reading each line of a text as a number.
pub trait ParseTrimmedLines<T> {
    /// For each line of the text, the white space at the two ends of the
    /// text left aside, the number that it shows or what is wrong with it.
    spec fn line_results(&self) -> Seq<Result<T, ParseNumberError>>;

    /// The numbers that the lines of the text show; else what is wrong
    /// with the first line that shows none.
    fn parse_trimmed_lines(self) -> (r: Result<Vec<T>, ParseNumberError>)
        ensures
            match r {
                Ok(values) => collect_spec(self.line_results()) == Ok::<Seq<T>, ParseNumberError>(
                    values@,
                ),
                Err(e) => collect_spec(self.line_results()) == Err::<Seq<T>, ParseNumberError>(e),
            },
    ;
}

impl<'a> ParseTrimmedLines<u32> for &'a str {
    open spec fn line_results(&self) -> Seq<Result<u32, ParseNumberError>> {
        Seq::new(
            lines_of(trimmed(self@)).len(),
            |i: int| u32_of(lines_of(trimmed(self@))[i]),
        )
    }

    fn parse_trimmed_lines(self) -> (r: Result<Vec<u32>, ParseNumberError>) {
        let lines = self.trimmed_lines();
        let results = MapParse::<u32>::parse(lines);
        proof {
            assert(results@ =~= self.line_results());
        }
        results.collect_result()
    }
}

impl<'a> ParseTrimmedLines<u64> for &'a str {
    open spec fn line_results(&self) -> Seq<Result<u64, ParseNumberError>> {
        Seq::new(
            lines_of(trimmed(self@)).len(),
            |i: int| u64_of(lines_of(trimmed(self@))[i]),
        )
    }

    fn parse_trimmed_lines(self) -> (r: Result<Vec<u64>, ParseNumberError>) {
        let lines = self.trimmed_lines();
        let results = MapParse::<u64>::parse(lines);
        proof {
            assert(results@ =~= self.line_results());
        }
        results.collect_result()
    }
}

impl<'a> ParseTrimmedLines<u128> for &'a str {
    open spec fn line_results(&self) -> Seq<Result<u128, ParseNumberError>> {
        Seq::new(
            lines_of(trimmed(self@)).len(),
            |i: int| u128_of(lines_of(trimmed(self@))[i]),
        )
    }

    fn parse_trimmed_lines(self) -> (r: Result<Vec<u128>, ParseNumberError>) {
        let lines = self.trimmed_lines();
        let results = MapParse::<u128>::parse(lines);
        proof {
            assert(results@ =~= self.line_results());
        }
        results.collect_result()
    }
}

/// The test for an item that `==` calls equal to `value`.
pub open spec fn equal_to<T: PartialEq>(value: T) -> spec_fn(T) -> bool {
    |item: T| item.eq_spec(&value)
}

/// Counting how often a value stands in a list.
pub trait IteratorCount<T> {
    /// Whether `==` on the items is what its specification says.
    spec fn counts_by_spec() -> bool;

    /// How often `value` stands in the list.
    spec fn count_element_spec(&self, value: T) -> nat;

    /// How often `value` stands in the list.
    fn count_element(self, value: T) -> (n: usize)
        ensures
            Self::counts_by_spec() ==> n == self.count_element_spec(value),
    ;
}

impl<T: PartialEq> IteratorCount<T> for Vec<T> {
    open spec fn counts_by_spec() -> bool {
        T::obeys_eq_spec()
    }

    open spec fn count_element_spec(&self, value: T) -> nat {
        count_matching(self@, equal_to(value))
    }

    fn count_element(self, value: T) -> (n: usize) {
        let mut n: usize = 0;
        let mut i: usize = 0;
        while i < self.len()
            invariant
                i <= self.len(),
                n <= i,
                T::obeys_eq_spec() ==> n == count_matching(
                    self@.subrange(0, i as int),
                    equal_to(value),
                ),
            decreases self.len() - i,
        {
            proof {
                assert(self@.subrange(0, i + 1).drop_last() =~= self@.subrange(0, i as int));
            }
            if self[i] == value {
                n += 1;
            }
            i += 1;
        }
        proof {
            assert(self@.subrange(0, i as int) =~= self@);
        }
        n
    }
}

/// Telling whether a value stands in a list a given number of times.
pub trait IteratorHasNElementsOf<T>: IteratorCount<T> {
    /// Whether `element` stands in the list exactly `n` times.
    fn has_n_elements_of(self, n: usize, element: T) -> (r: bool)
        ensures
            Self::counts_by_spec() ==> r == (self.count_element_spec(element) == n),
    ;
}

impl<T: PartialEq> IteratorHasNElementsOf<T> for Vec<T> {
    fn has_n_elements_of(self, n: usize, element: T) -> (r: bool) {
        self.count_element(element) == n
    }
}

} // verus!
