use vstd::prelude::*;
use vstd::std_specs::iter::IteratorSpec;
use vstd::string::*;

verus! {

/// The characters of a text, in their order.
pub fn chars_of(text: &str) -> (chars: Vec<char>)
    ensures
        chars@ == text@,
{
    broadcast use {vstd::string::axiom_spec_iter, vstd::string::next_postcondition};

    let mut chars: Vec<char> = Vec::new();
    let mut it = text.chars();
    loop
        invariant
            chars@ + it.remaining() == text@,
            it.obeys_prophetic_iter_laws(),
            it.decrease() is Some,
        decreases it.decrease()->0,
    {
        let ghost before = it.remaining();
        let ghost held = chars@;
        match it.next() {
            Some(c) => {
                chars.push(c);
                proof {
                    assert(held.push(c) + before.drop_first() =~= held + before);
                }
            },
            None => {
                proof {
                    assert(chars@ + Seq::<char>::empty() =~= chars@);
                }
                return chars;
            },
        }
    }
}

/// Whether `c` is white space.
pub open spec fn is_space(c: char) -> bool {
    let n = c as u32;
    (0x09 <= n <= 0x0d) || n == 0x20 || n == 0x85 || n == 0xa0 || n == 0x1680 || (0x2000 <= n
        <= 0x200a) || n == 0x2028 || n == 0x2029 || n == 0x202f || n == 0x205f || n == 0x3000
}

/// Whether `c` is white space.
pub fn is_whitespace(c: char) -> (r: bool)
    ensures
        r == is_space(c),
{
    let n = c as u32;
    (0x09 <= n && n <= 0x0d) || n == 0x20 || n == 0x85 || n == 0xa0 || n == 0x1680 || (0x2000 <= n
        && n <= 0x200a) || n == 0x2028 || n == 0x2029 || n == 0x202f || n == 0x205f || n == 0x3000
}

/// A copy of the characters from place `from` up to place `to`.
pub fn copy_range(chars: &Vec<char>, from: usize, to: usize) -> (part: Vec<char>)
    requires
        from <= to <= chars@.len(),
    ensures
        part@ == chars@.subrange(from as int, to as int),
{
    let mut part: Vec<char> = Vec::new();
    let mut i: usize = from;
    while i < to
        invariant
            from <= i <= to <= chars@.len(),
            part@ == chars@.subrange(from as int, i as int),
        decreases to - i,
    {
        part.push(chars[i]);
        proof {
            assert(part@ =~= chars@.subrange(from as int, i + 1));
        }
        i += 1;
    }
    part
}

/// The first place from `from` on where `wanted` holds of the character,
/// or the length of the text where there is none.
pub open spec fn first_at(s: Seq<char>, from: int, wanted: spec_fn(char) -> bool) -> int
    decreases s.len() - from,
{
    if from < 0 || from >= s.len() {
        s.len() as int
    } else if wanted(s[from]) {
        from
    } else {
        first_at(s, from + 1, wanted)
    }
}

/// `first_at` names a place from `from` on; `wanted` holds there if it is
/// a place of the text, and of no character between.
pub proof fn lemma_first_at(s: Seq<char>, from: int, wanted: spec_fn(char) -> bool)
    requires
        0 <= from <= s.len(),
    ensures
        from <= first_at(s, from, wanted) <= s.len(),
        first_at(s, from, wanted) < s.len() ==> wanted(s[first_at(s, from, wanted)]),
        forall|j: int| from <= j < first_at(s, from, wanted) ==> !wanted(#[trigger] s[j]),
    decreases s.len() - from,
{
    if from < s.len() && !wanted(s[from]) {
        lemma_first_at(s, from + 1, wanted);
    }
}

/// The test for white space.
pub open spec fn space() -> spec_fn(char) -> bool {
    |c: char| is_space(c)
}

/// The test for anything but white space.
pub open spec fn no_space() -> spec_fn(char) -> bool {
    |c: char| !is_space(c)
}

/// The test for the character `sep`.
pub open spec fn same_as(sep: char) -> spec_fn(char) -> bool {
    |c: char| c == sep
}

/// The text without the white space at its two ends.
pub open spec fn trimmed(s: Seq<char>) -> Seq<char>
    decreases s.len(),
{
    if s.len() == 0 {
        s
    } else if is_space(s[0]) {
        trimmed(s.drop_first())
    } else if is_space(s.last()) {
        trimmed(s.drop_last())
    } else {
        s
    }
}

/// A text without white space at its ends is left as it is by trimming.
pub proof fn lemma_trim_twice(s: Seq<char>)
    ensures
        trimmed(trimmed(s)) == trimmed(s),
    decreases s.len(),
{
    if s.len() > 0 {
        if is_space(s[0]) {
            lemma_trim_twice(s.drop_first());
        } else if is_space(s.last()) {
            lemma_trim_twice(s.drop_last());
        }
    }
}

/// A text between white space: cutting the white space before `from` and
/// behind `to` leaves what trimming leaves.
pub proof fn lemma_trimmed_range(s: Seq<char>, from: int, to: int)
    requires
        0 <= from <= to <= s.len(),
        forall|j: int| 0 <= j < from ==> is_space(#[trigger] s[j]),
        forall|j: int| to <= j < s.len() ==> is_space(#[trigger] s[j]),
        from < to ==> !is_space(s[from]) && !is_space(s[to - 1]),
    ensures
        trimmed(s) == s.subrange(from, to),
    decreases s.len(),
{
    if s.len() == 0 {
        assert(s.subrange(from, to) =~= s);
    } else if is_space(s[0]) {
        let rest = s.drop_first();
        if from == 0 {
            assert(from == to);
            assert forall|j: int| 0 <= j < rest.len() implies is_space(#[trigger] rest[j]) by {
                assert(rest[j] == s[j + 1]);
            }
            lemma_trimmed_range(rest, 0, 0);
            assert(rest.subrange(0, 0) =~= s.subrange(from, to));
        } else {
            assert forall|j: int| 0 <= j < from - 1 implies is_space(#[trigger] rest[j]) by {
                assert(rest[j] == s[j + 1]);
            }
            assert forall|j: int| to - 1 <= j < rest.len() implies is_space(#[trigger] rest[j]) by {
                assert(rest[j] == s[j + 1]);
            }
            lemma_trimmed_range(rest, from - 1, to - 1);
            assert(rest.subrange(from - 1, to - 1) =~= s.subrange(from, to));
        }
    } else if is_space(s.last()) {
        let rest = s.drop_last();
        assert(from == 0);
        assert(to < s.len());
        assert forall|j: int| to <= j < rest.len() implies is_space(#[trigger] rest[j]) by {
            assert(rest[j] == s[j]);
        }
        lemma_trimmed_range(rest, from, to);
        assert(rest.subrange(from, to) =~= s.subrange(from, to));
    } else {
        assert(from == 0 && to == s.len());
        assert(s.subrange(from, to) =~= s);
    }
}

/// The first place from `from` on where the character is as `wanted`
/// says, or the length of the text where there is none.
pub fn find_space(chars: &Vec<char>, from: usize, wanted: bool) -> (at: usize)
    requires
        from <= chars@.len(),
    ensures
        at == first_at(chars@, from as int, if wanted { space() } else { no_space() }),
        from <= at <= chars@.len(),
{
    let ghost test = if wanted { space() } else { no_space() };
    let mut i: usize = from;
    while i < chars.len() && is_whitespace(chars[i]) != wanted
        invariant
            from <= i <= chars@.len(),
            test == (if wanted { space() } else { no_space() }),
            first_at(chars@, from as int, test) == first_at(chars@, i as int, test),
        decreases chars.len() - i,
    {
        i += 1;
    }
    i
}

/// The text without the white space at its two ends.
pub fn trim(chars: &Vec<char>) -> (part: Vec<char>)
    ensures
        part@ == trimmed(chars@),
{
    let from = find_space(chars, 0, false);
    let mut to: usize = chars.len();
    proof {
        lemma_first_at(chars@, 0, no_space());
    }
    while to > from && is_whitespace(chars[to - 1])
        invariant
            from <= to <= chars@.len(),
            forall|j: int| to <= j < chars@.len() ==> is_space(#[trigger] chars@[j]),
        decreases to,
    {
        to -= 1;
    }
    proof {
        lemma_trimmed_range(chars@, from as int, to as int);
    }
    copy_range(chars, from, to)
}

/// The first place from `from` on that holds the character `sep`, or the
/// length of the text where there is none.
pub fn find_char(chars: &Vec<char>, from: usize, sep: char) -> (at: usize)
    requires
        from <= chars@.len(),
    ensures
        at == first_at(chars@, from as int, same_as(sep)),
        from <= at <= chars@.len(),
{
    let mut i: usize = from;
    while i < chars.len() && chars[i] != sep
        invariant
            from <= i <= chars@.len(),
            first_at(chars@, from as int, same_as(sep)) == first_at(chars@, i as int, same_as(sep)),
        decreases chars.len() - i,
    {
        i += 1;
    }
    i
}

/// The line without the carriage return at its end, if it has one.
pub open spec fn without_cr(line: Seq<char>) -> Seq<char> {
    if line.len() > 0 && line.last() == '\r' {
        line.drop_last()
    } else {
        line
    }
}

/// The lines of the text from place `from` on. A line ends with a line
/// feed, or with a carriage return and a line feed, which are no part of
/// it; the last line may end with the text.
pub open spec fn lines_from(s: Seq<char>, from: int) -> Seq<Seq<char>>
    decreases s.len() - from,
{
    if from < 0 || from >= s.len() {
        Seq::empty()
    } else {
        let end = first_at(s, from, same_as('\n'));
        if from <= end < s.len() {
            seq![without_cr(s.subrange(from, end))] + lines_from(s, end + 1)
        } else {
            seq![s.subrange(from, s.len() as int)]
        }
    }
}

/// The lines of the text.
pub open spec fn lines_of(s: Seq<char>) -> Seq<Seq<char>> {
    lines_from(s, 0)
}

/// The views of a list of texts.
pub open spec fn views(parts: Seq<Vec<char>>) -> Seq<Seq<char>> {
    Seq::new(parts.len(), |i: int| parts[i]@)
}

/// The lines of the text.
pub fn lines(chars: &Vec<char>) -> (parts: Vec<Vec<char>>)
    ensures
        views(parts@) == lines_of(chars@),
{
    let mut parts: Vec<Vec<char>> = Vec::new();
    let mut from: usize = 0;
    while from < chars.len()
        invariant
            from <= chars@.len(),
            views(parts@) + lines_from(chars@, from as int) == lines_of(chars@),
        decreases chars.len() - from,
    {
        let end = find_char(chars, from, '\n');
        let ghost before = views(parts@);
        let ghost rest = lines_from(chars@, from as int);
        if end < chars.len() {
            let stop = if end > from && chars[end - 1] == '\r' {
                end - 1
            } else {
                end
            };
            let line = copy_range(chars, from, stop);
            proof {
                let whole = chars@.subrange(from as int, end as int);
                assert(line@ =~= without_cr(whole));
                assert(rest == seq![line@] + lines_from(chars@, end + 1));
            }
            parts.push(line);
            proof {
                assert(views(parts@) =~= before.push(line@));
                assert(before.push(line@) + lines_from(chars@, end + 1) =~= before + rest);
            }
            from = end + 1;
        } else {
            let line = copy_range(chars, from, end);
            parts.push(line);
            proof {
                assert(rest == seq![line@]);
                assert(views(parts@) =~= before.push(line@));
                assert(before.push(line@) =~= before + rest);
                assert(lines_from(chars@, end as int) =~= Seq::<Seq<char>>::empty());
                assert(views(parts@) + Seq::<Seq<char>>::empty() =~= views(parts@));
            }
            from = end;
        }
    }
    proof {
        assert(lines_from(chars@, from as int) =~= Seq::<Seq<char>>::empty());
        assert(views(parts@) + Seq::<Seq<char>>::empty() =~= views(parts@));
    }
    parts
}

/// The lines of the text without the white space at its two ends.
pub fn trimmed_lines(chars: &Vec<char>) -> (parts: Vec<Vec<char>>)
    ensures
        views(parts@) == lines_of(trimmed(chars@)),
{
    let inner = trim(chars);
    lines(&inner)
}

/// The words of the text from place `from` on: the rows of characters
/// between white space.
pub open spec fn words_from(s: Seq<char>, from: int) -> Seq<Seq<char>>
    decreases s.len() - from,
{
    let begin = first_at(s, from, no_space());
    let end = first_at(s, begin, space());
    if from < 0 || from <= begin < end <= s.len() {
        if from < 0 {
            Seq::empty()
        } else {
            seq![s.subrange(begin, end)] + words_from(s, end)
        }
    } else {
        Seq::empty()
    }
}

/// The words of the text: the rows of characters between white space.
pub open spec fn words_of(s: Seq<char>) -> Seq<Seq<char>> {
    words_from(s, 0)
}

/// The words of the text: the rows of characters between white space.
pub fn split_whitespace(chars: &Vec<char>) -> (parts: Vec<Vec<char>>)
    ensures
        views(parts@) == words_of(chars@),
{
    let mut parts: Vec<Vec<char>> = Vec::new();
    let mut from: usize = 0;
    loop
        invariant
            from <= chars@.len(),
            views(parts@) + words_from(chars@, from as int) == words_of(chars@),
        decreases chars@.len() - from,
    {
        let begin = find_space(chars, from, false);
        let end = find_space(chars, begin, true);
        let ghost before = views(parts@);
        let ghost rest = words_from(chars@, from as int);
        proof {
            lemma_first_at(chars@, from as int, no_space());
            lemma_first_at(chars@, begin as int, space());
        }
        if begin >= end {
            proof {
                assert(rest =~= Seq::<Seq<char>>::empty());
                assert(views(parts@) + Seq::<Seq<char>>::empty() =~= views(parts@));
            }
            return parts;
        }
        let word = copy_range(chars, begin, end);
        parts.push(word);
        proof {
            assert(rest == seq![word@] + words_from(chars@, end as int));
            assert(views(parts@) =~= before.push(word@));
            assert(before.push(word@) + words_from(chars@, end as int) =~= before + rest);
        }
        from = end;
    }
}

/// The parts of the text from place `from` on that the character `sep`
/// stands between. There is one part more than separators.
pub open spec fn parts_from(s: Seq<char>, from: int, sep: char) -> Seq<Seq<char>>
    decreases s.len() - from,
{
    let end = first_at(s, from, same_as(sep));
    if 0 <= from <= end < s.len() {
        seq![s.subrange(from, end)] + parts_from(s, end + 1, sep)
    } else if 0 <= from <= s.len() {
        seq![s.subrange(from, s.len() as int)]
    } else {
        Seq::empty()
    }
}

/// The parts of the text that the character `sep` stands between.
pub fn split(chars: &Vec<char>, sep: char) -> (parts: Vec<Vec<char>>)
    ensures
        views(parts@) == parts_from(chars@, 0, sep),
{
    let mut parts: Vec<Vec<char>> = Vec::new();
    let mut from: usize = 0;
    loop
        invariant
            from <= chars@.len(),
            views(parts@) + parts_from(chars@, from as int, sep) == parts_from(chars@, 0, sep),
        decreases chars@.len() - from,
    {
        let end = find_char(chars, from, sep);
        let ghost before = views(parts@);
        let ghost rest = parts_from(chars@, from as int, sep);
        let part = copy_range(chars, from, end);
        parts.push(part);
        proof {
            assert(views(parts@) =~= before.push(part@));
        }
        if end >= chars.len() {
            proof {
                assert(rest == seq![part@]);
                assert(before.push(part@) =~= before + rest);
            }
            return parts;
        }
        proof {
            assert(rest == seq![part@] + parts_from(chars@, end + 1, sep));
            assert(before.push(part@) + parts_from(chars@, end + 1, sep) =~= before + rest);
        }
        from = end + 1;
    }
}

/// Why a text is not a number of the kind wanted.
#[derive(PartialEq, Eq, Structural, Debug, Clone, Copy)]
pub enum ParseNumberError {
    /// The text is empty.
    Empty,
    /// The text holds something that is no digit, or a sign and nothing
    /// else.
    InvalidDigit,
    /// The number is too great.
    PosOverflow,
    /// The number is too small.
    NegOverflow,
}

/// Whether `c` is one of the ten decimal digits.
pub open spec fn is_digit(c: char) -> bool {
    '0' <= c <= '9'
}

/// The number from zero to nine that the digit `c` shows.
pub open spec fn digit_value(c: char) -> nat {
    (c as u32 - '0' as u32) as nat
}

/// The number that the digits from place `from` on add to `value`, read
/// from left to right; no number may be greater than `limit`. What is
/// wrong first, from left to right, is the error.
pub open spec fn digits_from(s: Seq<char>, from: int, value: nat, limit: nat) -> Result<
    nat,
    ParseNumberError,
>
    decreases s.len() - from,
{
    if from < 0 || from >= s.len() {
        Ok(value)
    } else if !is_digit(s[from]) {
        Err(ParseNumberError::InvalidDigit)
    } else if value * 10 + digit_value(s[from]) > limit {
        Err(ParseNumberError::PosOverflow)
    } else {
        digits_from(s, from + 1, value * 10 + digit_value(s[from]), limit)
    }
}

/// The number up to `limit` that the text shows in decimal digits, with
/// or without a plus sign before them.
pub open spec fn unsigned_of(s: Seq<char>, limit: nat) -> Result<nat, ParseNumberError> {
    if s.len() == 0 {
        Err(ParseNumberError::Empty)
    } else if s.len() == 1 && (s[0] == '+' || s[0] == '-') {
        Err(ParseNumberError::InvalidDigit)
    } else if s[0] == '+' {
        digits_from(s, 1, 0, limit)
    } else {
        digits_from(s, 0, 0, limit)
    }
}

/// Reads the digits from place `from` on, as `digits_from` says.
pub fn read_digits(chars: &Vec<char>, from: usize, limit: u128) -> (r: Result<
    u128,
    ParseNumberError,
>)
    requires
        from <= chars@.len(),
    ensures
        match r {
            Ok(v) => digits_from(chars@, from as int, 0, limit as nat) == Ok::<
                nat,
                ParseNumberError,
            >(v as nat),
            Err(e) => digits_from(chars@, from as int, 0, limit as nat) == Err::<
                nat,
                ParseNumberError,
            >(e),
        },
{
    let mut value: u128 = 0;
    let mut i: usize = from;
    while i < chars.len()
        invariant
            from <= i <= chars@.len(),
            value <= limit,
            digits_from(chars@, from as int, 0, limit as nat) == digits_from(
                chars@,
                i as int,
                value as nat,
                limit as nat,
            ),
        decreases chars.len() - i,
    {
        let c = chars[i];
        if !(c >= '0' && c <= '9') {
            return Err(ParseNumberError::InvalidDigit);
        }
        let d = (c as u32 - '0' as u32) as u128;
        let next = match value.checked_mul(10) {
            Some(tenfold) => tenfold.checked_add(d),
            None => None,
        };
        match next {
            Some(n) => {
                if n > limit {
                    return Err(ParseNumberError::PosOverflow);
                }
                value = n;
            },
            None => {
                return Err(ParseNumberError::PosOverflow);
            },
        }
        i += 1;
    }
    Ok(value)
}

/// The number up to `limit` that the text shows in decimal digits, with
/// or without a plus sign before them.
pub fn parse_unsigned(chars: &Vec<char>, limit: u128) -> (r: Result<u128, ParseNumberError>)
    ensures
        match r {
            Ok(v) => v <= limit && unsigned_of(chars@, limit as nat) == Ok::<nat, ParseNumberError>(
                v as nat,
            ),
            Err(e) => unsigned_of(chars@, limit as nat) == Err::<nat, ParseNumberError>(e),
        },
{
    if chars.len() == 0 {
        return Err(ParseNumberError::Empty);
    }
    let first = chars[0];
    if chars.len() == 1 && (first == '+' || first == '-') {
        return Err(ParseNumberError::InvalidDigit);
    }
    proof {
        lemma_digits_from_bounded(chars@, 0, 0, limit as nat);
        lemma_digits_from_bounded(chars@, 1, 0, limit as nat);
    }
    if first == '+' {
        read_digits(chars, 1, limit)
    } else {
        read_digits(chars, 0, limit)
    }
}

/// A number that `digits_from` gives is no greater than the limit.
pub proof fn lemma_digits_from_bounded(s: Seq<char>, from: int, value: nat, limit: nat)
    requires
        value <= limit,
    ensures
        digits_from(s, from, value, limit) is Ok ==> digits_from(s, from, value, limit)->Ok_0
            <= limit,
    decreases s.len() - from,
{
    if 0 <= from < s.len() && is_digit(s[from]) && value * 10 + digit_value(s[from]) <= limit {
        lemma_digits_from_bounded(s, from + 1, value * 10 + digit_value(s[from]), limit);
    }
}

/// The number of 32 bits that the text shows.
pub open spec fn u32_of(s: Seq<char>) -> Result<u32, ParseNumberError> {
    match unsigned_of(s, u32::MAX as nat) {
        Ok(v) => Ok(v as u32),
        Err(e) => Err(e),
    }
}

/// The number of 64 bits that the text shows.
pub open spec fn u64_of(s: Seq<char>) -> Result<u64, ParseNumberError> {
    match unsigned_of(s, u64::MAX as nat) {
        Ok(v) => Ok(v as u64),
        Err(e) => Err(e),
    }
}

/// The number of 128 bits that the text shows.
pub open spec fn u128_of(s: Seq<char>) -> Result<u128, ParseNumberError> {
    match unsigned_of(s, u128::MAX as nat) {
        Ok(v) => Ok(v as u128),
        Err(e) => Err(e),
    }
}

/// The number of 32 bits that the text shows.
pub fn parse_u32(chars: &Vec<char>) -> (r: Result<u32, ParseNumberError>)
    ensures
        r == u32_of(chars@),
{
    match parse_unsigned(chars, 0xffff_ffff) {
        Ok(v) => Ok(v as u32),
        Err(e) => Err(e),
    }
}

/// The number of 64 bits that the text shows.
pub fn parse_u64(chars: &Vec<char>) -> (r: Result<u64, ParseNumberError>)
    ensures
        r == u64_of(chars@),
{
    match parse_unsigned(chars, 0xffff_ffff_ffff_ffff) {
        Ok(v) => Ok(v as u64),
        Err(e) => Err(e),
    }
}

/// The number of 128 bits that the text shows.
pub fn parse_u128(chars: &Vec<char>) -> (r: Result<u128, ParseNumberError>)
    ensures
        r == u128_of(chars@),
{
    parse_unsigned(chars, u128::MAX)
}

/// For each text of a list the number of 32 bits that it shows, or what
/// is wrong with it.
pub open spec fn u32s_of(parts: Seq<Seq<char>>) -> Seq<Result<u32, ParseNumberError>> {
    Seq::new(parts.len(), |i: int| u32_of(parts[i]))
}

/// For each text of a list the number of 128 bits that it shows, or what
/// is wrong with it.
pub open spec fn u128s_of(parts: Seq<Seq<char>>) -> Seq<Result<u128, ParseNumberError>> {
    Seq::new(parts.len(), |i: int| u128_of(parts[i]))
}

/// The first place from `from` on where `first` stands with `second`
/// right behind it, or the length of the text where there is none.
pub open spec fn first_pair_at(s: Seq<char>, from: int, first: char, second: char) -> int
    decreases s.len() - from,
{
    if from < 0 || from + 1 >= s.len() {
        s.len() as int
    } else if s[from] == first && s[from + 1] == second {
        from
    } else {
        first_pair_at(s, from + 1, first, second)
    }
}

/// The first place from `from` on where `first` stands with `second`
/// right behind it, or the length of the text where there is none.
pub fn find_pair(chars: &Vec<char>, from: usize, first: char, second: char) -> (at: usize)
    requires
        from <= chars@.len(),
    ensures
        at == first_pair_at(chars@, from as int, first, second),
        from <= at <= chars@.len(),
        at < chars@.len() ==> at + 1 < chars@.len(),
{
    let mut i: usize = from;
    while i < chars.len() && i + 1 < chars.len() && !(chars[i] == first && chars[i + 1] == second)
        invariant
            from <= i <= chars@.len(),
            first_pair_at(chars@, from as int, first, second) == first_pair_at(
                chars@,
                i as int,
                first,
                second,
            ),
        decreases chars.len() - i,
    {
        i += 1;
    }
    if i >= chars.len() || i + 1 >= chars.len() {
        chars.len()
    } else {
        i
    }
}

/// The whole number of 64 bits that the text shows in decimal digits, with
/// or without a sign before them.
pub open spec fn i64_of(s: Seq<char>) -> Result<i64, ParseNumberError> {
    if s.len() == 0 {
        Err(ParseNumberError::Empty)
    } else if s.len() == 1 && (s[0] == '+' || s[0] == '-') {
        Err(ParseNumberError::InvalidDigit)
    } else if s[0] == '-' {
        match digits_from(s, 1, 0, 0x8000_0000_0000_0000) {
            Ok(v) => Ok((-v) as i64),
            Err(ParseNumberError::PosOverflow) => Err(ParseNumberError::NegOverflow),
            Err(e) => Err(e),
        }
    } else {
        match unsigned_of(s, 0x7fff_ffff_ffff_ffff) {
            Ok(v) => Ok(v as i64),
            Err(e) => Err(e),
        }
    }
}

/// The whole number of 64 bits that the text shows.
pub fn parse_i64(chars: &Vec<char>) -> (r: Result<i64, ParseNumberError>)
    ensures
        r == i64_of(chars@),
{
    if chars.len() > 1 && chars[0] == '-' {
        proof {
            lemma_digits_from_bounded(chars@, 1, 0, 0x8000_0000_0000_0000);
        }
        match read_digits(chars, 1, 0x8000_0000_0000_0000) {
            Ok(v) => {
                if v == 0x8000_0000_0000_0000 {
                    Ok(i64::MIN)
                } else {
                    Ok(-(v as i64))
                }
            },
            Err(ParseNumberError::PosOverflow) => Err(ParseNumberError::NegOverflow),
            Err(e) => Err(e),
        }
    } else {
        match parse_unsigned(chars, 0x7fff_ffff_ffff_ffff) {
            Ok(v) => Ok(v as i64),
            Err(e) => Err(e),
        }
    }
}

} // verus!
