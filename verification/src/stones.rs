use vstd::prelude::*;
use crate::equation::{checked_pow10, lemma_pow10_grows, pow10};
use crate::text::{ParseNumberError, chars_of, split_whitespace, trim, trimmed, u64_of, words_of};
use crate::utilities::{
    CollectIntoResult,
    DigitCount,
    IsEven,
    MapParse,
    collect_spec,
    digits,
    lemma_digits_of_u64,
};

verus! {

/// A stone with a number engraved on it.
#[derive(Clone, Copy, Debug, PartialEq, Eq, Hash)]
pub struct Stone {
    pub value: u64,
}

/// The number by which a stone with an odd count of digits is multiplied.
pub const FACTOR: u64 = 2024;

/// Whether a stone with number `v` is split in two by a blink: it is not
/// zero and has an even count of digits.
pub open spec fn splits(v: u64) -> bool {
    v != 0 && digits(v as nat) % 2 == 0
}

/// Whether a stone with number `v` is multiplied by a blink.
pub open spec fn grows(v: u64) -> bool {
    v != 0 && digits(v as nat) % 2 == 1
}

/// Ten to the power of half the count of digits of `v`.
pub open spec fn half_power(v: u64) -> nat {
    pow10(digits(v as nat) / 2)
}

/// The number that a stone with number `v` bears after a blink: one for
/// zero, the left half of the digits for an even count of digits, and else
/// the number times 2024.
pub open spec fn first_after(v: u64) -> nat {
    if v == 0 {
        1
    } else if splits(v) {
        v as nat / half_power(v)
    } else {
        (v * FACTOR) as nat
    }
}

/// The number of the second stone that a stone with number `v` leaves
/// after a blink, if it is split: the right half of its digits.
pub open spec fn second_after(v: u64) -> Option<u64> {
    if splits(v) {
        Some((v as nat % half_power(v)) as u64)
    } else {
        None
    }
}

impl Stone {
    /// Changes the stone as a blink does, and returns the second stone
    /// where the stone is split.
    pub fn blink(&mut self) -> (r: Option<Stone>)
        requires
            grows(old(self).value) ==> old(self).value * FACTOR <= u64::MAX,
        ensures
            final(self).value == first_after(old(self).value),
            match r {
                Some(stone) => second_after(old(self).value) == Some(stone.value),
                None => second_after(old(self).value) is None,
            },
    {
        if self.value == 0 {
            self.value = 1;
            return None;
        }
        proof {
            lemma_digits_of_u64(self.value);
        }
        let digit_count = self.value.digit_count() as u32;
        if digit_count.is_even() {
            proof {
                lemma_pow10_grows((digit_count / 2) as nat, 10);
                assert(pow10(10) == 10000000000) by {
                    reveal_with_fuel(pow10, 11);
                }
            }
            let ten_pow = match checked_pow10(digit_count / 2) {
                Some(p) => p as u64,
                None => unreached(),
            };
            let new_value = self.value % ten_pow;
            self.value = self.value / ten_pow;
            return Some(Self { value: new_value });
        }
        self.value = self.value * FACTOR;
        None
    }
}

/// The list with `a` more stones of number `v`: the entry of `v` grows by
/// `a`, or, where `v` has no entry, one is put in before the last entries
/// of greater numbers.
pub open spec fn insert_amount(acc: Seq<(u64, nat)>, v: u64, a: nat) -> Seq<(u64, nat)>
    decreases acc.len(),
{
    if acc.len() == 0 {
        seq![(v, a)]
    } else if acc.last().0 < v {
        acc.push((v, a))
    } else if acc.last().0 == v {
        acc.drop_last().push((v, acc.last().1 + a))
    } else {
        insert_amount(acc.drop_last(), v, a).push(acc.last())
    }
}

/// The entries put into an empty list one after the other.
pub open spec fn merged(s: Seq<(u64, nat)>) -> Seq<(u64, nat)>
    decreases s.len(),
{
    if s.len() == 0 {
        Seq::empty()
    } else {
        insert_amount(merged(s.drop_last()), s.last().0, s.last().1)
    }
}

/// Each entry with the number that its stones bear after a blink.
pub open spec fn firsts(s: Seq<(u64, nat)>) -> Seq<(u64, nat)> {
    Seq::new(s.len(), |i: int| (first_after(s[i].0) as u64, s[i].1))
}

/// For each entry whose stones are split by a blink, an entry for the
/// second stones.
pub open spec fn seconds(s: Seq<(u64, nat)>) -> Seq<(u64, nat)>
    decreases s.len(),
{
    if s.len() == 0 {
        Seq::empty()
    } else {
        match second_after(s.last().0) {
            Some(w) => seconds(s.drop_last()).push((w, s.last().1)),
            None => seconds(s.drop_last()),
        }
    }
}

/// The entries after a blink, before they are merged.
pub open spec fn blinked(s: Seq<(u64, nat)>) -> Seq<(u64, nat)> {
    firsts(s) + seconds(s)
}

/// The entries after a blink.
pub open spec fn after_blink(s: Seq<(u64, nat)>) -> Seq<(u64, nat)> {
    merged(blinked(s))
}

/// The entries after `n` blinks.
pub open spec fn after_blinks(s: Seq<(u64, nat)>, n: nat) -> Seq<(u64, nat)>
    decreases n,
{
    if n == 0 {
        s
    } else {
        after_blink(after_blinks(s, (n - 1) as nat))
    }
}

/// Whether every count of stones fits 64 bits.
pub open spec fn amounts_fit(s: Seq<(u64, nat)>) -> bool {
    forall|i: int| 0 <= i < s.len() ==> (#[trigger] s[i]).1 <= u64::MAX
}

/// Whether a blink can be made: the numbers that are multiplied and the
/// counts of stones after the blink fit 64 bits.
pub open spec fn blink_fits(s: Seq<(u64, nat)>) -> bool {
    &&& forall|i: int| 0 <= i < s.len() && grows((#[trigger] s[i]).0) ==> s[i].0 * FACTOR <= u64::MAX
    &&& amounts_fit(after_blink(s))
}

/// The number of stones of all entries together.
pub open spec fn stone_count(s: Seq<(u64, nat)>) -> nat
    decreases s.len(),
{
    if s.len() == 0 {
        0
    } else {
        stone_count(s.drop_last()) + s.last().1
    }
}

/// Whether the list has an entry for number `v` with `a` stones or more.
pub open spec fn has_entry(y: Seq<(u64, nat)>, v: u64, a: nat) -> bool {
    exists|j: int| 0 <= j < y.len() && (#[trigger] y[j]).0 == v && a <= y[j].1
}

/// Whether each entry of `x` has an entry in `y` for the same number with
/// at least as many stones.
pub open spec fn covered_by(x: Seq<(u64, nat)>, y: Seq<(u64, nat)>) -> bool {
    forall|k: int| 0 <= k < x.len() ==> has_entry(y, (#[trigger] x[k]).0, x[k].1)
}

/// Putting stones into a list takes nothing away.
pub proof fn lemma_insert_covers(acc: Seq<(u64, nat)>, v: u64, a: nat)
    ensures
        covered_by(acc, insert_amount(acc, v, a)),
    decreases acc.len(),
{
    let out = insert_amount(acc, v, a);
    if acc.len() == 0 {
    } else if acc.last().0 < v {
        assert forall|k: int| 0 <= k < acc.len() implies has_entry(
            out,
            (#[trigger] acc[k]).0,
            acc[k].1,
        ) by {
            assert(out[k] == acc[k]);
        }
    } else if acc.last().0 == v {
        assert forall|k: int| 0 <= k < acc.len() implies has_entry(
            out,
            (#[trigger] acc[k]).0,
            acc[k].1,
        ) by {
            assert(out[k].0 == acc[k].0 && acc[k].1 <= out[k].1);
        }
    } else {
        let inner = insert_amount(acc.drop_last(), v, a);
        lemma_insert_covers(acc.drop_last(), v, a);
        assert forall|k: int| 0 <= k < acc.len() implies has_entry(
            out,
            (#[trigger] acc[k]).0,
            acc[k].1,
        ) by {
            if k < acc.len() - 1 {
                assert(acc.drop_last()[k] == acc[k]);
                assert(has_entry(inner, acc.drop_last()[k].0, acc.drop_last()[k].1));
                let j = choose|j: int|
                    0 <= j < inner.len() && (#[trigger] inner[j]).0 == acc[k].0 && acc[k].1
                        <= inner[j].1;
                assert(out[j] == inner[j]);
            } else {
                assert(out[out.len() - 1] == acc[k]);
            }
        }
    }
}

/// What is covered by a list is covered by what covers the list.
pub proof fn lemma_covered_chain(x: Seq<(u64, nat)>, y: Seq<(u64, nat)>, z: Seq<(u64, nat)>)
    requires
        covered_by(x, y),
        covered_by(y, z),
    ensures
        covered_by(x, z),
{
    assert forall|k: int| 0 <= k < x.len() implies has_entry(z, (#[trigger] x[k]).0, x[k].1) by {
        assert(has_entry(y, x[k].0, x[k].1));
        let m = choose|m: int| 0 <= m < y.len() && (#[trigger] y[m]).0 == x[k].0 && x[k].1 <= y[m].1;
        assert(has_entry(z, y[m].0, y[m].1));
        let j = choose|j: int| 0 <= j < z.len() && (#[trigger] z[j]).0 == y[m].0 && y[m].1 <= z[j].1;
        assert(z[j].0 == x[k].0 && x[k].1 <= z[j].1);
    }
}

/// The merged first entries of a list are covered by its merged entries.
pub proof fn lemma_merged_covers(s: Seq<(u64, nat)>, i: int)
    requires
        0 <= i <= s.len(),
    ensures
        covered_by(merged(s.subrange(0, i)), merged(s)),
    decreases s.len() - i,
{
    let part = merged(s.subrange(0, i));
    if i < s.len() {
        lemma_merged_covers(s, i + 1);
        let more = merged(s.subrange(0, i + 1));
        assert(s.subrange(0, i + 1).drop_last() =~= s.subrange(0, i));
        assert(s.subrange(0, i + 1).last() == s[i]);
        assert(more == insert_amount(part, s[i].0, s[i].1));
        lemma_insert_covers(part, s[i].0, s[i].1);
        lemma_covered_chain(part, more, merged(s));
    } else {
        assert(s.subrange(0, i) =~= s);
        assert(part == merged(s));
        assert forall|k: int| 0 <= k < part.len() implies has_entry(
            part,
            (#[trigger] part[k]).0,
            part[k].1,
        ) by {
            assert(part[k].0 == part[k].0 && part[k].1 <= part[k].1);
        }
    }
}

/// Where the entries from place `k` on bear greater numbers than `v` and
/// the entry before does not, putting stones of number `v` in changes the
/// entry before place `k`, if it is for `v`, and else puts one in at `k`.
pub proof fn lemma_insert_at(acc: Seq<(u64, nat)>, v: u64, a: nat, k: int)
    requires
        0 <= k <= acc.len(),
        forall|j: int| k <= j < acc.len() ==> (#[trigger] acc[j]).0 > v,
        k > 0 ==> acc[k - 1].0 <= v,
    ensures
        insert_amount(acc, v, a) == (if k > 0 && acc[k - 1].0 == v {
            acc.update(k - 1, (v, acc[k - 1].1 + a))
        } else {
            acc.insert(k, (v, a))
        }),
    decreases acc.len() - k,
{
    if acc.len() == 0 {
        assert(acc.insert(0, (v, a)) =~= seq![(v, a)]);
    } else if k == acc.len() {
        if acc.last().0 < v {
            assert(acc.insert(k, (v, a)) =~= acc.push((v, a)));
        } else {
            assert(acc.update(k - 1, (v, acc[k - 1].1 + a)) =~= acc.drop_last().push(
                (v, acc.last().1 + a),
            ));
        }
    } else {
        assert(acc.last() == acc[acc.len() - 1]);
        let front = acc.drop_last();
        assert forall|j: int| k <= j < front.len() implies (#[trigger] front[j]).0 > v by {
            assert(front[j] == acc[j]);
        }
        lemma_insert_at(front, v, a, k);
        if k > 0 && acc[k - 1].0 == v {
            assert(front.update(k - 1, (v, front[k - 1].1 + a)).push(acc.last()) =~= acc.update(
                k - 1,
                (v, acc[k - 1].1 + a),
            ));
        } else {
            assert(front.insert(k, (v, a)).push(acc.last()) =~= acc.insert(k, (v, a)));
        }
    }
}

/// The stones of a row, counted by their numbers.
#[derive(Debug)]
pub struct StoneCollection {
    pub stones: Vec<(Stone, u64)>,
}

impl View for StoneCollection {
    type V = Seq<(u64, nat)>;

    open spec fn view(&self) -> Seq<(u64, nat)> {
        entries_of(self.stones@)
    }
}

/// The entries of a list of stones with their counts.
pub open spec fn entries_of(stones: Seq<(Stone, u64)>) -> Seq<(u64, nat)> {
    Seq::new(stones.len(), |i: int| (stones[i].0.value, stones[i].1 as nat))
}

/// Puts `amount` stones like `stone` into the list.
fn insert_entry(data: &mut Vec<(Stone, u64)>, stone: Stone, amount: u64)
    requires
        amounts_fit(insert_amount(entries_of(old(data)@), stone.value, amount as nat)),
    ensures
        entries_of(final(data)@) == insert_amount(
            entries_of(old(data)@),
            stone.value,
            amount as nat,
        ),
{
    let ghost acc = entries_of(data@);
    let mut k: usize = data.len();
    while k > 0 && data[k - 1].0.value > stone.value
        invariant
            k <= data.len(),
            data@ == old(data)@,
            forall|j: int| k <= j < data@.len() ==> (#[trigger] entries_of(data@)[j]).0 > stone.value,
        decreases k,
    {
        k -= 1;
    }
    proof {
        assert forall|j: int| k <= j < acc.len() implies (#[trigger] acc[j]).0 > stone.value by {}
        lemma_insert_at(acc, stone.value, amount as nat, k as int);
    }
    if k > 0 && data[k - 1].0.value == stone.value {
        let held = data[k - 1].1;
        proof {
            let out = acc.update(k - 1, (stone.value, acc[k - 1].1 + amount as nat));
            assert(out[k - 1].1 <= u64::MAX);
        }
        data.set(k - 1, (stone, held + amount));
        proof {
            assert(entries_of(data@) =~= acc.update(
                k - 1,
                (stone.value, acc[k - 1].1 + amount as nat),
            ));
        }
    } else {
        data.insert(k, (stone, amount));
        proof {
            assert(entries_of(data@) =~= acc.insert(k as int, (stone.value, amount as nat)));
        }
    }
}

impl StoneCollection {
    /// Brings the stones of the same number together in one entry each.
    pub fn merge(&mut self)
        requires
            amounts_fit(merged(old(self)@)),
        ensures
            final(self)@ == merged(old(self)@),
    {
        let mut data: Vec<(Stone, u64)> = Vec::new();
        let mut i: usize = 0;
        proof {
            assert(old(self)@.subrange(0, 0) =~= Seq::<(u64, nat)>::empty());
            assert(entries_of(data@) =~= Seq::<(u64, nat)>::empty());
        }
        while i < self.stones.len()
            invariant
                i <= self.stones.len(),
                *self == *old(self),
                amounts_fit(merged(self@)),
                entries_of(data@) == merged(self@.subrange(0, i as int)),
            decreases self.stones.len() - i,
        {
            let (stone, amount) = self.stones[i];
            proof {
                let more = merged(self@.subrange(0, i + 1));
                assert(self@.subrange(0, i + 1).drop_last() =~= self@.subrange(0, i as int));
                assert(self@[i as int] == (stone.value, amount as nat));
                lemma_merged_covers(self@, i + 1);
                assert forall|k: int| 0 <= k < more.len() implies (#[trigger] more[k]).1
                    <= u64::MAX by {
                    assert(has_entry(merged(self@), more[k].0, more[k].1));
                    let j = choose|j: int|
                        0 <= j < merged(self@).len() && (#[trigger] merged(self@)[j]).0 == more[k].0
                            && more[k].1 <= merged(self@)[j].1;
                }
            }
            insert_entry(&mut data, stone, amount);
            i += 1;
        }
        proof {
            assert(self@.subrange(0, i as int) =~= self@);
        }
        self.stones = data;
    }

    /// Makes one blink: every stone changes as `Stone::blink` says, and
    /// the stones of the same number are brought together.
    pub fn blink(&mut self)
        requires
            blink_fits(old(self)@),
        ensures
            final(self)@ == after_blink(old(self)@),
    {
        let n = self.stones.len();
        let mut i: usize = 0;
        proof {
            assert(self@ =~= (firsts(old(self)@).subrange(0, 0) + old(self)@.subrange(0, n as int))
                + seconds(old(self)@.subrange(0, 0)));
        }
        while i < n
            invariant
                i <= n,
                n == old(self)@.len(),
                self.stones@.len() >= n,
                blink_fits(old(self)@),
                self@ == (firsts(old(self)@).subrange(0, i as int) + old(self)@.subrange(
                    i as int,
                    n as int,
                )) + seconds(old(self)@.subrange(0, i as int)),
            decreases n - i,
        {
            let ghost before = self@;
            let ghost extra = seconds(old(self)@.subrange(0, i as int));
            proof {
                assert(before[i as int] == old(self)@[i as int]);
            }
            let (stone, amount) = self.stones[i];
            let mut stone = stone;
            proof {
                assert(self@[i as int] == (stone.value, amount as nat));
                assert(old(self)@[i as int].0 == stone.value);
            }
            let second = stone.blink();
            self.stones.set(i, (stone, amount));
            match second {
                Some(other) => {
                    self.stones.push((other, amount));
                },
                None => {},
            }
            proof {
                let start = old(self)@;
                let done = firsts(start).subrange(0, i as int);
                let todo = start.subrange(i as int, n as int);
                let entry = (stone.value, amount as nat);
                assert(start.subrange(0, i + 1).drop_last() =~= start.subrange(0, i as int));
                assert(start.subrange(0, i + 1).last() == start[i as int]);
                assert(entry == firsts(start)[i as int]);
                assert(firsts(start).subrange(0, i + 1) =~= done.push(entry));
                assert(todo =~= seq![start[i as int]] + start.subrange(i + 1, n as int));
                assert(before.len() == n + extra.len());
                let more = seconds(start.subrange(0, i + 1));
                match second {
                    Some(other) => {
                        assert(more == extra.push((other.value, amount as nat)));
                        assert(self@ =~= before.update(i as int, entry).push(
                            (other.value, amount as nat),
                        ));
                    },
                    None => {
                        assert(more == extra);
                        assert(self@ =~= before.update(i as int, entry));
                    },
                }
                assert(before =~= (done + todo) + extra);
                assert(self@ =~= (done.push(entry) + start.subrange(i + 1, n as int)) + more);
            }
            i += 1;
        }
        proof {
            assert(old(self)@.subrange(0, n as int) =~= old(self)@);
            assert(firsts(old(self)@).subrange(0, n as int) =~= firsts(old(self)@));
            assert(self@ =~= blinked(old(self)@));
        }
        self.merge();
    }

    /// Makes `n` blinks.
    pub fn blinkn(&mut self, n: usize)
        requires
            forall|k: nat| k < n ==> blink_fits(#[trigger] after_blinks(old(self)@, k)),
        ensures
            final(self)@ == after_blinks(old(self)@, n as nat),
    {
        let mut k: usize = 0;
        while k < n
            invariant
                k <= n,
                forall|j: nat| j < n ==> blink_fits(#[trigger] after_blinks(old(self)@, j)),
                self@ == after_blinks(old(self)@, k as nat),
            decreases n - k,
        {
            self.blink();
            k += 1;
        }
    }

    /// The number of stones.
    pub fn count_stones(&self) -> (count: u128)
        ensures
            count == stone_count(self@),
    {
        let mut count: u128 = 0;
        let mut i: usize = 0;
        while i < self.stones.len()
            invariant
                i <= self.stones.len(),
                count == stone_count(self@.subrange(0, i as int)),
                count <= i * 0xffff_ffff_ffff_ffff,
            decreases self.stones.len() - i,
        {
            proof {
                assert(self@.subrange(0, i + 1).drop_last() =~= self@.subrange(0, i as int));
                assert(self@[i as int].1 == self.stones@[i as int].1);
                assert((i + 1) * 0xffff_ffff_ffff_ffff == i * 0xffff_ffff_ffff_ffff
                    + 0xffff_ffff_ffff_ffff) by (nonlinear_arith);
                assert(i * 0xffff_ffff_ffff_ffff + 0xffff_ffff_ffff_ffff
                    <= 0xffff_ffff_ffff_ffff_ffff_ffff_ffff_ffff) by (nonlinear_arith)
                    requires
                        i <= 0xffff_ffff_ffff_fffe,
                ;
            }
            count = count + self.stones[i].1 as u128;
            i += 1;
        }
        proof {
            assert(self@.subrange(0, i as int) =~= self@);
        }
        count
    }
}

/// The number of stones after `n` blinks.
pub fn count_after(stones: StoneCollection, n: usize) -> (count: u128)
    requires
        forall|k: nat| k < n ==> blink_fits(#[trigger] after_blinks(stones@, k)),
    ensures
        count == stone_count(after_blinks(stones@, n as nat)),
{
    let mut stones = stones;
    stones.blinkn(n);
    stones.count_stones()
}

/// The number of stones after twenty-five blinks.
pub fn part1(stones: StoneCollection) -> (count: u128)
    requires
        forall|k: nat| k < 25 ==> blink_fits(#[trigger] after_blinks(stones@, k)),
    ensures
        count == stone_count(after_blinks(stones@, 25)),
{
    count_after(stones, 25)
}

/// The number of stones after seventy-five blinks.
pub fn part2(stones: StoneCollection) -> (count: u128)
    requires
        forall|k: nat| k < 75 ==> blink_fits(#[trigger] after_blinks(stones@, k)),
    ensures
        count == stone_count(after_blinks(stones@, 75)),
{
    count_after(stones, 75)
}

/// For each word of a text the number of 64 bits that it shows, or what
/// is wrong with it.
pub open spec fn numbers_of(text: Seq<char>) -> Seq<Result<u64, ParseNumberError>> {
    Seq::new(words_of(trimmed(text)).len(), |i: int| u64_of(words_of(trimmed(text))[i]))
}

/// One stone for each number.
pub open spec fn single_stones(values: Seq<u64>) -> Seq<(u64, nat)> {
    Seq::new(values.len(), |i: int| (values[i], 1nat))
}

/// The stones that a text names, one for each of its words; else what is
/// wrong with the first word that is no number.
pub fn load_stones(text: &str) -> (r: Result<StoneCollection, ParseNumberError>)
    ensures
        match r {
            Ok(stones) => match collect_spec(numbers_of(text@)) {
                Ok(values) => stones@ == single_stones(values),
                Err(_) => false,
            },
            Err(e) => collect_spec(numbers_of(text@)) == Err::<Seq<u64>, ParseNumberError>(e),
        },
{
    let words = split_whitespace(&trim(&chars_of(text)));
    let results = MapParse::<u64>::parse(words);
    proof {
        assert(results@ =~= numbers_of(text@));
    }
    let values = match results.collect_result() {
        Ok(values) => values,
        Err(e) => {
            return Err(e);
        },
    };
    let mut stones: Vec<(Stone, u64)> = Vec::new();
    let mut i: usize = 0;
    while i < values.len()
        invariant
            i <= values.len(),
            stones@.len() == i,
            entries_of(stones@) == single_stones(values@.subrange(0, i as int)),
        decreases values.len() - i,
    {
        let ghost held = stones@;
        stones.push((Stone { value: values[i] }, 1));
        proof {
            let first = values@.subrange(0, i as int);
            let more = values@.subrange(0, i + 1);
            assert(stones@ == held.push((Stone { value: values@[i as int] }, 1u64)));
            assert(more =~= first.push(values@[i as int]));
            assert forall|k: int| 0 <= k < more.len() implies entries_of(stones@)[k]
                == single_stones(more)[k] by {
                if k < i {
                    assert(entries_of(held)[k] == single_stones(first)[k]);
                    assert(stones@[k] == held[k]);
                }
            }
            assert(entries_of(stones@) =~= single_stones(more));
        }
        i += 1;
    }
    proof {
        assert(values@.subrange(0, i as int) =~= values@);
    }
    Ok(StoneCollection { stones })
}

} // verus!
