use vstd::prelude::*;
use vstd::relations::{sorted_by, total_ordering};
use vstd::seq_lib::lemma_sorted_unique;
use crate::text::{
    chars_of,
    copy_range,
    find_space,
    first_at,
    i64_of,
    lines_of,
    parse_i64,
    space,
    trim,
    trimmed,
    trimmed_lines,
    views,
};
use crate::utilities::count_matching;

verus! {

/// The order of the whole numbers.
pub open spec fn at_most() -> spec_fn(i64, i64) -> bool {
    |a: i64, b: i64| a <= b
}

/// The numbers of the list in ascending order.
pub open spec fn ascending(numbers: Seq<i64>) -> Seq<i64> {
    numbers.sort_by(at_most())
}

/// The order of the whole numbers puts any two of them in order.
pub proof fn lemma_at_most_is_total()
    ensures
        total_ordering(at_most()),
{
    assert(vstd::relations::reflexive(at_most()));
    assert(vstd::relations::antisymmetric(at_most()));
    assert(vstd::relations::transitive(at_most()));
    assert(vstd::relations::strongly_connected(at_most()));
}

/// Puts the numbers of the list in ascending order.
pub fn sort_numbers(numbers: &mut Vec<i64>)
    ensures
        final(numbers)@ == ascending(old(numbers)@),
{
    broadcast use vstd::multiset::group_multiset_axioms;

    let mut i: usize = 1;
    while i < numbers.len()
        invariant
            numbers@.len() == old(numbers)@.len(),
            numbers@.to_multiset() == old(numbers)@.to_multiset(),
            forall|a: int, b: int| 0 <= a < b < i && b < numbers@.len() ==> numbers@[a] <= numbers@[b],
        decreases numbers.len() - i,
    {
        let mut j: usize = i;
        while j > 0 && numbers[j - 1] > numbers[j]
            invariant
                0 <= j <= i < numbers@.len(),
                numbers@.len() == old(numbers)@.len(),
                numbers@.to_multiset() == old(numbers)@.to_multiset(),
                forall|a: int, b: int| 0 <= a < b <= i && b != j ==> numbers@[a] <= numbers@[b],
            decreases j,
        {
            let ghost before = numbers@;
            let low = numbers[j];
            let high = numbers[j - 1];
            numbers.set(j - 1, low);
            numbers.set(j, high);
            proof {
                let half = before.update(j - 1, low);
                assert(numbers@ == half.update(j as int, high));
                vstd::seq_lib::to_multiset_update(before, j - 1, low);
                vstd::seq_lib::to_multiset_update(half, j as int, high);
                before.to_multiset_ensures();
                assert(before.to_multiset().contains(before[j as int]));
                assert(before.to_multiset().contains(before[j - 1]));
                assert(numbers@.to_multiset() =~= before.to_multiset());
            }
            j -= 1;
        }
        i += 1;
    }
    proof {
        lemma_at_most_is_total();
        old(numbers)@.lemma_sort_by_ensures(at_most());
        assert(sorted_by(numbers@, at_most()));
        lemma_sorted_unique(numbers@, ascending(old(numbers)@), at_most());
    }
}

/// How far apart two numbers are.
pub open spec fn gap(a: i64, b: i64) -> nat {
    if a < b {
        (b - a) as nat
    } else {
        (a - b) as nat
    }
}

/// The sum of the gaps between the numbers that stand at the same place in
/// the two lists, over the first `n` places.
pub open spec fn gaps_upto(a: Seq<i64>, b: Seq<i64>, n: nat) -> nat
    decreases n,
{
    if n == 0 || n > a.len() || n > b.len() {
        0
    } else {
        gaps_upto(a, b, (n - 1) as nat) + gap(a[n - 1], b[n - 1])
    }
}

/// The shorter of two lengths.
pub open spec fn shorter(a: nat, b: nat) -> nat {
    if a < b {
        a
    } else {
        b
    }
}

/// The distance between two lists: the gaps between the least numbers of
/// the two, the second least, and so on, all added up.
pub open spec fn distance(l1: Seq<i64>, l2: Seq<i64>) -> nat {
    gaps_upto(ascending(l1), ascending(l2), shorter(l1.len(), l2.len()))
}

/// The sum over fewer places is no more.
pub proof fn lemma_gaps_grow(a: Seq<i64>, b: Seq<i64>, k: nat, n: nat)
    requires
        k <= n <= a.len(),
        n <= b.len(),
    ensures
        gaps_upto(a, b, k) <= gaps_upto(a, b, n),
    decreases n,
{
    if k < n {
        lemma_gaps_grow(a, b, k, (n - 1) as nat);
    }
}

/// The distance between two lists.
pub fn part1(l1: Vec<i64>, l2: Vec<i64>) -> (sum: i64)
    requires
        distance(l1@, l2@) <= i64::MAX,
    ensures
        sum == distance(l1@, l2@),
{
    let mut l1 = l1;
    let mut l2 = l2;
    let ghost n1 = l1@.len();
    let ghost n2 = l2@.len();
    proof {
        lemma_at_most_is_total();
        l1@.lemma_sort_by_ensures(at_most());
        l2@.lemma_sort_by_ensures(at_most());
        l1@.to_multiset_ensures();
        l2@.to_multiset_ensures();
        ascending(l1@).to_multiset_ensures();
        ascending(l2@).to_multiset_ensures();
    }
    sort_numbers(&mut l1);
    sort_numbers(&mut l2);
    let n = if l1.len() < l2.len() {
        l1.len()
    } else {
        l2.len()
    };
    let mut sum: i64 = 0;
    let mut i: usize = 0;
    while i < n
        invariant
            i <= n,
            n <= l1@.len(),
            n <= l2@.len(),
            gaps_upto(l1@, l2@, n as nat) <= i64::MAX,
            sum == gaps_upto(l1@, l2@, i as nat),
        decreases n - i,
    {
        proof {
            lemma_gaps_grow(l1@, l2@, (i + 1) as nat, n as nat);
        }
        let v1 = l1[i];
        let v2 = l2[i];
        let d = if v1 < v2 {
            v2 - v1
        } else {
            v1 - v2
        };
        sum = sum + d;
        i += 1;
    }
    sum
}

/// The test for the number `v`.
pub open spec fn same_number(v: i64) -> spec_fn(i64) -> bool {
    |x: i64| x == v
}

/// The likeness of two lists: each number of the first times how often it
/// stands in the second, all added up.
pub open spec fn likeness(l1: Seq<i64>, l2: Seq<i64>) -> int
    decreases l1.len(),
{
    if l1.len() == 0 {
        0
    } else {
        likeness(l1.drop_last(), l2) + l1.last() * count_matching(l2, same_number(l1.last()))
    }
}

/// The greatest number that the lists may hold, and one more.
pub const NUMBER_LIMIT: usize = 100_000;

/// Whether every number of the list is at least zero and below the limit.
pub open spec fn in_range(numbers: Seq<i64>) -> bool {
    forall|i: int| 0 <= i < numbers.len() ==> 0 <= #[trigger] numbers[i] < NUMBER_LIMIT
}

/// The likeness of the first numbers is no more than that of all, when no
/// number is below zero.
pub proof fn lemma_likeness_grows(l1: Seq<i64>, l2: Seq<i64>, i: int)
    requires
        0 <= i <= l1.len(),
        in_range(l1),
    ensures
        0 <= likeness(l1.subrange(0, i), l2) <= likeness(l1, l2),
    decreases l1.len() - i,
{
    let first = l1.subrange(0, i);
    assert(in_range(first)) by {
        assert forall|k: int| 0 <= k < first.len() implies 0 <= #[trigger] first[k]
            < NUMBER_LIMIT by {
            assert(first[k] == l1[k]);
        }
    }
    lemma_likeness_nonnegative(first, l2);
    if i < l1.len() {
        lemma_likeness_grows(l1, l2, i + 1);
        assert(l1.subrange(0, i + 1).drop_last() =~= first);
        let v = l1[i];
        let c = count_matching(l2, same_number(v));
        assert(v * c >= 0) by (nonlinear_arith)
            requires
                v >= 0,
                c >= 0,
        ;
    } else {
        assert(first =~= l1);
    }
}

/// The likeness of lists without numbers below zero is not below zero.
pub proof fn lemma_likeness_nonnegative(l1: Seq<i64>, l2: Seq<i64>)
    requires
        in_range(l1),
    ensures
        likeness(l1, l2) >= 0,
    decreases l1.len(),
{
    if l1.len() > 0 {
        assert(in_range(l1.drop_last())) by {
            assert forall|i: int| 0 <= i < l1.drop_last().len() implies 0
                <= #[trigger] l1.drop_last()[i] < NUMBER_LIMIT by {
                assert(l1.drop_last()[i] == l1[i]);
            }
        }
        lemma_likeness_nonnegative(l1.drop_last(), l2);
        let v = l1.last();
        let c = count_matching(l2, same_number(v));
        assert(v * c >= 0) by (nonlinear_arith)
            requires
                v >= 0,
                c >= 0,
        ;
    }
}

/// The likeness of two lists of numbers from zero up to the limit.
pub fn part2(l1: Vec<i64>, l2: Vec<i64>) -> (sum: i64)
    requires
        in_range(l1@),
        in_range(l2@),
        l2@.len() <= i64::MAX,
        likeness(l1@, l2@) <= i64::MAX,
    ensures
        sum == likeness(l1@, l2@),
{
    let mut numbers_right: Vec<i64> = Vec::new();
    let mut k: usize = 0;
    while k < NUMBER_LIMIT
        invariant
            k <= NUMBER_LIMIT,
            numbers_right@.len() == k,
            forall|j: int| 0 <= j < k ==> numbers_right@[j] == 0,
        decreases NUMBER_LIMIT - k,
    {
        numbers_right.push(0);
        k += 1;
    }
    let mut i: usize = 0;
    proof {
        assert forall|v: i64| count_matching(l2@.subrange(0, 0), same_number(v)) == 0 by {}
    }
    while i < l2.len()
        invariant
            i <= l2.len(),
            in_range(l2@),
            l2@.len() <= i64::MAX,
            numbers_right@.len() == NUMBER_LIMIT,
            forall|v: i64|
                0 <= v < NUMBER_LIMIT ==> #[trigger] numbers_right@[v as int] == count_matching(
                    l2@.subrange(0, i as int),
                    same_number(v),
                ),
        decreases l2.len() - i,
    {
        let number = l2[i];
        let ghost before = numbers_right@;
        proof {
            crate::utilities::lemma_count_matching_bounded(
                l2@.subrange(0, i as int),
                same_number(number),
            );
            assert(before[number as int] == count_matching(
                l2@.subrange(0, i as int),
                same_number(number),
            ));
        }
        let count = numbers_right[number as usize];
        numbers_right.set(number as usize, count + 1);
        proof {
            assert(l2@.subrange(0, i + 1).drop_last() =~= l2@.subrange(0, i as int));
            assert forall|v: i64| 0 <= v < NUMBER_LIMIT implies #[trigger] numbers_right@[v as int]
                == count_matching(l2@.subrange(0, i + 1), same_number(v)) by {
                assert(before[v as int] == count_matching(
                    l2@.subrange(0, i as int),
                    same_number(v),
                ));
            }
        }
        i += 1;
    }
    proof {
        assert(l2@.subrange(0, i as int) =~= l2@);
    }
    let mut sum: i64 = 0;
    let mut j: usize = 0;
    while j < l1.len()
        invariant
            j <= l1.len(),
            in_range(l1@),
            likeness(l1@, l2@) <= i64::MAX,
            numbers_right@.len() == NUMBER_LIMIT,
            forall|v: i64|
                0 <= v < NUMBER_LIMIT ==> #[trigger] numbers_right@[v as int] == count_matching(
                    l2@,
                    same_number(v),
                ),
            sum == likeness(l1@.subrange(0, j as int), l2@),
        decreases l1.len() - j,
    {
        let v = l1[j];
        proof {
            lemma_likeness_grows(l1@, l2@, j as int);
            lemma_likeness_grows(l1@, l2@, j + 1);
            assert(l1@.subrange(0, j + 1).drop_last() =~= l1@.subrange(0, j as int));
            assert(numbers_right@[v as int] == count_matching(l2@, same_number(v)));
        }
        let count = numbers_right[v as usize];
        proof {
            assert(v * count >= 0) by (nonlinear_arith)
                requires
                    v >= 0,
                    count >= 0,
            ;
        }
        sum = sum + v * count;
        j += 1;
    }
    proof {
        assert(l1@.subrange(0, j as int) =~= l1@);
    }
    sum
}

/// The end of the first word of a line that starts with one.
pub open spec fn first_word_end(line: Seq<char>) -> int {
    first_at(line, 0, space())
}

/// The two numbers of a line that holds a number, three blanks and a
/// number, white space at its ends left aside; nothing for any other line.
pub open spec fn pair_of(line: Seq<char>) -> Option<(i64, i64)> {
    let t = trimmed(line);
    let end = first_word_end(t);
    if end + 3 < t.len() && t[end] == ' ' && t[end + 1] == ' ' && t[end + 2] == ' ' {
        match (i64_of(t.subrange(0, end)), i64_of(t.subrange(end + 3, t.len() as int))) {
            (Ok(a), Ok(b)) => Some((a, b)),
            _ => None,
        }
    } else {
        None
    }
}

/// The two numbers of a line that holds a number, three blanks and a
/// number.
pub fn parse_pair(line: &Vec<char>) -> (r: Option<(i64, i64)>)
    ensures
        r == pair_of(line@),
{
    let t = trim(line);
    let end = find_space(&t, 0, true);
    if !(end < t.len() && t.len() - end > 3 && t[end] == ' ' && t[end + 1] == ' ' && t[end + 2]
        == ' ') {
        return None;
    }
    let a = match parse_i64(&copy_range(&t, 0, end)) {
        Ok(a) => a,
        Err(_) => {
            return None;
        },
    };
    match parse_i64(&copy_range(&t, end + 3, t.len())) {
        Ok(b) => Some((a, b)),
        Err(_) => None,
    }
}

/// The two lists that the lines of the text hold side by side, white space
/// at the ends of the text left aside; nothing where some line does not
/// hold a number, three blanks and a number.
pub fn get_list(input: &str) -> (r: Option<(Vec<i64>, Vec<i64>)>)
    ensures
        match r {
            Some((l1, l2)) => {
                &&& l1@.len() == lines_of(trimmed(input@)).len()
                &&& l2@.len() == l1@.len()
                &&& forall|i: int|
                    0 <= i < l1@.len() ==> pair_of(#[trigger] lines_of(trimmed(input@))[i]) == Some(
                        (l1@[i], l2@[i]),
                    )
            },
            None => exists|i: int|
                0 <= i < lines_of(trimmed(input@)).len() && pair_of(
                    #[trigger] lines_of(trimmed(input@))[i],
                ) is None,
        },
{
    let lines = trimmed_lines(&chars_of(input));
    let mut l1: Vec<i64> = Vec::new();
    let mut l2: Vec<i64> = Vec::new();
    let mut i: usize = 0;
    while i < lines.len()
        invariant
            views(lines@) == lines_of(trimmed(input@)),
            i <= lines.len(),
            l1@.len() == i,
            l2@.len() == i,
            forall|k: int|
                0 <= k < i ==> pair_of(#[trigger] lines_of(trimmed(input@))[k]) == Some(
                    (l1@[k], l2@[k]),
                ),
        decreases lines.len() - i,
    {
        proof {
            assert(views(lines@)[i as int] == lines@[i as int]@);
        }
        match parse_pair(&lines[i]) {
            Some((num1, num2)) => {
                l1.push(num1);
                l2.push(num2);
            },
            None => {
                return None;
            },
        }
        i += 1;
    }
    proof {
        assert(views(lines@).len() == lines@.len());
    }
    Some((l1, l2))
}

} // verus!
