use vstd::prelude::*;
use std::collections::HashSet;
use crate::text::{
    ParseNumberError,
    chars_of,
    copy_range,
    find_char,
    first_at,
    parse_u32,
    same_as,
    trim,
    trimmed,
    u32_of,
};

verus! {

broadcast use vstd::std_specs::hash::group_hash_axioms;

/// One rule: page `a` comes before page `b`.
#[derive(PartialEq, Eq, Structural, Debug, Clone, Copy)]
pub struct PageOrderingElement {
    pub a: u32,
    pub b: u32,
}

impl PageOrderingElement {
    /// The rule that `a` comes before `b`.
    pub fn new(a: u32, b: u32) -> (r: Self)
        ensures
            r.a == a,
            r.b == b,
    {
        Self { a, b }
    }

    /// Whether the text, white space at its ends left aside, can be read
    /// as a rule: it holds a `|`, or it is no number at all.
    pub open spec fn readable(s: Seq<char>) -> bool {
        let t = trimmed(s);
        first_at(t, 0, same_as('|')) < t.len() || u32_of(t) is Err
    }

    /// The rule that the text `a|b` shows, white space at its ends left
    /// aside, or what is wrong with the first of the two numbers that is
    /// none.
    pub open spec fn from_text_spec(s: Seq<char>) -> Result<PageOrderingElement, ParseNumberError> {
        let t = trimmed(s);
        let bar = first_at(t, 0, same_as('|'));
        if bar >= t.len() {
            Err(u32_of(t)->Err_0)
        } else {
            match (u32_of(t.subrange(0, bar)), u32_of(t.subrange(bar + 1, t.len() as int))) {
                (Ok(a), Ok(b)) => Ok(PageOrderingElement { a, b }),
                (Err(e), _) => Err(e),
                (_, Err(e)) => Err(e),
            }
        }
    }

    /// Reads a rule `a|b` from the text.
    pub fn from_text(s: &str) -> (r: Result<Self, ParseNumberError>)
        requires
            Self::readable(s@),
        ensures
            r == Self::from_text_spec(s@),
    {
        let t = trim(&chars_of(s));
        let bar = find_char(&t, 0, '|');
        if bar >= t.len() {
            return match parse_u32(&t) {
                Ok(_) => unreached(),
                Err(e) => Err(e),
            };
        }
        let a = match parse_u32(&copy_range(&t, 0, bar)) {
            Ok(a) => a,
            Err(e) => {
                return Err(e);
            },
        };
        match parse_u32(&copy_range(&t, bar + 1, t.len())) {
            Ok(b) => Ok(Self { a, b }),
            Err(e) => Err(e),
        }
    }

    /// The rule as a pair, the earlier page first.
    pub fn into_pair(self) -> (r: (u32, u32))
        ensures
            r == (self.a, self.b),
    {
        (self.a, self.b)
    }
}

/// The number that stands for the pair of pages in the table of rules.
pub open spec fn pair_key(a: u32, b: u32) -> u64 {
    (a * 0x1_0000_0000 + b) as u64
}

/// Different pairs have different keys.
pub proof fn lemma_pair_key_injective(a: u32, b: u32, c: u32, d: u32)
    requires
        pair_key(a, b) == pair_key(c, d),
    ensures
        a == c,
        b == d,
{
}

/// The rules that tell which page comes before which.
#[derive(Debug)]
pub struct PageOrdering {
    data: HashSet<u64>,
}

impl View for PageOrdering {
    type V = Set<(u32, u32)>;

    closed spec fn view(&self) -> Set<(u32, u32)> {
        Set::new(|p: (u32, u32)| self.data@.contains(pair_key(p.0, p.1)))
    }
}

/// The pairs that a list of rules holds.
pub open spec fn rule_pairs(rules: Seq<PageOrderingElement>) -> Set<(u32, u32)> {
    Set::new(
        |p: (u32, u32)|
            exists|i: int| 0 <= i < rules.len() && (#[trigger] rules[i]).a == p.0 && rules[i].b == p.1,
    )
}

/// Whether a row of pages is in the right order: of two neighbours that
/// differ, no rule puts the second before the first.
pub open spec fn in_right_order(rules: Set<(u32, u32)>, update: Seq<u32>) -> bool {
    forall|i: int|
        0 <= i < update.len() - 1 ==> #[trigger] update[i] == update[i + 1] || !rules.contains(
            (update[i + 1], update[i]),
        )
}

/// The key of the pair of pages.
fn key_of(a: u32, b: u32) -> (k: u64)
    ensures
        k == pair_key(a, b),
{
    (a as u64) * 0x1_0000_0000 + (b as u64)
}

impl PageOrdering {
    /// The rules of `data`.
    pub fn new(data: Vec<PageOrderingElement>) -> (r: Self)
        ensures
            r@ == rule_pairs(data@),
    {
        let mut set: HashSet<u64> = HashSet::new();
        let mut i: usize = 0;
        while i < data.len()
            invariant
                i <= data.len(),
                forall|k: u64|
                    set@.contains(k) <==> exists|j: int|
                        0 <= j < i && pair_key((#[trigger] data@[j]).a, data@[j].b) == k,
            decreases data.len() - i,
        {
            let pair = data[i].into_pair();
            let ghost before = set@;
            set.insert(key_of(pair.0, pair.1));
            proof {
                assert forall|k: u64|
                    set@.contains(k) <==> exists|j: int|
                        0 <= j < i + 1 && pair_key((#[trigger] data@[j]).a, data@[j].b) == k by {
                    if set@.contains(k) {
                        if before.contains(k) {
                            let j = choose|j: int|
                                0 <= j < i && pair_key((#[trigger] data@[j]).a, data@[j].b) == k;
                            assert(0 <= j < i + 1);
                        } else {
                            assert(pair_key(data@[i as int].a, data@[i as int].b) == k);
                        }
                    }
                    if exists|j: int|
                        0 <= j < i + 1 && pair_key((#[trigger] data@[j]).a, data@[j].b) == k {
                        let j = choose|j: int|
                            0 <= j < i + 1 && pair_key((#[trigger] data@[j]).a, data@[j].b) == k;
                        if j < i {
                            assert(before.contains(k));
                        }
                    }
                }
            }
            i += 1;
        }
        let r = Self { data: set };
        proof {
            assert forall|p: (u32, u32)| r@.contains(p) <==> rule_pairs(data@).contains(p) by {
                if r@.contains(p) {
                    let j = choose|j: int|
                        0 <= j < data@.len() && pair_key((#[trigger] data@[j]).a, data@[j].b)
                            == pair_key(p.0, p.1);
                    lemma_pair_key_injective(data@[j].a, data@[j].b, p.0, p.1);
                }
                if rule_pairs(data@).contains(p) {
                    let j = choose|j: int|
                        0 <= j < data@.len() && (#[trigger] data@[j]).a == p.0 && data@[j].b == p.1;
                    assert(pair_key(data@[j].a, data@[j].b) == pair_key(p.0, p.1));
                }
            }
            assert(r@ =~= rule_pairs(data@));
        }
        r
    }

    /// Whether page `a` may come before page `b`: no rule puts `b` before
    /// `a`.
    pub fn should_be_before(&self, a: u32, b: u32) -> (r: bool)
        ensures
            r == !self@.contains((b, a)),
    {
        let key = key_of(b, a);
        !self.data.contains(&key)
    }
}

/// The page in the middle of the row.
pub fn get_middle(data: Vec<u32>) -> (r: u32)
    requires
        data@.len() > 0,
    ensures
        r == data@[data@.len() as int / 2],
{
    data[data.len() / 2]
}

/// Whether the pages of `update` stand in an order that the rules allow.
pub fn is_in_right_order(page_ordering: &PageOrdering, update: &Vec<u32>) -> (r: bool)
    ensures
        r == in_right_order(page_ordering@, update@),
{
    if update.len() < 2 {
        return true;
    }
    let mut i: usize = 0;
    while i < update.len() - 1
        invariant
            update.len() >= 2,
            i <= update.len() - 1,
            forall|j: int|
                0 <= j < i ==> #[trigger] update@[j] == update@[j + 1] || !page_ordering@.contains(
                    (update@[j + 1], update@[j]),
                ),
        decreases update.len() - i,
    {
        let a = update[i];
        let b = update[i + 1];
        if !(a == b || page_ordering.should_be_before(a, b)) {
            return false;
        }
        i += 1;
    }
    true
}

/// The page in the middle of a row of pages.
pub open spec fn middle(update: Seq<u32>) -> u32 {
    update[update.len() as int / 2]
}

/// The sum of the middle pages of the rows that are in the right order.
pub open spec fn sum_of_middles(rules: Set<(u32, u32)>, updates: Seq<Vec<u32>>) -> nat
    decreases updates.len(),
{
    if updates.len() == 0 {
        0
    } else {
        sum_of_middles(rules, updates.drop_last()) + if in_right_order(rules, updates.last()@) {
            middle(updates.last()@) as nat
        } else {
            0nat
        }
    }
}

/// The sum over the first rows is no more than the sum over all.
pub proof fn lemma_sum_of_middles_grows(rules: Set<(u32, u32)>, updates: Seq<Vec<u32>>, i: int)
    requires
        0 <= i <= updates.len(),
    ensures
        sum_of_middles(rules, updates.subrange(0, i)) <= sum_of_middles(rules, updates),
    decreases updates.len() - i,
{
    if i < updates.len() {
        lemma_sum_of_middles_grows(rules, updates, i + 1);
        assert(updates.subrange(0, i + 1).drop_last() =~= updates.subrange(0, i));
    } else {
        assert(updates.subrange(0, i) =~= updates);
    }
}

/// The sum of the middle pages of the rows that are in the right order.
pub fn part1(page_ordering: &PageOrdering, updates: &Vec<Vec<u32>>) -> (sum: u32)
    requires
        forall|i: int| 0 <= i < updates@.len() ==> (#[trigger] updates@[i])@.len() > 0,
        sum_of_middles(page_ordering@, updates@) <= u32::MAX,
    ensures
        sum == sum_of_middles(page_ordering@, updates@),
{
    let mut sum: u32 = 0;
    let mut i: usize = 0;
    while i < updates.len()
        invariant
            i <= updates.len(),
            forall|j: int| 0 <= j < updates@.len() ==> (#[trigger] updates@[j])@.len() > 0,
            sum_of_middles(page_ordering@, updates@) <= u32::MAX,
            sum == sum_of_middles(page_ordering@, updates@.subrange(0, i as int)),
        decreases updates.len() - i,
    {
        proof {
            lemma_sum_of_middles_grows(page_ordering@, updates@, i + 1);
            assert(updates@.subrange(0, i + 1).drop_last() =~= updates@.subrange(0, i as int));
        }
        let update = &updates[i];
        if is_in_right_order(page_ordering, update) {
            sum = sum + update[update.len() / 2];
        }
        i += 1;
    }
    proof {
        assert(updates@.subrange(0, i as int) =~= updates@);
    }
    sum
}

/// Whether page `a` may stand before page `b`: they are the same page, or
/// no rule puts `b` before `a`.
pub open spec fn may_precede(rules: Set<(u32, u32)>, a: u32, b: u32) -> bool {
    a == b || !rules.contains((b, a))
}

/// Whether the rules put the pages of `pages` in one order: of two
/// different pages exactly one may stand before the other, and what may
/// stand before a page may stand before all that the page may stand before.
pub open spec fn orders_pages(rules: Set<(u32, u32)>, pages: Seq<u32>) -> bool {
    &&& forall|a: u32, b: u32|
        pages.contains(a) && pages.contains(b) && a != b ==> (#[trigger] may_precede(rules, a, b)
            != #[trigger] may_precede(rules, b, a))
    &&& forall|a: u32, b: u32, c: u32|
        pages.contains(a) && pages.contains(b) && pages.contains(c) && #[trigger] may_precede(
            rules,
            a,
            b,
        ) && #[trigger] may_precede(rules, b, c) ==> may_precede(rules, a, c)
}

/// Whether each page of the row may stand before all that follow it.
pub open spec fn sorted_by_rules(rules: Set<(u32, u32)>, update: Seq<u32>) -> bool {
    forall|i: int, j: int|
        0 <= i < j < update.len() ==> may_precede(rules, #[trigger] update[i], #[trigger] update[j])
}

/// How the rules compare two pages: equal pages are equal, a page that may
/// stand before another is less, and any other is greater.
pub fn compare_pages(page_ordering: &PageOrdering, a: u32, b: u32) -> (r: std::cmp::Ordering)
    ensures
        (r is Equal) == (a == b),
        (r is Less) == (a != b && may_precede(page_ordering@, a, b)),
{
    if a == b {
        std::cmp::Ordering::Equal
    } else if page_ordering.should_be_before(a, b) {
        std::cmp::Ordering::Less
    } else {
        std::cmp::Ordering::Greater
    }
}

/// Rules that put the pages of a row in one order do so for any row of
/// the same pages.
pub proof fn lemma_orders_same_pages(rules: Set<(u32, u32)>, row: Seq<u32>, other: Seq<u32>)
    requires
        orders_pages(rules, row),
        forall|p: u32| other.contains(p) ==> row.contains(p),
    ensures
        orders_pages(rules, other),
{
}

/// A row of pages has one sorted order only, where the rules put its pages
/// in one order.
pub proof fn lemma_sorted_row_unique(rules: Set<(u32, u32)>, x: Seq<u32>, y: Seq<u32>)
    requires
        orders_pages(rules, x),
        sorted_by_rules(rules, x),
        sorted_by_rules(rules, y),
        x.to_multiset() == y.to_multiset(),
    ensures
        x == y,
    decreases x.len(),
{
    broadcast use vstd::multiset::group_multiset_axioms;
    broadcast use vstd::seq_lib::group_to_multiset_ensures;

    x.to_multiset_ensures();
    y.to_multiset_ensures();
    assert(x.len() == y.len());
    if x.len() > 0 {
        let a = x[0];
        let b = y[0];
        assert(x.to_multiset().contains(a));
        assert(y.to_multiset().contains(b));
        assert(y.contains(a));
        assert(x.contains(b));
        let i = choose|i: int| 0 <= i < x.len() && x[i] == b;
        let k = choose|k: int| 0 <= k < y.len() && y[k] == a;
        if a != b {
            assert(may_precede(rules, x[0], x[i]));
            assert(may_precede(rules, y[0], y[k]));
            assert(x.contains(a));
            assert(may_precede(rules, a, b) != may_precede(rules, b, a));
        }
        let xs = x.drop_first();
        let ys = y.drop_first();
        assert(xs =~= x.remove(0));
        assert(ys =~= y.remove(0));
        vstd::seq_lib::to_multiset_remove(x, 0);
        vstd::seq_lib::to_multiset_remove(y, 0);
        assert(xs.to_multiset() =~= x.to_multiset().remove(a));
        assert(ys.to_multiset() =~= y.to_multiset().remove(b));
        assert forall|p: u32| xs.contains(p) implies x.contains(p) by {
            let m = choose|m: int| 0 <= m < xs.len() && xs[m] == p;
            assert(x[m + 1] == p);
        }
        lemma_orders_same_pages(rules, x, xs);
        assert forall|m: int, n: int| 0 <= m < n < xs.len() implies may_precede(
            rules,
            #[trigger] xs[m],
            #[trigger] xs[n],
        ) by {
            assert(may_precede(rules, x[m + 1], x[n + 1]));
        }
        assert forall|m: int, n: int| 0 <= m < n < ys.len() implies may_precede(
            rules,
            #[trigger] ys[m],
            #[trigger] ys[n],
        ) by {
            assert(may_precede(rules, y[m + 1], y[n + 1]));
        }
        lemma_sorted_row_unique(rules, xs, ys);
        assert(x =~= seq![a] + xs);
        assert(y =~= seq![b] + ys);
    }
}

/// The pages of the row in the order of the rules.
pub open spec fn sorted_row(rules: Set<(u32, u32)>, row: Seq<u32>) -> Seq<u32> {
    choose|sorted: Seq<u32>|
        sorted.to_multiset() == row.to_multiset() && sorted_by_rules(rules, sorted)
}

/// Puts the pages of the row in the order of the rules and returns the row.
pub fn update_list(page_ordering: &PageOrdering, update: &mut Vec<u32>) -> (sorted: Vec<u32>)
    requires
        orders_pages(page_ordering@, old(update)@),
    ensures
        sorted@ == final(update)@,
        sorted@ == sorted_row(page_ordering@, old(update)@),
        sorted@.to_multiset() == old(update)@.to_multiset(),
        sorted_by_rules(page_ordering@, sorted@),
{
    broadcast use vstd::multiset::group_multiset_axioms;

    let ghost rules = page_ordering@;
    let mut i: usize = 1;
    proof {
        old(update)@.to_multiset_ensures();
    }
    while i < update.len()
        invariant
            rules == page_ordering@,
            orders_pages(rules, old(update)@),
            update@.len() == old(update)@.len(),
            update@.to_multiset() == old(update)@.to_multiset(),
            forall|k: int| 0 <= k < update@.len() ==> old(update)@.contains(#[trigger] update@[k]),
            forall|a: int, b: int|
                0 <= a < b < i && b < update@.len() ==> may_precede(
                    rules,
                    #[trigger] update@[a],
                    #[trigger] update@[b],
                ),
        decreases update.len() - i,
    {
        let mut j: usize = i;
        while j > 0 && follows(page_ordering, update[j - 1], update[j])
            invariant
                rules == page_ordering@,
                orders_pages(rules, old(update)@),
                0 <= j <= i < update@.len(),
                update@.len() == old(update)@.len(),
                update@.to_multiset() == old(update)@.to_multiset(),
                forall|k: int|
                    0 <= k < update@.len() ==> old(update)@.contains(#[trigger] update@[k]),
                forall|a: int, b: int|
                    0 <= a < b <= i && b != j ==> may_precede(
                        rules,
                        #[trigger] update@[a],
                        #[trigger] update@[b],
                    ),
            decreases j,
        {
            let ghost before = update@;
            let low = update[j];
            let high = update[j - 1];
            proof {
                assert(old(update)@.contains(before[j as int]));
                assert(old(update)@.contains(before[j - 1]));
                assert(may_precede(rules, low, high) != may_precede(rules, high, low));
            }
            update.set(j - 1, low);
            update.set(j, high);
            proof {
                let half = before.update(j - 1, low);
                assert(update@ == half.update(j as int, high));
                vstd::seq_lib::to_multiset_update(before, j - 1, low);
                vstd::seq_lib::to_multiset_update(half, j as int, high);
                before.to_multiset_ensures();
                assert(before.to_multiset().contains(before[j as int]));
                assert(before.to_multiset().contains(before[j - 1]));
                assert(update@.to_multiset() =~= before.to_multiset());
                assert forall|a: int, b: int| 0 <= a < b <= i && b != j - 1 implies may_precede(
                    rules,
                    #[trigger] update@[a],
                    #[trigger] update@[b],
                ) by {
                    let a0 = if a == j - 1 { j as int } else if a == j { j - 1 } else { a };
                    let b0 = if b == j { j - 1 } else { b };
                    if a == j - 1 && b == j {
                    } else {
                        assert(may_precede(rules, before[a0], before[b0]));
                    }
                }
            }
            j -= 1;
        }
        i += 1;
    }
    let sorted = update.clone();
    proof {
        assert(sorted@ =~= update@);
        assert(sorted_by_rules(rules, sorted@));
        let chosen = sorted_row(rules, old(update)@);
        assert forall|p: u32| sorted@.contains(p) implies old(update)@.contains(p) by {
            let k = choose|k: int| 0 <= k < sorted@.len() && sorted@[k] == p;
            assert(old(update)@.contains(update@[k]));
        }
        lemma_orders_same_pages(rules, old(update)@, sorted@);
        lemma_sorted_row_unique(rules, sorted@, chosen);
    }
    sorted
}

/// Whether the rules put page `a` behind page `b`.
pub fn follows(page_ordering: &PageOrdering, a: u32, b: u32) -> (r: bool)
    ensures
        r == !may_precede(page_ordering@, a, b),
{
    match compare_pages(page_ordering, a, b) {
        std::cmp::Ordering::Greater => true,
        _ => false,
    }
}

/// The sum of the middle pages of the rows that are not in the right
/// order, after each has been put in the order of the rules.
pub open spec fn sum_of_sorted_middles(rules: Set<(u32, u32)>, updates: Seq<Vec<u32>>) -> nat
    decreases updates.len(),
{
    if updates.len() == 0 {
        0
    } else {
        sum_of_sorted_middles(rules, updates.drop_last()) + if !in_right_order(
            rules,
            updates.last()@,
        ) {
            middle(sorted_row(rules, updates.last()@)) as nat
        } else {
            0nat
        }
    }
}

/// The sum over the first rows is no more than the sum over all.
pub proof fn lemma_sum_of_sorted_middles_grows(
    rules: Set<(u32, u32)>,
    updates: Seq<Vec<u32>>,
    i: int,
)
    requires
        0 <= i <= updates.len(),
    ensures
        sum_of_sorted_middles(rules, updates.subrange(0, i)) <= sum_of_sorted_middles(
            rules,
            updates,
        ),
    decreases updates.len() - i,
{
    if i < updates.len() {
        lemma_sum_of_sorted_middles_grows(rules, updates, i + 1);
        assert(updates.subrange(0, i + 1).drop_last() =~= updates.subrange(0, i));
    } else {
        assert(updates.subrange(0, i) =~= updates);
    }
}

/// The sum of the middle pages of the rows that are not in the right
/// order, after each has been put in the order of the rules.
pub fn part2(page_ordering: &PageOrdering, updates: Vec<Vec<u32>>) -> (sum: u32)
    requires
        forall|i: int|
            0 <= i < updates@.len() ==> (#[trigger] updates@[i])@.len() > 0 && orders_pages(
                page_ordering@,
                updates@[i]@,
            ),
        sum_of_sorted_middles(page_ordering@, updates@) <= u32::MAX,
    ensures
        sum == sum_of_sorted_middles(page_ordering@, updates@),
{
    let mut sum: u32 = 0;
    let mut i: usize = 0;
    while i < updates.len()
        invariant
            i <= updates.len(),
            forall|j: int|
                0 <= j < updates@.len() ==> (#[trigger] updates@[j])@.len() > 0 && orders_pages(
                    page_ordering@,
                    updates@[j]@,
                ),
            sum_of_sorted_middles(page_ordering@, updates@) <= u32::MAX,
            sum == sum_of_sorted_middles(page_ordering@, updates@.subrange(0, i as int)),
        decreases updates.len() - i,
    {
        proof {
            lemma_sum_of_sorted_middles_grows(page_ordering@, updates@, i + 1);
            assert(updates@.subrange(0, i + 1).drop_last() =~= updates@.subrange(0, i as int));
        }
        if !is_in_right_order(page_ordering, &updates[i]) {
            let mut update = updates[i].clone();
            proof {
                assert(update@ =~= updates@[i as int]@);
                update@.to_multiset_ensures();
            }
            let sorted = update_list(page_ordering, &mut update);
            proof {
                sorted@.to_multiset_ensures();
            }
            sum = sum + get_middle(sorted);
        }
        i += 1;
    }
    proof {
        assert(updates@.subrange(0, i as int) =~= updates@);
    }
    sum
}

} // verus!
