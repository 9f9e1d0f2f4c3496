use vstd::prelude::*;
use crate::number_list::NumberList;
use crate::text::{ParseNumberError, u32s_of, words_of};
use crate::utilities::{IteratorWithout, collect_spec, without_at};
use crate::utilities::count_matching;

verus! {

/// A report: a row of levels.
#[derive(Debug)]
pub struct Report {
    numbers: NumberList<u32>,
}

impl View for Report {
    type V = Seq<u32>;

    closed spec fn view(&self) -> Seq<u32> {
        self.numbers@
    }
}

/// How far apart two levels are.
pub open spec fn gap(a: u32, b: u32) -> int {
    if a < b {
        b - a
    } else {
        a - b
    }
}

/// Whether a row of levels is safe: it has two levels at least, neighbours
/// are one to three apart, and the levels all rise or all fall.
pub open spec fn safe(levels: Seq<u32>) -> bool {
    &&& levels.len() >= 2
    &&& forall|i: int|
        0 <= i < levels.len() - 1 ==> 1 <= gap(#[trigger] levels[i], levels[i + 1]) <= 3 && (
        levels[i] < levels[i + 1]) == (levels[0] < levels[1])
}

/// Whether a row of levels is safe as it is or with one level left out.
pub open spec fn safe_one_tolerance(levels: Seq<u32>) -> bool {
    safe(levels) || exists|i: usize| i < levels.len() && safe(#[trigger] without_at(levels, i))
}

/// How far apart two levels are, and whether the second is the higher.
pub fn difference(x: u32, y: u32) -> (r: (u32, bool))
    ensures
        r.0 == gap(x, y),
        r.1 == (x < y),
{
    if x < y {
        (y - x, true)
    } else {
        (x - y, false)
    }
}

/// Whether the levels of `levels` are safe.
pub fn is_safe(levels: &Vec<u32>) -> (r: bool)
    ensures
        r == safe(levels@),
{
    if levels.len() < 2 {
        return false;
    }
    let (first_diff, first_rising) = difference(levels[0], levels[1]);
    if first_diff > 3 || first_diff == 0 {
        return false;
    }
    let mut i: usize = 1;
    while i < levels.len() - 1
        invariant
            1 <= i <= levels.len() - 1,
            levels.len() >= 2,
            first_rising == (levels@[0] < levels@[1]),
            forall|j: int|
                0 <= j < i ==> 1 <= gap(#[trigger] levels@[j], levels@[j + 1]) <= 3 && (levels@[j]
                    < levels@[j + 1]) == (levels@[0] < levels@[1]),
        decreases levels.len() - i,
    {
        let (diff, rising) = difference(levels[i], levels[i + 1]);
        if !(rising == first_rising && diff <= 3 && diff >= 1) {
            return false;
        }
        i += 1;
    }
    true
}

impl Report {
    /// The report with the levels of `numbers`.
    pub fn new(numbers: NumberList<u32>) -> (r: Self)
        ensures
            r@ == numbers@,
    {
        Self { numbers }
    }

    /// The report with the levels that the words of the text show; else
    /// what is wrong with the first word that shows none.
    pub fn from_text(s: &str) -> (r: Result<Self, ParseNumberError>)
        ensures
            match r {
                Ok(report) => collect_spec(u32s_of(words_of(s@))) == Ok::<
                    Seq<u32>,
                    ParseNumberError,
                >(report@),
                Err(e) => collect_spec(u32s_of(words_of(s@))) == Err::<Seq<u32>, ParseNumberError>(
                    e,
                ),
            },
    {
        match NumberList::<u32>::from_text(s) {
            Ok(numbers) => Ok(Self { numbers }),
            Err(e) => Err(e),
        }
    }

    /// The report with the levels of the list, or the error that came in
    /// place of the list.
    pub fn new_result<E>(a: Result<Vec<u32>, E>) -> (r: Result<Self, E>)
        ensures
            match (a, r) {
                (Ok(levels), Ok(report)) => report@ == levels@,
                (Err(e), Err(f)) => e == f,
                _ => false,
            },
    {
        match a {
            Ok(v) => Ok(Self::new(NumberList::new(v))),
            Err(e) => Err(e),
        }
    }

    /// Whether the report is safe as it stands.
    pub fn is_safe_zero_tolerance(&self) -> (r: bool)
        ensures
            r == safe(self@),
    {
        is_safe(&self.numbers)
    }

    /// Whether the report is safe as it stands or with one level left out.
    pub fn is_safe_one_tolerance(&self) -> (r: bool)
        ensures
            r == safe_one_tolerance(self@),
    {
        if self.is_safe_zero_tolerance() {
            return true;
        }
        let mut i: usize = self.numbers.len();
        while i > 0
            invariant
                i <= self@.len(),
                !safe(self@),
                forall|j: usize| i <= j < self@.len() ==> !safe(#[trigger] without_at(self@, j)),
            decreases i,
        {
            i -= 1;
            let rest = self.numbers.without(i);
            if is_safe(&rest) {
                return true;
            }
        }
        false
    }
}

/// The test for a report that is safe as it stands.
pub open spec fn safe_report() -> spec_fn(Report) -> bool {
    |r: Report| safe(r@)
}

/// The test for a report that is safe as it stands or with one level left
/// out.
pub open spec fn nearly_safe_report() -> spec_fn(Report) -> bool {
    |r: Report| safe_one_tolerance(r@)
}

/// The number of reports that are safe as they stand.
pub fn part1(data: &Vec<Report>) -> (n: usize)
    ensures
        n == count_matching(data@, safe_report()),
{
    let ghost wanted = safe_report();
    let mut n: usize = 0;
    let mut i: usize = 0;
    while i < data.len()
        invariant
            i <= data.len(),
            n <= i,
            wanted == safe_report(),
            n == count_matching(data@.subrange(0, i as int), wanted),
        decreases data.len() - i,
    {
        proof {
            assert(data@.subrange(0, i + 1).drop_last() =~= data@.subrange(0, i as int));
        }
        if data[i].is_safe_zero_tolerance() {
            n += 1;
        }
        i += 1;
    }
    proof {
        assert(data@.subrange(0, i as int) =~= data@);
    }
    n
}

/// The number of reports that are safe as they stand or with one level
/// left out.
pub fn part2(data: &Vec<Report>) -> (n: usize)
    ensures
        n == count_matching(data@, nearly_safe_report()),
{
    let ghost wanted = nearly_safe_report();
    let mut n: usize = 0;
    let mut i: usize = 0;
    while i < data.len()
        invariant
            i <= data.len(),
            n <= i,
            wanted == nearly_safe_report(),
            n == count_matching(data@.subrange(0, i as int), wanted),
        decreases data.len() - i,
    {
        proof {
            assert(data@.subrange(0, i + 1).drop_last() =~= data@.subrange(0, i as int));
        }
        if data[i].is_safe_one_tolerance() {
            n += 1;
        }
        i += 1;
    }
    proof {
        assert(data@.subrange(0, i as int) =~= data@);
    }
    n
}

impl std::str::FromStr for Report {
    type Err = ParseNumberError;

    /// The report with the levels that the words of the text show; else
    /// what is wrong with the first word that shows none.
    fn from_str(s: &str) -> (r: Result<Self, ParseNumberError>)
        ensures
            match r {
                Ok(report) => collect_spec(u32s_of(words_of(s@))) == Ok::<
                    Seq<u32>,
                    ParseNumberError,
                >(report@),
                Err(e) => collect_spec(u32s_of(words_of(s@))) == Err::<Seq<u32>, ParseNumberError>(
                    e,
                ),
            },
    {
        Report::from_text(s)
    }
}

} // verus!
