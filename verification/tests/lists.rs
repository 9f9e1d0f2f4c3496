use grid_patrol::equation::Equation;
use grid_patrol::lists;
use grid_patrol::lists::{get_list, parse_pair, sort_numbers};
use grid_patrol::number_list::NumberList;
use grid_patrol::page_ordering;
use grid_patrol::page_ordering::{follows, PageOrdering, PageOrderingElement};
use grid_patrol::report::Report;
use grid_patrol::text::{parse_i64, ParseNumberError};

#[test]
fn numbers_are_sorted() {
    let mut v = vec![3, -1, 4, 1, -5, 9, 2, 6, 5, 3, 5];
    sort_numbers(&mut v);
    assert_eq!(v, vec![-5, -1, 1, 2, 3, 3, 4, 5, 5, 6, 9]);
    let mut v: Vec<i64> = vec![];
    sort_numbers(&mut v);
    assert_eq!(v, vec![]);
    let mut v = vec![i64::MAX, i64::MIN, 0];
    sort_numbers(&mut v);
    assert_eq!(v, vec![i64::MIN, 0, i64::MAX]);
}

#[test]
fn distance_and_likeness() {
    let l1 = vec![3, 4, 2, 1, 3, 3];
    let l2 = vec![4, 3, 5, 3, 9, 3];
    assert_eq!(lists::part1(l1.clone(), l2.clone()), 11);
    assert_eq!(lists::part2(l1, l2), 31);
    assert_eq!(lists::part1(vec![], vec![]), 0);
    assert_eq!(lists::part1(vec![5, 1], vec![3]), 2);
    assert_eq!(lists::part1(vec![-3], vec![4]), 7);
    assert_eq!(lists::part2(vec![], vec![1]), 0);
    assert_eq!(lists::part2(vec![99_999, 0, 7], vec![99_999, 99_999, 0]), 199_998);
}

fn sample_rules() -> PageOrdering {
    let pairs = [
        (47, 53), (97, 13), (97, 61), (97, 47), (75, 29), (61, 13), (75, 53), (29, 13), (97, 29),
        (53, 29), (61, 53), (97, 53), (61, 29), (47, 13), (75, 47), (97, 75), (47, 61), (75, 61),
        (47, 29), (75, 13), (53, 13),
    ];
    PageOrdering::new(pairs.iter().map(|&(a, b)| PageOrderingElement::new(a, b)).collect())
}

#[test]
fn wrong_rows_are_sorted_and_summed() {
    let rules = sample_rules();
    let updates = vec![
        vec![75, 47, 61, 53, 29],
        vec![97, 61, 53, 29, 13],
        vec![75, 29, 13],
        vec![75, 97, 47, 61, 53],
        vec![61, 13, 29],
        vec![97, 13, 75, 29, 47],
    ];
    assert_eq!(page_ordering::part2(&rules, updates), 123);
    assert_eq!(page_ordering::part2(&rules, vec![]), 0);
    assert!(follows(&rules, 53, 47));
    assert!(!follows(&rules, 47, 53));
    assert!(!follows(&rules, 47, 47));
}

#[test]
fn rules_are_read() {
    assert_eq!(PageOrderingElement::from_text("47|53"), Ok(PageOrderingElement::new(47, 53)));
    assert_eq!(PageOrderingElement::from_text("  1|2\n"), Ok(PageOrderingElement::new(1, 2)));
    assert_eq!(PageOrderingElement::from_text("a|2"), Err(ParseNumberError::InvalidDigit));
    assert_eq!(PageOrderingElement::from_text("1|"), Err(ParseNumberError::Empty));
    assert_eq!(PageOrderingElement::from_text("|"), Err(ParseNumberError::Empty));
    assert_eq!(PageOrderingElement::from_text("1|2|3"), Err(ParseNumberError::InvalidDigit));
    assert_eq!(PageOrderingElement::from_text("1| 2"), Err(ParseNumberError::InvalidDigit));
    assert_eq!(PageOrderingElement::from_text(""), Err(ParseNumberError::Empty));
    assert_eq!(PageOrderingElement::from_text("x"), Err(ParseNumberError::InvalidDigit));
    assert_eq!(
        PageOrderingElement::from_text("4294967296|1"),
        Err(ParseNumberError::PosOverflow)
    );
}

#[test]
fn equations_are_read() {
    let e = Equation::from_text("190: 10 19").unwrap();
    assert_eq!(e.result, 190);
    assert_eq!(e.values, vec![10, 19]);
    let e = Equation::from_text("  7:   1  2 3 \n").unwrap();
    assert_eq!((e.result, e.values), (7, vec![1, 2, 3]));
    let e = Equation::from_text("7: ").unwrap_err();
    assert_eq!(e, ParseNumberError::InvalidDigit);
    let e = Equation::from_text("7 : 1").unwrap();
    assert_eq!((e.result, e.values), (7, vec![1]));
    let e = Equation::from_text("7: 1: 2").unwrap();
    assert_eq!((e.result, e.values), (7, vec![1]));
    assert_eq!(Equation::from_text("7:1 2").unwrap_err(), ParseNumberError::InvalidDigit);
    assert_eq!(Equation::from_text("x: 1 2").unwrap_err(), ParseNumberError::InvalidDigit);
    assert_eq!(Equation::from_text("7: 1 y").unwrap_err(), ParseNumberError::InvalidDigit);
    assert_eq!(Equation::from_text(": 1").unwrap_err(), ParseNumberError::Empty);
    assert_eq!(Equation::from_text("").unwrap_err(), ParseNumberError::Empty);
    let e = Equation::from_text("5: x").unwrap_err();
    assert_eq!(e, ParseNumberError::InvalidDigit);
}

#[test]
fn number_lists_are_read() {
    let list = NumberList::<u32>::from_text(" 7 6  4\t2 1\n").unwrap();
    assert_eq!(*list, vec![7, 6, 4, 2, 1]);
    assert_eq!(list.len(), 5);
    assert!(NumberList::<u32>::from_text("").unwrap().is_empty());
    assert_eq!(
        NumberList::<u32>::from_text("1 x 3").err(),
        Some(ParseNumberError::InvalidDigit)
    );
    assert_eq!(
        NumberList::<u32>::from_text("1 4294967296 x").err(),
        Some(ParseNumberError::PosOverflow)
    );
    let list: NumberList<u32> = "3 4".parse().unwrap();
    assert_eq!(*list, vec![3, 4]);
    let report: Report = "1 3 6 7 9".parse().unwrap();
    assert!(report.is_safe_zero_tolerance());
    let report = Report::from_text("1 2 7 8 9").unwrap();
    assert!(!report.is_safe_one_tolerance());
    assert_eq!(Report::from_text("1 -2").err(), Some(ParseNumberError::InvalidDigit));
}

fn cs(s: &str) -> Vec<char> {
    s.chars().collect()
}

#[test]
fn whole_numbers_are_read() {
    assert_eq!(parse_i64(&cs("0")), Ok(0));
    assert_eq!(parse_i64(&cs("-0")), Ok(0));
    assert_eq!(parse_i64(&cs("+17")), Ok(17));
    assert_eq!(parse_i64(&cs("-17")), Ok(-17));
    assert_eq!(parse_i64(&cs("9223372036854775807")), Ok(i64::MAX));
    assert_eq!(parse_i64(&cs("9223372036854775808")), Err(ParseNumberError::PosOverflow));
    assert_eq!(parse_i64(&cs("-9223372036854775808")), Ok(i64::MIN));
    assert_eq!(parse_i64(&cs("-9223372036854775809")), Err(ParseNumberError::NegOverflow));
    assert_eq!(parse_i64(&cs("")), Err(ParseNumberError::Empty));
    assert_eq!(parse_i64(&cs("-")), Err(ParseNumberError::InvalidDigit));
    assert_eq!(parse_i64(&cs("+")), Err(ParseNumberError::InvalidDigit));
    assert_eq!(parse_i64(&cs("--1")), Err(ParseNumberError::InvalidDigit));
    assert_eq!(parse_i64(&cs("-+1")), Err(ParseNumberError::InvalidDigit));
    assert_eq!(parse_i64(&cs("1-")), Err(ParseNumberError::InvalidDigit));
    for s in ["0", "-1", "+1", "", "-", "x", "-9223372036854775808", "9223372036854775808", "12 "] {
        assert_eq!(parse_i64(&cs(s)).ok(), s.parse::<i64>().ok(), "{:?}", s);
    }
}

#[test]
fn two_lists_are_read() {
    assert_eq!(parse_pair(&cs("3   4")), Some((3, 4)));
    assert_eq!(parse_pair(&cs("  -3   +4 ")), Some((-3, 4)));
    assert_eq!(parse_pair(&cs("3  4")), None);
    assert_eq!(parse_pair(&cs("3    4")), None);
    assert_eq!(parse_pair(&cs("3 \t 4")), None);
    assert_eq!(parse_pair(&cs("3   4   5")), None);
    assert_eq!(parse_pair(&cs("3")), None);
    assert_eq!(parse_pair(&cs("")), None);
    assert_eq!(parse_pair(&cs("a   4")), None);
    assert_eq!(parse_pair(&cs("3   b")), None);
    assert_eq!(
        get_list("3   4\n4   3\n2   5\n1   3\n3   9\n3   3\n"),
        Some((vec![3, 4, 2, 1, 3, 3], vec![4, 3, 5, 3, 9, 3]))
    );
    assert_eq!(get_list(""), Some((vec![], vec![])));
    assert_eq!(get_list("1   2\n\n3   4"), None);
    assert_eq!(get_list("1   2\r\n 3   4 \n"), Some((vec![1, 3], vec![2, 4])));
    let (l1, l2) = get_list("3   4\n4   3\n2   5\n1   3\n3   9\n3   3").unwrap();
    assert_eq!(lists::part1(l1, l2), 11);
}

#[test]
fn reports_come_of_results() {
    let ok: Result<Vec<u32>, &str> = Ok(vec![1, 2, 3]);
    assert!(Report::new_result(ok).unwrap().is_safe_zero_tolerance());
    let bad: Result<Vec<u32>, &str> = Err("no levels");
    assert_eq!(Report::new_result(bad).err(), Some("no levels"));
}
