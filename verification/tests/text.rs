use grid_patrol::text::{
    chars_of, copy_range, find_char, find_space, is_whitespace, lines, parse_u128, parse_u32,
    parse_u64, parse_unsigned, read_digits, split, split_whitespace, trim, trimmed_lines,
    ParseNumberError,
};
use grid_patrol::utilities::{
    chars_of_all, CollectIntoResult, IteratorCount, IteratorHasNElementsOf, IteratorToVec,
    IteratorTrimmedLines, IteratorWithout, MapParse, ParseTrimmedLines, StringCharVec,
};

fn cs(s: &str) -> Vec<char> {
    s.chars().collect()
}

fn strings(parts: Vec<Vec<char>>) -> Vec<String> {
    parts.into_iter().map(|p| p.into_iter().collect()).collect()
}

#[test]
fn test_collect_result() {
    let test_data = vec!["1", "2", "3"];
    let test_data: Vec<u32> = test_data
        .into_iter()
        .map(str::parse::<u32>)
        .collect::<Vec<_>>()
        .collect_result()
        .unwrap();
    assert_eq!(test_data, vec![1, 2, 3]);
}

#[test]
fn test_map_parse() {
    let test_data = vec!["1", "2", "3"];
    let test_data: Vec<u32> = MapParse::<u32>::parse(test_data)
        .into_iter()
        .collect::<Result<_, _>>()
        .unwrap();
    assert_eq!(test_data, vec![1, 2, 3]);
}

#[test]
fn test_map_parse_collect_result() {
    let test_data = vec!["1", "2", "3"];
    let test_data: Vec<u32> = MapParse::<u32>::parse(test_data).collect_result().unwrap();
    assert_eq!(test_data, vec![1, 2, 3]);
}

#[test]
fn characters_are_listed() {
    assert_eq!(chars_of("a\u{e9}\u{4e2d}\u{1f600}b"), cs("a\u{e9}\u{4e2d}\u{1f600}b"));
    assert_eq!(chars_of(""), cs(""));
    assert_eq!("xyz".char_vec(), vec!['x', 'y', 'z']);
    assert_eq!(String::from("x\u{e9}").char_vec(), vec!['x', '\u{e9}']);
    assert_eq!(chars_of_all(&vec!["ab", "", "c"]), vec![cs("ab"), cs(""), cs("c")]);
    assert_eq!(copy_range(&cs("hello"), 1, 3), cs("el"));
    assert_eq!(copy_range(&cs("hello"), 2, 2), cs(""));
}

#[test]
fn white_space_is_as_std_says() {
    for n in 0..=0x10ffffu32 {
        if let Some(c) = char::from_u32(n) {
            assert_eq!(is_whitespace(c), c.is_whitespace(), "{:x}", n);
        }
    }
}

#[test]
fn trimming_is_as_std_says() {
    for s in ["", " ", "  a b \n", "\t\r\nx", "x", " \u{3000}x y\u{a0}", "ab", "a ", " a"] {
        assert_eq!(trim(&cs(s)), cs(s.trim()), "{:?}", s);
    }
    assert_eq!(find_space(&cs("  ab c"), 0, false), 2);
    assert_eq!(find_space(&cs("  ab c"), 2, true), 4);
    assert_eq!(find_space(&cs("  ab c"), 5, true), 6);
    assert_eq!(find_space(&cs("   "), 0, false), 3);
    assert_eq!(find_char(&cs("a,b,c"), 0, ','), 1);
    assert_eq!(find_char(&cs("a,b,c"), 2, ','), 3);
    assert_eq!(find_char(&cs("a,b,c"), 4, ','), 5);
}

#[test]
fn lines_are_as_std_says() {
    for s in [
        "", "a", "a\nb", "a\n", "a\r\nb", "\n", "\n\n", "a\n\nb", "a\r\n", "\r\n", "a\rb\nc",
        "one\ntwo\r\nthree", "x\n\r\ny",
    ] {
        let want: Vec<String> = s.lines().map(String::from).collect();
        assert_eq!(strings(lines(&cs(s))), want, "{:?}", s);
    }
    for s in ["  a\n b \r\nc  \n\n", "", "\n \n", "x", "1\n2\n3\n"] {
        let want: Vec<String> = s.trim().lines().map(String::from).collect();
        assert_eq!(strings(trimmed_lines(&cs(s))), want, "{:?}", s);
        assert_eq!(strings(s.trimmed_lines()), want, "{:?}", s);
        assert_eq!(strings(String::from(s).trimmed_lines()), want, "{:?}", s);
    }
}

#[test]
fn words_and_parts_are_as_std_says() {
    for s in ["", " ", "a", " a  bc\td\n", "a b", "  x", "x  ", "1 2 3"] {
        let want: Vec<String> = s.split_whitespace().map(String::from).collect();
        assert_eq!(strings(split_whitespace(&cs(s))), want, "{:?}", s);
    }
    for s in ["", ",", "a", "a,b", "a,,b", ",a", "a,", "1,22,333"] {
        let want: Vec<String> = s.split(',').map(String::from).collect();
        assert_eq!(strings(split(&cs(s), ',')), want, "{:?}", s);
    }
}

#[test]
fn numbers_are_read() {
    assert_eq!(parse_u32(&cs("0")), Ok(0));
    assert_eq!(parse_u32(&cs("007")), Ok(7));
    assert_eq!(parse_u32(&cs("+15")), Ok(15));
    assert_eq!(parse_u32(&cs("4294967295")), Ok(u32::MAX));
    assert_eq!(parse_u32(&cs("4294967296")), Err(ParseNumberError::PosOverflow));
    assert_eq!(parse_u32(&cs("99999999999999999999999999999999999999999")), Err(ParseNumberError::PosOverflow));
    assert_eq!(parse_u32(&cs("")), Err(ParseNumberError::Empty));
    assert_eq!(parse_u32(&cs("+")), Err(ParseNumberError::InvalidDigit));
    assert_eq!(parse_u32(&cs("-")), Err(ParseNumberError::InvalidDigit));
    assert_eq!(parse_u32(&cs("-1")), Err(ParseNumberError::InvalidDigit));
    assert_eq!(parse_u32(&cs("1 ")), Err(ParseNumberError::InvalidDigit));
    assert_eq!(parse_u32(&cs("12a")), Err(ParseNumberError::InvalidDigit));
    assert_eq!(parse_u32(&cs("++1")), Err(ParseNumberError::InvalidDigit));
    assert_eq!(parse_u32(&cs("\u{661}")), Err(ParseNumberError::InvalidDigit));
    assert_eq!(parse_u64(&cs("18446744073709551615")), Ok(u64::MAX));
    assert_eq!(parse_u64(&cs("18446744073709551616")), Err(ParseNumberError::PosOverflow));
    assert_eq!(parse_u128(&cs("340282366920938463463374607431768211455")), Ok(u128::MAX));
    assert_eq!(
        parse_u128(&cs("340282366920938463463374607431768211456")),
        Err(ParseNumberError::PosOverflow)
    );
    assert_eq!(parse_unsigned(&cs("100"), 100), Ok(100));
    assert_eq!(parse_unsigned(&cs("101"), 100), Err(ParseNumberError::PosOverflow));
    assert_eq!(read_digits(&cs("ab12"), 2, 50), Ok(12));
    assert_eq!(read_digits(&cs("ab12"), 4, 50), Ok(0));
    assert_eq!(read_digits(&cs("ab12"), 1, 50), Err(ParseNumberError::InvalidDigit));
}

#[test]
fn numbers_agree_with_std() {
    for s in ["0", "1", "+1", "-1", "", "+", "-", "42", "4294967295", "4294967296", "x", "1x", "00000000000001"] {
        assert_eq!(parse_u32(&cs(s)).ok(), s.parse::<u32>().ok(), "{:?}", s);
        assert_eq!(parse_u64(&cs(s)).ok(), s.parse::<u64>().ok(), "{:?}", s);
        assert_eq!(parse_u128(&cs(s)).ok(), s.parse::<u128>().ok(), "{:?}", s);
    }
}

#[test]
fn results_are_collected() {
    let all: Vec<Result<u32, &str>> = vec![Ok(1), Ok(2), Ok(3)];
    assert_eq!(all.collect_result(), Ok(vec![1, 2, 3]));
    let some: Vec<Result<u32, &str>> = vec![Ok(1), Err("first"), Ok(3), Err("second")];
    assert_eq!(some.collect_result(), Err("first"));
    let last: Vec<Result<u32, &str>> = vec![Ok(1), Ok(3), Err("last")];
    assert_eq!(last.collect_result(), Err("last"));
    let none: Vec<Result<u32, &str>> = vec![];
    assert_eq!(none.collect_result(), Ok(vec![]));
    let texts = vec!["1", "x", ""];
    assert_eq!(
        MapParse::<u64>::parse(texts),
        vec![Ok(1), Err(ParseNumberError::InvalidDigit), Err(ParseNumberError::Empty)]
    );
    assert_eq!(MapParse::<u128>::parse(vec![cs("12"), cs("+3")]), vec![Ok(12), Ok(3)]);
    assert_eq!(MapParse::<u32>::parse(vec![cs("12")]), vec![Ok(12)]);
    assert_eq!(MapParse::<u64>::parse(vec![cs("12")]), vec![Ok(12)]);
    assert_eq!(MapParse::<u128>::parse(vec!["5"]), vec![Ok(5)]);
}

#[test]
fn lines_are_read_as_numbers() {
    assert_eq!(ParseTrimmedLines::<u32>::parse_trimmed_lines("\n 1\n2\r\n3 \n"), Ok(vec![1, 2, 3]));
    assert_eq!(
        ParseTrimmedLines::<u32>::parse_trimmed_lines("1\n 2\n3"),
        Err(ParseNumberError::InvalidDigit)
    );
    assert_eq!(
        ParseTrimmedLines::<u64>::parse_trimmed_lines("1\n\n3"),
        Err(ParseNumberError::Empty)
    );
    assert_eq!(ParseTrimmedLines::<u64>::parse_trimmed_lines("  "), Ok(vec![]));
    assert_eq!(ParseTrimmedLines::<u128>::parse_trimmed_lines("7"), Ok(vec![7]));
}

#[test]
fn items_are_left_out_and_counted() {
    assert_eq!(vec![1, 2, 3].without(0), vec![2, 3]);
    assert_eq!(vec![1, 2, 3].without(2), vec![1, 2]);
    assert_eq!(vec![1, 2, 3].without(3), vec![1, 2, 3]);
    assert_eq!(vec!['a'].without(0), vec![]);
    assert_eq!(vec![1, 2, 1, 3, 1].count_element(1), 3);
    assert_eq!(vec![1, 2, 1, 3, 1].count_element(4), 0);
    assert_eq!(Vec::<u8>::new().count_element(4), 0);
    assert!(vec!["a", "b", "a"].has_n_elements_of(2, "a"));
    assert!(!vec!["a", "b", "a"].has_n_elements_of(2, "b"));
    assert!(vec!["a", "b", "a"].has_n_elements_of(0, "c"));
}

#[test]
fn lists_are_handed_on() {
    let list = vec![String::from("a"), String::from("b")];
    assert_eq!(IteratorToVec::to_vec(list.clone()), list);
    assert_eq!(IteratorToVec::to_vec(Vec::<u8>::new()), vec![]);
}
