use grid_patrol::stones;
use grid_patrol::stones::{count_after, load_stones, Stone, StoneCollection};
use grid_patrol::text::ParseNumberError;

fn values(stones: &StoneCollection) -> Vec<(u64, u64)> {
    stones.stones.iter().map(|(s, n)| (s.value, *n)).collect()
}

fn blinked(value: u64) -> (u64, Option<u64>) {
    let mut stone = Stone { value };
    let second = stone.blink();
    (stone.value, second.map(|s| s.value))
}

#[test]
fn one_stone_blinks() {
    assert_eq!(blinked(0), (1, None));
    assert_eq!(blinked(1), (2024, None));
    assert_eq!(blinked(10), (1, Some(0)));
    assert_eq!(blinked(99), (9, Some(9)));
    assert_eq!(blinked(999), (2021976, None));
    assert_eq!(blinked(1000), (10, Some(0)));
    assert_eq!(blinked(253000), (253, Some(0)));
    assert_eq!(blinked(512072), (512, Some(72)));
    assert_eq!(blinked(12345678), (1234, Some(5678)));
    assert_eq!(blinked(10000000000000000000), (1000000000, Some(0)));
    assert_eq!(blinked(u64::MAX), (1844674407, Some(3709551615)));
    assert_eq!(blinked(911372569702221), (911372569702221 * 2024, None));
}

#[test]
fn stones_are_merged_in_order_of_their_numbers() {
    let mut stones = load_stones("5 3 5 1 3 5").unwrap();
    assert_eq!(values(&stones), vec![(5, 1), (3, 1), (5, 1), (1, 1), (3, 1), (5, 1)]);
    assert_eq!(stones.count_stones(), 6);
    stones.merge();
    assert_eq!(values(&stones), vec![(1, 1), (3, 2), (5, 3)]);
    assert_eq!(stones.count_stones(), 6);
    stones.merge();
    assert_eq!(values(&stones), vec![(1, 1), (3, 2), (5, 3)]);
    let mut none = load_stones("").unwrap();
    none.merge();
    assert_eq!(values(&none), vec![]);
    assert_eq!(none.count_stones(), 0);
}

#[test]
fn stones_blink() {
    let mut stones = load_stones("0 1 10 99 999").unwrap();
    stones.blink();
    assert_eq!(values(&stones), vec![(0, 1), (1, 2), (9, 2), (2024, 1), (2021976, 1)]);
    assert_eq!(stones.count_stones(), 7);
    let mut stones = load_stones("125 17").unwrap();
    let counts: Vec<u128> = (0..6)
        .map(|_| {
            stones.blink();
            stones.count_stones()
        })
        .collect();
    assert_eq!(counts, vec![3, 4, 5, 9, 13, 22]);
    let mut stones = load_stones("125 17").unwrap();
    stones.blinkn(6);
    assert_eq!(stones.count_stones(), 22);
    let mut same = load_stones("125 17").unwrap();
    same.blinkn(0);
    assert_eq!(values(&same), vec![(125, 1), (17, 1)]);
    assert_eq!(count_after(load_stones("125 17").unwrap(), 25), 55312);
    assert_eq!(stones::part1(load_stones("125 17").unwrap()), 55312);
    assert_eq!(stones::part2(load_stones("125 17").unwrap()), 65601038650482);
}

#[test]
fn stones_are_read() {
    assert_eq!(values(&load_stones(" 7  8\n9 ").unwrap()), vec![(7, 1), (8, 1), (9, 1)]);
    assert_eq!(load_stones("7 x 9").err(), Some(ParseNumberError::InvalidDigit));
    assert_eq!(
        load_stones("7 18446744073709551616").err(),
        Some(ParseNumberError::PosOverflow)
    );
    assert_eq!(
        values(&load_stones("18446744073709551615").unwrap()),
        vec![(u64::MAX, 1)]
    );
}
