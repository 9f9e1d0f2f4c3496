use grid_patrol::antenna;
use grid_patrol::antenna::Antenna;
use grid_patrol::trail;
use grid_patrol::trail::{load_map, HeightMap};
use grid_patrol::wordsearch;
use grid_patrol::wordsearch::{
    find_cross_mas, find_diagonal_left, find_diagonal_right, find_horizontal, find_vertical,
    letter_to_index,
};

fn rows_of(lines: &[&str]) -> Vec<Vec<char>> {
    lines.iter().map(|l| l.chars().collect()).collect()
}

fn words() -> Vec<Vec<char>> {
    rows_of(&[
        "MMMSXXMASM",
        "MSAMXMSMSA",
        "AMXSXMAAMM",
        "MSAMASMSMX",
        "XMASAMXAMM",
        "XXAMMXXAMA",
        "SMSMSASXSS",
        "SAXAMASAAA",
        "MAMMMXMMMM",
        "MXMXAXMASX",
    ])
}

#[test]
fn words_are_counted() {
    let data = words();
    assert_eq!(find_vertical(&data), 5);
    assert_eq!(find_horizontal(&data), 3);
    assert_eq!(find_diagonal_right(&data), 5);
    assert_eq!(find_diagonal_left(&data), 5);
    assert_eq!(wordsearch::part1(&data), 18);
    assert_eq!(find_cross_mas(&data), 9);
    assert_eq!(wordsearch::part2(&data), 9);
}

fn count_all_ways(data: &Vec<Vec<char>>) -> usize {
    let n = data.len() as isize;
    let word = ['X', 'M', 'A', 'S'];
    let mut count = 0;
    for r in 0..n {
        for c in 0..n {
            for (dr, dc) in [(0, 1), (0, -1), (1, 0), (-1, 0), (1, 1), (1, -1), (-1, 1), (-1, -1)] {
                let fits = (0..4).all(|k| {
                    let (rr, cc) = (r + k * dr, c + k * dc);
                    rr >= 0 && rr < n && cc >= 0 && cc < n
                        && data[rr as usize][cc as usize] == word[k as usize]
                });
                if fits {
                    count += 1;
                }
            }
        }
    }
    count
}

#[test]
fn words_agree_with_plain_search() {
    let mut seed: u32 = 12345;
    for n in [4usize, 5, 7, 9] {
        for _ in 0..20 {
            let data: Vec<Vec<char>> = (0..n)
                .map(|_| {
                    (0..n)
                        .map(|_| {
                            seed = seed.wrapping_mul(1664525).wrapping_add(1013904223);
                            ['X', 'M', 'A', 'S'][(seed >> 24) as usize % 4]
                        })
                        .collect()
                })
                .collect();
            assert_eq!(wordsearch::part1(&data), count_all_ways(&data));
        }
    }
    assert_eq!(count_all_ways(&words()), 18);
}

#[test]
fn words_in_small_grids() {
    for n in 0..4 {
        let data: Vec<Vec<char>> = (0..n).map(|_| (0..n).map(|_| 'X').collect()).collect();
        assert_eq!(wordsearch::part1(&data), 0);
        assert_eq!(wordsearch::part2(&data), 0);
    }
    let data = rows_of(&["XMAS", "M..A", "A..M", "S..X"]);
    assert_eq!(find_vertical(&data), 1);
    assert_eq!(find_horizontal(&data), 2);
    assert_eq!(find_diagonal_right(&data), 0);
    assert_eq!(find_diagonal_left(&data), 0);
    let data = rows_of(&["X..S", ".MA.", ".MA.", "X..S"]);
    assert_eq!(find_diagonal_right(&data), 1);
    assert_eq!(find_diagonal_left(&data), 1);
    assert_eq!(wordsearch::part1(&data), 2);
    let data = rows_of(&["SAMX", "....", "....", "SAMX"]);
    assert_eq!(find_vertical(&data), 2);
    let data = rows_of(&["SAMX", "....", "....", "...."]);
    assert_eq!(find_vertical(&data), 1);
    assert_eq!(wordsearch::part1(&data), 1);
    let data = rows_of(&["M.S", ".A.", "M.S"]);
    assert_eq!(find_cross_mas(&data), 1);
    let data = rows_of(&["M.M", ".A.", "S.S"]);
    assert_eq!(find_cross_mas(&data), 1);
    let data = rows_of(&["M.S", ".A.", "S.M"]);
    assert_eq!(find_cross_mas(&data), 0);
    let data = rows_of(&["M.S", ".X.", "M.S"]);
    assert_eq!(find_cross_mas(&data), 0);
    let data = rows_of(&["M.S", ".A.", "M.q"]);
    assert_eq!(find_cross_mas(&data), 0);
    assert_eq!(letter_to_index('M'), 0);
    assert_eq!(letter_to_index('S'), 1);
    assert_eq!(letter_to_index('X'), 2);
    assert_eq!(letter_to_index('A'), 3);
}

fn antennas() -> Vec<Vec<Antenna>> {
    let lines = [
        "............",
        "........0...",
        ".....0......",
        ".......0....",
        "....0.......",
        "......A.....",
        "............",
        "............",
        "........A...",
        ".........A..",
        "............",
        "............",
    ];
    let mut zero = vec![];
    let mut a = vec![];
    for (i, line) in lines.iter().enumerate() {
        for (j, c) in line.chars().enumerate() {
            match c {
                '0' => zero.push(Antenna::new(i as isize, j as isize)),
                'A' => a.push(Antenna::new(i as isize, j as isize)),
                _ => {}
            }
        }
    }
    vec![zero, a]
}

#[test]
fn mirror_points_are_counted() {
    assert_eq!(antenna::part1(&antennas(), 12), 14);
    assert_eq!(antenna::part1(&vec![], 12), 0);
    assert_eq!(antenna::part1(&vec![vec![Antenna::new(1, 1)]], 3), 0);
    assert_eq!(antenna::part1(&vec![vec![Antenna::new(1, 1), Antenna::new(1, 1)]], 3), 0);
    assert_eq!(antenna::part1(&vec![vec![Antenna::new(1, 1), Antenna::new(2, 2)]], 4), 2);
    assert_eq!(antenna::part1(&vec![vec![Antenna::new(1, 1), Antenna::new(2, 2)]], 3), 1);
    assert_eq!(
        antenna::part1(&vec![vec![Antenna::new(1, 1)], vec![Antenna::new(2, 2)]], 4),
        0
    );
}

#[test]
fn lines_of_antennas_are_counted() {
    assert_eq!(antenna::part2(&antennas(), 12), 34);
    assert_eq!(antenna::part2(&vec![], 12), 0);
    assert_eq!(antenna::part2(&vec![vec![Antenna::new(1, 1)]], 3), 0);
    assert_eq!(antenna::part2(&vec![vec![Antenna::new(1, 1), Antenna::new(2, 2)]], 5), 5);
    assert_eq!(antenna::part2(&vec![vec![Antenna::new(0, 0), Antenna::new(0, 2)]], 5), 3);
    assert_eq!(antenna::part2(&vec![vec![Antenna::new(0, 0), Antenna::new(2, 1)]], 5), 3);
    assert_eq!(antenna::part2(&vec![vec![Antenna::new(4, 0), Antenna::new(0, 4)]], 5), 2);
    assert_eq!(antenna::count_marked(&antennas(), 12, false), 14);
    assert_eq!(antenna::count_marked(&antennas(), 12, true), 34);
    let mut set = grid_patrol::patrol::bitset::BitSet::new(6);
    antenna::mark_ray(&mut set, Antenna::new(1, 1), (2, 1), 6);
    assert_eq!(set.to_vec(), vec![(3, 2), (5, 3)]);
    antenna::mark_ray(&mut set, Antenna::new(1, 1), (0, -1), 6);
    assert_eq!(set.to_vec(), vec![(1, 0), (3, 2), (5, 3)]);
    let mut set = grid_patrol::patrol::bitset::BitSet::new(6);
    antenna::mark_line(&mut set, Antenna::new(2, 2), Antenna::new(3, 4), 6);
    assert_eq!(set.to_vec(), vec![(1, 0), (2, 2), (3, 4)]);
    let mut set = grid_patrol::patrol::bitset::BitSet::new(6);
    antenna::mark_pair(&mut set, Antenna::new(2, 2), Antenna::new(3, 4), 6, false);
    assert_eq!(set.to_vec(), vec![(1, 0)]);
}

#[test]
fn antenna_arithmetic() {
    let a = Antenna::new(3, 5);
    let b = Antenna::new(1, 9);
    assert_eq!(a - b, (2, -4));
    assert_eq!(a + b, (4, 14));
    assert_eq!(a + (2, -4), Antenna::new(5, 1));
    assert_eq!(a - (2, -4), Antenna::new(1, 9));
    assert_eq!(a.coords(), (3, 5));
    assert!(a.is_possible(6));
    assert!(!a.is_possible(5));
    assert!(!Antenna::new(-1, 0).is_possible(5));
    assert!(!Antenna::new(0, -1).is_possible(5));
    assert!(!Antenna::new(5, 0).is_possible(5));
    assert!(Antenna::new(0, 0).is_possible(1));
}

fn heights() -> HeightMap {
    load_map(&rows_of(&[
        "89010123", "78121874", "87430965", "96549874", "45678903", "32019012", "01329801",
        "10456732",
    ]))
    .unwrap()
}

#[test]
fn trails_are_scored_and_rated() {
    let map = heights();
    assert_eq!(
        map.get_trailheads(),
        vec![(0, 2), (0, 4), (2, 4), (4, 6), (5, 2), (5, 5), (6, 0), (6, 6), (7, 1)]
    );
    let scores: Vec<usize> = map.get_trailheads().into_iter().map(|p| map.get_score(p)).collect();
    assert_eq!(scores, vec![5, 6, 5, 3, 1, 3, 5, 3, 5]);
    let ratings: Vec<usize> =
        map.get_trailheads().into_iter().map(|p| map.get_rating(p)).collect();
    assert_eq!(ratings, vec![20, 24, 10, 4, 1, 4, 5, 8, 5]);
    assert_eq!(trail::part1(&map), 36);
    assert_eq!(trail::part2(&map), 81);
    assert_eq!(map.index((0, 0)), 8);
    assert_eq!(map.sourrounding_higher((0, 2)), [None, None, Some((1, 2)), Some((0, 3))]);
    assert_eq!(map.sourrounding_higher((7, 7)), [None, Some((7, 6)), None, None]);
    assert_eq!(map.sourrounding_higher((4, 3)), [None, None, None, Some((4, 4))]);
    assert_eq!(map.sourrounding_higher((3, 3)), [None, Some((3, 2)), None, None]);
    assert_eq!(map.sourrounding_higher((0, 1)), [None, None, None, None]);
    assert_eq!(map.get_rating((0, 1)), 1);
    assert_eq!(map.get_score((0, 1)), 1);
}

#[test]
fn height_maps_are_loaded() {
    assert!(load_map(&rows_of(&["12", "3"])).is_none());
    assert!(load_map(&rows_of(&["12", "3x"])).is_none());
    assert!(load_map(&rows_of(&["123"])).is_none());
    let map = load_map(&rows_of(&["09", "18"])).unwrap();
    assert_eq!(map.data, vec![vec![0, 9], vec![1, 8]]);
    assert_eq!(trail::part1(&map), 0);
    assert_eq!(load_map(&rows_of(&[])).unwrap().data.len(), 0);
    let all: Vec<Vec<char>> = (0..10).map(|_| "0123456789".chars().collect()).collect();
    let map = load_map(&all).unwrap();
    assert_eq!(trail::part1(&map), 10);
    assert_eq!(trail::part2(&map), 10);
}

#[test]
fn antennas_are_grouped() {
    let rows = rows_of(&["a.b", ".a.", "b.a"]);
    let (groups, letters) = antenna::load_data(&rows);
    assert_eq!(letters, vec!['a', 'b']);
    assert_eq!(
        groups,
        vec![
            vec![Antenna::new(0, 0), Antenna::new(1, 1), Antenna::new(2, 2)],
            vec![Antenna::new(0, 2), Antenna::new(2, 0)],
        ]
    );
    assert_eq!(antenna::part1(&groups, 3), 2);
    let (groups, letters) = antenna::load_data(&rows_of(&["..", ".."]));
    assert!(groups.is_empty() && letters.is_empty());
    let lines = [
        "............", "........0...", ".....0......", ".......0....", "....0.......",
        "......A.....", "............", "............", "........A...", ".........A..",
        "............", "............",
    ];
    let (groups, letters) = antenna::load_data(&rows_of(&lines));
    assert_eq!(letters, vec!['0', 'A']);
    assert_eq!(groups, antennas());
    assert_eq!(antenna::find_letter(&vec!['x', 'y'], 'y'), Some(1));
    assert_eq!(antenna::find_letter(&vec!['x', 'y'], 'z'), None);
}
