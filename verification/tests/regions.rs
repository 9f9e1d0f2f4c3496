use grid_patrol::patrol::bitset::BitSet;
use grid_patrol::regions;
use grid_patrol::regions::{
    grahams_scan, load_data, load_regions, merge_ranges, Data, ListElement, Neighbors, Region,
};

fn garden(lines: &[&str]) -> Data {
    load_data(lines.iter().map(|l| l.chars().collect()).collect()).unwrap()
}

fn small() -> Data {
    garden(&["AAAA", "BBCD", "BBCC", "EEEC"])
}

fn holes() -> Data {
    garden(&["OOOOO", "OXOXO", "OOOOO", "OXOXO", "OOOOO"])
}

fn large() -> Data {
    garden(&[
        "RRRRIICCFF", "RRRRIICCCF", "VVRRRCCFFF", "VVRCCCJFFF", "VVVVCJJCFE", "VVIVCCJJEE",
        "VVIIICJJEE", "MIIIIIJJEE", "MIIISIJEEE", "MMMISSJEEE",
    ])
}

#[test]
fn plants_and_neighbours() {
    let data = small();
    assert_eq!(data.index((0, 0)), 'A');
    assert_eq!(data.index((3, 1)), 'D');
    assert_eq!(data.index((0, 3)), 'E');
    assert_eq!(data.index((-1, 0)), '\0');
    assert_eq!(data.index((0, -1)), '\0');
    assert_eq!(data.index((4, 0)), '\0');
    assert_eq!(data.index((0, 4)), '\0');
    assert_eq!(data.get_sourounding((0, 0)), vec![(1, 0)]);
    assert_eq!(data.get_sourounding((1, 0)), vec![(0, 0), (2, 0)]);
    assert_eq!(data.get_sourounding((3, 1)), vec![]);
    assert_eq!(data.get_sourounding((2, 2)), vec![(2, 1), (3, 2)]);
    assert_eq!(data.get_sourounding((0, 1)), vec![(1, 1), (0, 2)]);
    assert!(!data.neighbor_left((0, 0)));
    assert!(data.neighbor_right((0, 0)));
    assert!(!data.neighbor_up((0, 0)));
    assert!(!data.neighbor_down((0, 0)));
    assert!(data.neighbor_up((2, 2)));
    assert!(data.neighbor_left((1, 2)));
    assert!(data.neighbor_down((0, 1)));
}

#[test]
fn one_region_is_gathered() {
    let data = small();
    let mut visited = BitSet::new(4);
    let region = Region::load_region((2, 1), &data, &mut visited);
    assert_eq!(region.area, 4);
    let mut plots: Vec<(isize, isize)> = region.points.iter().map(|p| p.0).collect();
    assert_eq!(plots[0], (2, 1));
    plots.sort();
    assert_eq!(plots, vec![(2, 1), (2, 2), (3, 2), (3, 3)]);
    assert_eq!(visited.to_vec(), vec![(2, 1), (2, 2), (3, 2), (3, 3)]);
    assert_eq!(
        region.points[0].1,
        Neighbors { up: false, down: true, left: false, right: false }
    );
    assert_eq!(grahams_scan(&region.points), 10);
    assert_eq!(region.get_value(), 40);
    assert_eq!(region.get_sides(4), 8);
    assert_eq!(region.get_discount_value(4), 32);
    let again = Region::load_region((3, 3), &data, &mut visited);
    assert_eq!(again.area, 4);
    assert_eq!(visited.len(), 4);
}

#[test]
fn regions_are_gathered() {
    let regions = load_regions(&small());
    let areas: Vec<u32> = regions.iter().map(|r| r.area).collect();
    assert_eq!(areas, vec![4, 4, 4, 1, 3]);
    let fences: Vec<u32> = regions.iter().map(|r| grahams_scan(&r.points)).collect();
    assert_eq!(fences, vec![10, 8, 10, 4, 8]);
    let sides: Vec<u32> = regions.iter().map(|r| r.get_sides(4)).collect();
    assert_eq!(sides, vec![4, 4, 8, 4, 4]);
    let regions = load_regions(&holes());
    assert_eq!(regions.len(), 5);
    assert_eq!(regions[0].area, 21);
    assert_eq!(grahams_scan(&regions[0].points), 36);
    assert_eq!(regions[0].get_sides(5), 20);
    assert_eq!(load_regions(&garden(&[])).len(), 0);
    let one = load_regions(&garden(&["x"]));
    assert_eq!(one.len(), 1);
    assert_eq!((one[0].area, one[0].get_value(), one[0].get_discount_value(1)), (1, 4, 4));
}

#[test]
fn fences_are_priced() {
    assert_eq!(regions::part1(&small()), 140);
    assert_eq!(regions::part1(&holes()), 772);
    assert_eq!(regions::part1(&large()), 1930);
    assert_eq!(regions::part2(&small()), 80);
    assert_eq!(regions::part2(&holes()), 436);
    assert_eq!(regions::part2(&large()), 1206);
    assert_eq!(regions::part2(&garden(&["EEEEE", "EXXXX", "EEEEE", "EXXXX", "EEEEE"])), 236);
    assert_eq!(
        regions::part2(&garden(&["AAAAAA", "AAABBA", "AAABBA", "ABBAAA", "ABBAAA", "AAAAAA"])),
        368
    );
    assert_eq!(regions::part1(&garden(&[])), 0);
}

#[test]
fn gardens_are_loaded() {
    assert!(load_data(vec![vec!['a', 'b'], vec!['c']]).is_none());
    assert!(load_data(vec![vec!['a', 'b']]).is_none());
    let data = load_data(vec![vec!['a', 'b'], vec!['c', 'd']]).unwrap();
    assert_eq!(data.data, vec![vec!['a', 'b'], vec!['c', 'd']]);
    assert_eq!(data.index((1, 0)), 'b');
    assert_eq!(data.index((0, 1)), 'c');
}

fn plain_merge(mut list: Vec<(isize, ListElement)>) -> Vec<(isize, ListElement)> {
    list.sort_by(|a, b| match a.0.cmp(&b.0) {
        std::cmp::Ordering::Less => std::cmp::Ordering::Less,
        std::cmp::Ordering::Greater => std::cmp::Ordering::Greater,
        std::cmp::Ordering::Equal => a.1.start.cmp(&b.1.start),
    });
    let mut merged_ranges: Vec<(isize, ListElement)> = Vec::new();
    for (same, range) in list {
        if let Some((same_last, range_last)) = merged_ranges.last_mut() {
            if *same_last == same && range_last.end + 1 == range.start {
                range_last.end = range.end;
                continue;
            }
        }
        merged_ranges.push((same, range));
    }
    merged_ranges
}

#[test]
fn stretches_are_ordered_and_joined() {
    let at = |line: isize, x: isize| (line, ListElement { start: x, end: x });
    let merged = merge_ranges(vec![at(1, 5), at(0, 2), at(1, 3), at(0, 1), at(1, 4), at(0, 4)]);
    assert_eq!(
        merged,
        vec![
            (0, ListElement { start: 1, end: 2 }),
            (0, ListElement { start: 4, end: 4 }),
            (1, ListElement { start: 3, end: 5 }),
        ]
    );
    assert_eq!(merge_ranges(vec![]), vec![]);
    assert_eq!(merge_ranges(vec![at(3, -1)]), vec![at(3, -1)]);
    let ties = vec![
        (0, ListElement { start: 1, end: 7 }),
        (0, ListElement { start: 1, end: 1 }),
        (0, ListElement { start: 2, end: 2 }),
    ];
    assert_eq!(merge_ranges(ties.clone()), plain_merge(ties));
    let mut seed: u32 = 99;
    let mut next = || {
        seed = seed.wrapping_mul(1664525).wrapping_add(1013904223);
        (seed >> 24) as isize
    };
    for _ in 0..300 {
        let n = next() % 12;
        let list: Vec<(isize, ListElement)> = (0..n)
            .map(|_| {
                let start = next() % 6 - 2;
                (next() % 3, ListElement { start, end: start + next() % 3 })
            })
            .collect();
        assert_eq!(merge_ranges(list.clone()), plain_merge(list));
    }
}
