use grid_patrol::disk;
use grid_patrol::disk::{
    checksum, checksum_files, compact_files, decimal_of, fill_gaps, first_possible_space,
    load_disk_space, load_files, print_files, process_char, DiskSpace, File,
};
use grid_patrol::instruction;
use grid_patrol::instruction::load_instructions;
use grid_patrol::equation::Equation;
use grid_patrol::number_list::NumberList;
use grid_patrol::page_ordering::{update_list, compare_pages, PageOrdering, PageOrderingElement};
use grid_patrol::report::Report;

fn sample_map() -> Vec<u32> {
    "2333133121414131402".chars().map(|c| process_char(c).unwrap()).collect()
}

#[test]
fn digits_are_read() {
    assert_eq!(process_char('0'), Some(0));
    assert_eq!(process_char('9'), Some(9));
    assert_eq!(process_char('a'), None);
    assert_eq!(process_char('/'), None);
    assert_eq!(process_char(':'), None);
    for n in 0..=0x10ffffu32 {
        if let Some(c) = char::from_u32(n) {
            assert_eq!(process_char(c), c.to_digit(10));
        }
    }
}

#[test]
fn disk_map_is_loaded() {
    let files = load_files(&vec![1, 2, 3, 4, 5]);
    assert_eq!(
        files,
        vec![File::new(0, 0, 1), File::new(1, 3, 3), File::new(2, 10, 5)]
    );
    assert_eq!(load_files(&vec![]), vec![]);
    assert_eq!(load_files(&vec![4, 2]), vec![File::new(0, 0, 4)]);
    assert_eq!(
        load_disk_space(&vec![1, 2, 3, 4]),
        vec![
            DiskSpace::File { id: 0, length: 1 },
            DiskSpace::Free { length: 2 },
            DiskSpace::File { id: 1, length: 3 },
            DiskSpace::Free { length: 4 },
        ]
    );
}

#[test]
fn gaps_are_filled() {
    let files = load_files(&vec![1, 2, 3, 4, 5]);
    let filled = fill_gaps(files);
    assert_eq!(
        filled,
        vec![File::new(0, 0, 1), File::new(2, 1, 2), File::new(1, 3, 3), File::new(2, 6, 3)]
    );
    assert_eq!(checksum_files(&filled), 60);
    assert_eq!(disk::part1(&vec![1, 2, 3, 4, 5]), 60);
    assert_eq!(disk::part1(&sample_map()), 1928);
    assert_eq!(fill_gaps(vec![]), vec![]);
    assert_eq!(fill_gaps(vec![File::new(0, 2, 0)]), vec![File::new(0, 0, 0)]);
    assert_eq!(fill_gaps(vec![File::new(0, 2, 3)]), vec![File::new(0, 0, 2), File::new(0, 2, 1)]);
}

#[test]
fn checksums() {
    assert_eq!(checksum_files(&vec![File::new(3, 2, 2)]), 2 * 3 + 3 * 3);
    assert_eq!(checksum_files(&vec![]), 0);
    assert_eq!(checksum(&load_disk_space(&vec![1, 2, 3])), 3 + 4 + 5);
    assert_eq!(checksum(&load_disk_space(&sample_map())), {
        let mut sum = 0u128;
        let mut at = 0u128;
        for (i, n) in sample_map().into_iter().enumerate() {
            for _ in 0..n {
                if i % 2 == 0 {
                    sum += at * (i as u128 / 2);
                }
                at += 1;
            }
        }
        sum
    });
    assert_eq!(
        checksum(&vec![DiskSpace::File { id: usize::MAX, length: 2 }]),
        usize::MAX as u128
    );
}

#[test]
fn stretches() {
    let mut s = DiskSpace::Free { length: 3 };
    assert!(s.is_free_space());
    assert_eq!(s.length(), 3);
    s.increment_length(4);
    assert_eq!(s, DiskSpace::Free { length: 7 });
    let mut f = DiskSpace::File { id: 9, length: 1 };
    assert!(!f.is_free_space());
    f.increment_length(1);
    assert_eq!(f, DiskSpace::File { id: 9, length: 2 });
}

#[test]
fn free_space_is_found() {
    let spaces = load_disk_space(&vec![1, 1, 1, 3, 2, 5, 2]);
    let file = DiskSpace::File { id: 3, length: 2 };
    assert_eq!(first_possible_space(&spaces, &file, 6), Some(3));
    assert_eq!(first_possible_space(&spaces, &file, 5), Some(3));
    assert_eq!(first_possible_space(&spaces, &file, 4), None);
    assert_eq!(first_possible_space(&spaces, &file, 0), None);
    assert_eq!(first_possible_space(&spaces, &DiskSpace::File { id: 3, length: 1 }, 6), Some(1));
    assert_eq!(first_possible_space(&spaces, &DiskSpace::File { id: 3, length: 4 }, 7), Some(5));
    assert_eq!(first_possible_space(&spaces, &DiskSpace::File { id: 3, length: 6 }, 7), None);
    assert_eq!(first_possible_space(&spaces, &DiskSpace::Free { length: 1 }, 6), None);
    assert_eq!(first_possible_space(&spaces, &file, usize::MAX), Some(3));
}

#[test]
fn products_are_summed() {
    let text = "xmul(2,4)%&mul[3,7]!@^do_not_mul(5,5)+mul(32,64]then(mul(11,8)mul(8,5))........";
    assert_eq!(instruction::part1(&load_instructions(text)), 161);
    let text = "xmul(2,4)&mul[3,7]!^don't()_mul(5,5)+mul(32,64](mul(11,8)undo()?mul(8,5))........";
    let found = load_instructions(text);
    assert_eq!(instruction::part1(&found), 161);
    assert_eq!(instruction::part2(&found), 48);
    assert_eq!(instruction::part1(&vec![]), 0);
    assert_eq!(instruction::part2(&vec![]), 0);
}

#[test]
fn equations_are_summed() {
    let data = vec![
        Equation::new(190, vec![10, 19]),
        Equation::new(3267, vec![81, 40, 27]),
        Equation::new(83, vec![17, 5]),
        Equation::new(156, vec![15, 6]),
        Equation::new(7290, vec![6, 8, 6, 15]),
        Equation::new(161011, vec![16, 10, 13]),
        Equation::new(192, vec![17, 8, 14]),
        Equation::new(21037, vec![9, 7, 18, 13]),
        Equation::new(292, vec![11, 6, 16, 20]),
    ];
    assert_eq!(grid_patrol::equation::part1(&data), 3749);
    assert_eq!(grid_patrol::equation::part2(&data), 11387);
}

fn sample_rules() -> PageOrdering {
    let pairs = [
        (47, 53), (97, 13), (97, 61), (97, 47), (75, 29), (61, 13), (75, 53), (29, 13), (97, 29),
        (53, 29), (61, 53), (97, 53), (61, 29), (47, 13), (75, 47), (97, 75), (47, 61), (75, 61),
        (47, 29), (75, 13), (53, 13),
    ];
    PageOrdering::new(pairs.iter().map(|&(a, b)| PageOrderingElement::new(a, b)).collect())
}

#[test]
fn page_rows_are_summed_and_sorted() {
    let rules = sample_rules();
    let updates = vec![
        vec![75, 47, 61, 53, 29],
        vec![97, 61, 53, 29, 13],
        vec![75, 29, 13],
        vec![75, 97, 47, 61, 53],
        vec![61, 13, 29],
        vec![97, 13, 75, 29, 47],
    ];
    assert_eq!(grid_patrol::page_ordering::part1(&rules, &updates), 143);
    let mut row = vec![75, 97, 47, 61, 53];
    assert_eq!(update_list(&rules, &mut row), vec![97, 75, 47, 61, 53]);
    assert_eq!(row, vec![97, 75, 47, 61, 53]);
    let mut row = vec![97, 13, 75, 29, 47];
    assert_eq!(update_list(&rules, &mut row), vec![97, 75, 47, 29, 13]);
    let mut row = vec![61, 13, 29, 13];
    assert_eq!(update_list(&rules, &mut row), vec![61, 29, 13, 13]);
    assert_eq!(compare_pages(&rules, 5, 5), std::cmp::Ordering::Equal);
    assert_eq!(compare_pages(&rules, 47, 53), std::cmp::Ordering::Less);
    assert_eq!(compare_pages(&rules, 53, 47), std::cmp::Ordering::Greater);
}

#[test]
fn reports_are_counted() {
    let report = |v: Vec<u32>| Report::new(NumberList::new(v));
    let data = vec![
        report(vec![7, 6, 4, 2, 1]),
        report(vec![1, 2, 7, 8, 9]),
        report(vec![9, 7, 6, 2, 1]),
        report(vec![1, 3, 2, 4, 5]),
        report(vec![8, 6, 4, 4, 1]),
        report(vec![1, 3, 6, 7, 9]),
    ];
    assert_eq!(grid_patrol::report::part1(&data), 2);
    assert_eq!(grid_patrol::report::part2(&data), 4);
    assert_eq!(grid_patrol::report::part1(&vec![]), 0);
}

fn plain_compaction(mut files: Vec<DiskSpace>) -> Option<Vec<DiskSpace>> {
    let mut i = files.len().checked_sub(1)?;
    while i != 0 {
        let file = files[i];
        if file.is_free_space() {
            i -= 1;
            continue;
        }
        if let Some(possible_pos) = first_possible_space(&files, &file, i) {
            files[i] = DiskSpace::Free { length: file.length() };
            files.insert(possible_pos, file);
            i += 1;
            if let DiskSpace::Free { length } = files.get_mut(possible_pos + 1).unwrap() {
                *length -= file.length();
            }
        } else {
            i -= 1;
        }
        while files.last().map(DiskSpace::is_free_space).unwrap_or(false) {
            files.pop();
            i = i.checked_sub(1)?;
        }
    }
    Some(files)
}

#[test]
fn whole_files_are_moved() {
    let spaces = load_disk_space(&vec![1, 3, 2, 1, 1]);
    let moved = compact_files(spaces).unwrap();
    assert_eq!(
        moved,
        vec![
            DiskSpace::File { id: 0, length: 1 },
            DiskSpace::File { id: 2, length: 1 },
            DiskSpace::Free { length: 2 },
            DiskSpace::File { id: 1, length: 2 },
        ]
    );
    assert_eq!(disk::part2(&vec![1, 3, 2, 1, 1]), Some(1 * 2 + 4 + 5));
    assert_eq!(compact_files(vec![]), None);
    assert_eq!(disk::part2(&vec![]), None);
    let one = vec![DiskSpace::File { id: 0, length: 2 }];
    assert_eq!(compact_files(one.clone()), Some(one));
    let tail = load_disk_space(&vec![1, 1, 1, 1, 0, 0]);
    assert_eq!(compact_files(tail.clone()), plain_compaction(tail));
    assert_eq!(
        compact_files(load_disk_space(&vec![1, 1, 1, 1])),
        Some(load_disk_space(&vec![1, 1, 1]))
    );
    let stuck = vec![
        DiskSpace::File { id: 0, length: 1 },
        DiskSpace::File { id: 1, length: 1 },
        DiskSpace::Free { length: 1 },
        DiskSpace::Free { length: 1 },
    ];
    assert_eq!(plain_compaction(stuck.clone()), None);
    assert_eq!(compact_files(stuck), None);
    assert_eq!(disk::part2(&sample_map()), plain_compaction(load_disk_space(&sample_map())).map(|f| checksum(&f)));
}

#[test]
fn compaction_agrees_with_plain_loop() {
    let mut seed: u32 = 7;
    let mut next = || {
        seed = seed.wrapping_mul(1664525).wrapping_add(1013904223);
        seed >> 24
    };
    let mut some = 0;
    for _ in 0..500 {
        let n = (next() % 12) as usize;
        let numbers: Vec<u32> = (0..n).map(|_| next() % 5).collect();
        let spaces = load_disk_space(&numbers);
        let want = plain_compaction(spaces.clone());
        if want.is_some() {
            some += 1;
        }
        assert_eq!(compact_files(spaces), want, "{:?}", numbers);
    }
    assert!(some > 50);
}

#[test]
fn disk_is_pictured() {
    let text = |chars: Vec<char>| chars.into_iter().collect::<String>();
    assert_eq!(text(print_files(&load_disk_space(&vec![1, 2, 3, 4, 5]))), "0..111....22222");
    assert_eq!(
        text(print_files(&load_disk_space(&sample_map()))),
        "00...111...2...333.44.5555.6666.777.888899"
    );
    assert_eq!(text(print_files(&vec![])), "");
    assert_eq!(
        text(print_files(&vec![DiskSpace::File { id: 12, length: 2 }, DiskSpace::Free { length: 0 }])),
        "1212"
    );
    for n in [0usize, 1, 9, 10, 11, 99, 100, 12345, usize::MAX] {
        assert_eq!(text(decimal_of(n)), format!("{}", n));
    }
}
