use grid_patrol::patrol::bitset::BitSet;
use grid_patrol::patrol::direction::Direction;
use grid_patrol::patrol::grid::Grid;
use grid_patrol::patrol::guard::Guard;
use grid_patrol::patrol::guard_set::GuardSet;
use grid_patrol::patrol::index::{
    first_above, holds, insert_sorted, insertion_point, last_below, remove_sorted, ObstacleIndex,
};
use grid_patrol::patrol::lightweight::LightWeightGuardSimulation;
use grid_patrol::patrol::load::{check_square, facing_of, load_data, LoadError};
use grid_patrol::patrol::obstacles::get_next_obstacle;
use grid_patrol::patrol::search::{candidates, count_loops, part1, part2};
use grid_patrol::patrol::simulation::{GridError, GuardSimulation, Outcome};

fn square_loop() -> GuardSimulation {
    let obstacles = vec![(0, 1), (1, 3), (3, 2), (2, 0)];
    GuardSimulation::new(4, obstacles, Guard::new((2, 1), Direction::Up)).unwrap()
}

fn ten_by_ten() -> GuardSimulation {
    let obstacles = vec![(0, 4), (1, 9), (3, 2), (4, 7), (6, 1), (7, 8), (8, 0), (9, 6)];
    GuardSimulation::new(10, obstacles, Guard::new((6, 4), Direction::Up)).unwrap()
}

#[test]
fn straight_exit_visits_first_row() {
    let mut sim = GuardSimulation::new(3, vec![], Guard::new((0, 0), Direction::Right)).unwrap();
    assert_eq!(sim.outcome(), Outcome::Running);
    assert!(!sim.run());
    assert_eq!(sim.outcome(), Outcome::Exited);
    assert!(sim.out_of_area);
    assert!(!sim.in_loop);
    assert_eq!(sim.visited_area.to_vec(), vec![(0, 0), (0, 1), (0, 2)]);
    assert_eq!(sim.visited_area.len(), 3);
    assert_eq!(sim.guard, Guard::new((0, 0), Direction::Right));
}

#[test]
fn single_turn_then_exit() {
    let mut sim =
        GuardSimulation::new(3, vec![(0, 1)], Guard::new((1, 1), Direction::Up)).unwrap();
    let mut moves = GuardSet::new(3);
    sim.step(&mut moves);
    assert_eq!(sim.guard, Guard::new((1, 1), Direction::Right));
    assert!(!sim.out_of_area && !sim.in_loop);
    assert_eq!(sim.visited_area.to_vec(), vec![(1, 1)]);
    sim.step(&mut moves);
    assert!(sim.out_of_area);
    assert!(!sim.in_loop);
    assert_eq!(sim.guard, Guard::new((1, 1), Direction::Right));
    assert_eq!(sim.visited_area.to_vec(), vec![(1, 1), (1, 2)]);
}

#[test]
fn single_turn_run_exits() {
    let mut sim =
        GuardSimulation::new(3, vec![(0, 1)], Guard::new((1, 1), Direction::Up)).unwrap();
    assert!(!sim.run());
    assert!(sim.out_of_area);
    assert_eq!(sim.visited_area.to_vec(), vec![(1, 1), (1, 2)]);
}

#[test]
fn closed_rectangle_loops_at_starting_corner() {
    let mut sim = square_loop();
    assert!(sim.run());
    assert_eq!(sim.outcome(), Outcome::Looping);
    assert!(sim.in_loop);
    assert!(!sim.out_of_area);
    assert_eq!(sim.guard, Guard::new((2, 1), Direction::Up));
    assert_eq!(sim.visited_area.to_vec(), vec![(1, 1), (1, 2), (2, 1), (2, 2)]);
}

#[test]
fn lightweight_agrees_with_full_run() {
    let mut light = square_loop().into_lightweight();
    assert_eq!(light.outcome(), Outcome::Running);
    assert!(light.run());
    assert_eq!(light.outcome(), Outcome::Looping);
    assert!(light.in_loop && !light.out_of_area);
    assert_eq!(light.guard, Guard::new((2, 1), Direction::Up));
    let mut light = GuardSimulation::new(3, vec![(0, 1)], Guard::new((1, 1), Direction::Up))
        .unwrap()
        .into_lightweight();
    assert!(!light.run());
    assert!(light.out_of_area && !light.in_loop);
    assert_eq!(light.guard, Guard::new((1, 1), Direction::Right));
}

#[test]
fn finished_patrol_is_left_alone() {
    let mut sim = square_loop();
    assert!(sim.run());
    let area = sim.visited_area.to_vec();
    assert!(sim.run());
    assert_eq!(sim.visited_area.to_vec(), area);
    let mut sim = GuardSimulation::new(3, vec![], Guard::new((0, 0), Direction::Right)).unwrap();
    assert!(!sim.run());
    assert!(!sim.run());
    assert!(sim.out_of_area);
}

#[test]
fn run_is_repeatable() {
    let mut a = ten_by_ten();
    let mut b = ten_by_ten();
    assert_eq!(a.run(), b.run());
    assert_eq!(a.visited_area.to_vec(), b.visited_area.to_vec());
    assert_eq!(a.guard, b.guard);
}

#[test]
fn ten_by_ten_counts() {
    assert_eq!(part1(ten_by_ten()), 41);
    assert_eq!(part2(ten_by_ten()), 6);
}

#[test]
fn perturbation_tests_all_but_start() {
    let mut sim = ten_by_ten();
    sim.run();
    let k = sim.visited_area.len();
    let cells = candidates(&sim.visited_area, (6, 4));
    assert_eq!(cells.len(), k - 1);
    assert!(!cells.contains(&(6, 4)));
    let mut light = ten_by_ten().into_lightweight();
    let n = count_loops(&mut light, &cells, Guard::new((6, 4), Direction::Up));
    assert_eq!(n, 6);
    assert!(n <= k - 1);
    assert_eq!(light.grid.obstacles(), ten_by_ten().obstacles);
}

#[test]
fn unvisited_cell_changes_nothing() {
    let mut sim = ten_by_ten();
    sim.run();
    let mut with_extra = ten_by_ten().into_lightweight();
    assert!(!sim.visited_area.contains(&(0, 0)));
    with_extra.insert_temp_obstacle((0, 0));
    assert!(!with_extra.run());
}

#[test]
fn temp_obstacle_is_taken_away_again() {
    let mut light = ten_by_ten().into_lightweight();
    let before = light.grid.obstacles();
    assert_eq!(before, ten_by_ten().obstacles);
    light.insert_temp_obstacle((6, 3));
    assert!(light.obstacle_at((6, 3)));
    assert_eq!(light.grid.obstacles().len(), before.len() + 1);
    assert!(light.run());
    light.remove_temp_obstacle((6, 3));
    assert_eq!(light.grid.obstacles(), before);
    assert!(!light.obstacle_at((6, 3)));
    light.insert_temp_obstacle((0, 4));
    assert_eq!(light.grid.obstacles(), before);
    light.remove_temp_obstacle((0, 4));
    assert_eq!(light.grid.obstacles(), before);
    assert!(light.obstacle_at((0, 4)));
    light.remove_temp_obstacle((5, 5));
    assert_eq!(light.grid.obstacles(), before);
    light.insert_temp_obstacle((5, 5));
    light.remove_temp_obstacle((5, 4));
    assert!(light.obstacle_at((5, 5)));
    light.remove_temp_obstacle((5, 5));
    assert_eq!(light.grid.obstacles(), before);
}

#[test]
fn grid_queries() {
    let light = ten_by_ten().into_lightweight();
    assert!(light.obstacle_at((0, 4)));
    assert!(!light.obstacle_at((4, 0)));
    assert!(!light.obstacle_at((10, 4)));
    assert!(light.in_bounds((9, 9)));
    assert!(!light.in_bounds((10, 0)));
    assert!(!light.in_bounds((0, 10)));
    let grid = Grid::from_obstacles(3, &vec![(2, 1), (0, 0), (2, 1), (0, 2)]);
    assert_eq!(grid.size(), 3);
    assert_eq!(grid.obstacles(), vec![(0, 0), (0, 2), (2, 1)]);
    assert!(grid.obstacle_at((2, 1)));
    assert!(!grid.obstacle_at((1, 2)));
    assert!(grid.in_bounds((2, 2)));
    assert!(!grid.in_bounds((3, 2)));
    assert_eq!(grid.next_obstacle(&Guard::new((0, 1), Direction::Right)), Some((0, 2)));
    assert_eq!(grid.next_obstacle(&Guard::new((0, 1), Direction::Left)), Some((0, 0)));
    assert_eq!(grid.next_obstacle(&Guard::new((0, 1), Direction::Down)), Some((2, 1)));
    assert_eq!(grid.next_obstacle(&Guard::new((0, 1), Direction::Up)), None);
    assert_eq!(grid.next_obstacle(&Guard::new((2, 1), Direction::Up)), None);
}

#[test]
fn sorted_lists() {
    let mut list: Vec<usize> = vec![];
    assert!(insert_sorted(&mut list, 5));
    assert!(insert_sorted(&mut list, 2));
    assert!(insert_sorted(&mut list, 9));
    assert!(!insert_sorted(&mut list, 5));
    assert!(insert_sorted(&mut list, 7));
    assert_eq!(list, vec![2, 5, 7, 9]);
    assert_eq!(first_above(&list, 5), Some(7));
    assert_eq!(first_above(&list, 0), Some(2));
    assert_eq!(first_above(&list, 9), None);
    assert_eq!(last_below(&list, 5), Some(2));
    assert_eq!(last_below(&list, 100), Some(9));
    assert_eq!(last_below(&list, 2), None);
    assert_eq!(insertion_point(&list, 0), 0);
    assert_eq!(insertion_point(&list, 5), 1);
    assert_eq!(insertion_point(&list, 6), 2);
    assert_eq!(insertion_point(&list, 10), 4);
    assert!(holds(&list, 7));
    assert!(!holds(&list, 6));
    assert!(remove_sorted(&mut list, 5));
    assert!(!remove_sorted(&mut list, 5));
    assert!(!remove_sorted(&mut list, 1));
    assert_eq!(list, vec![2, 7, 9]);
}

#[test]
fn index_agrees_with_scan() {
    let obstacles = vec![(2, 0), (2, 1), (2, 6), (2, 8), (0, 4), (1, 4), (7, 4), (5, 4), (3, 3)];
    let mut index = ObstacleIndex::from_obstacles(9, &obstacles);
    assert_eq!(index.size(), 9);
    for r in 0..9 {
        for c in 0..9 {
            assert_eq!(index.contains((r, c)), obstacles.contains(&(r, c)));
            for d in [Direction::Up, Direction::Down, Direction::Left, Direction::Right] {
                let g = Guard::new((r, c), d);
                assert_eq!(index.next_obstacle(&g), get_next_obstacle(&g, &obstacles));
            }
        }
    }
    assert!(index.insert((4, 4)));
    assert!(!index.insert((4, 4)));
    assert_eq!(index.next_obstacle(&Guard::new((2, 4), Direction::Down)), Some((4, 4)));
    assert_eq!(index.next_obstacle(&Guard::new((4, 8), Direction::Left)), Some((4, 4)));
    assert!(index.remove((4, 4)));
    assert!(!index.remove((4, 4)));
    assert!(!index.remove((9, 9)));
    assert_eq!(index.next_obstacle(&Guard::new((2, 4), Direction::Down)), Some((5, 4)));
    let mut sorted = obstacles.clone();
    sorted.sort();
    assert_eq!(index.to_vec(), sorted);
    assert_eq!(ObstacleIndex::new(2).to_vec(), vec![]);
}

#[test]
fn lightweight_from_parts() {
    let grid = Grid::from_obstacles(3, &vec![(0, 1)]);
    let mut light = LightWeightGuardSimulation::new(grid, Guard::new((1, 1), Direction::Up));
    assert_eq!(light.get_next_obstacle(), Some((0, 1)));
    let mut moves = GuardSet::new(3);
    light.step(&mut moves);
    assert_eq!(light.guard, Guard::new((1, 1), Direction::Right));
    light.step(&mut moves);
    assert!(light.out_of_area);
    light.reset(Guard::new((2, 1), Direction::Up));
    assert!(!light.out_of_area && !light.in_loop);
    light.do_move((0, 1));
    assert_eq!(light.guard, Guard::new((1, 1), Direction::Up));
}

fn rows_of(lines: &[&str]) -> Vec<Vec<char>> {
    lines.iter().map(|l| l.chars().collect()).collect()
}

#[test]
fn map_is_loaded() {
    let rows = rows_of(&[
        "....#.....",
        ".........#",
        "..........",
        "..#.......",
        ".......#..",
        "..........",
        ".#..^.....",
        "........#.",
        "#.........",
        "......#...",
    ]);
    let sim = load_data(&rows).unwrap();
    assert_eq!(sim.size, 10);
    assert_eq!(sim.guard, Guard::new((6, 4), Direction::Up));
    assert_eq!(sim.obstacles, ten_by_ten().obstacles);
    assert!(!sim.out_of_area && !sim.in_loop);
    assert_eq!(sim.visited_area.len(), 0);
    assert_eq!(part1(sim), 41);
    assert_eq!(part2(load_data(&rows).unwrap()), 6);
}

#[test]
fn map_faults() {
    assert_eq!(load_data(&rows_of(&["..", "..."])).unwrap_err(), LoadError::NotSquare);
    assert_eq!(load_data(&rows_of(&["^.."])).unwrap_err(), LoadError::NotSquare);
    assert_eq!(load_data(&rows_of(&["..", "#."])).unwrap_err(), LoadError::NoStart);
    assert_eq!(load_data(&rows_of(&[])).unwrap_err(), LoadError::NoStart);
    let sim = load_data(&rows_of(&["x.#", ".<v", "^>."])).unwrap();
    assert_eq!(sim.guard, Guard::new((1, 1), Direction::Left));
    assert_eq!(sim.obstacles, vec![(0, 2)]);
    assert!(check_square(&rows_of(&["ab", "cd"])));
    assert!(!check_square(&rows_of(&["ab", "c"])));
    assert_eq!(facing_of('^'), Some(Direction::Up));
    assert_eq!(facing_of('>'), Some(Direction::Right));
    assert_eq!(facing_of('v'), Some(Direction::Down));
    assert_eq!(facing_of('<'), Some(Direction::Left));
    assert_eq!(facing_of('#'), None);
}

#[test]
fn next_obstacle_is_nearest_in_line() {
    let obstacles = vec![(2, 0), (2, 1), (2, 6), (2, 8), (0, 4), (1, 4), (7, 4), (5, 4), (3, 3)];
    let at = |d| Guard::new((2, 4), d);
    assert_eq!(get_next_obstacle(&at(Direction::Left), &obstacles), Some((2, 1)));
    assert_eq!(get_next_obstacle(&at(Direction::Right), &obstacles), Some((2, 6)));
    assert_eq!(get_next_obstacle(&at(Direction::Up), &obstacles), Some((1, 4)));
    assert_eq!(get_next_obstacle(&at(Direction::Down), &obstacles), Some((5, 4)));
    assert_eq!(get_next_obstacle(&Guard::new((3, 3), Direction::Up), &obstacles), None);
    assert_eq!(get_next_obstacle(&Guard::new((2, 8), Direction::Right), &obstacles), None);
    assert_eq!(get_next_obstacle(&at(Direction::Up), &vec![]), None);
}

#[test]
fn grid_faults() {
    let g = Guard::new((1, 1), Direction::Up);
    assert_eq!(GuardSimulation::new(usize::MAX, vec![], g).unwrap_err(), GridError::TooLarge);
    assert_eq!(GuardSimulation::new(1, vec![], g).unwrap_err(), GridError::StartOutOfBounds);
    assert_eq!(GuardSimulation::new(0, vec![], g).unwrap_err(), GridError::StartOutOfBounds);
    assert_eq!(
        GuardSimulation::new(3, vec![(0, 0), (3, 0)], g).unwrap_err(),
        GridError::ObstacleOutOfBounds
    );
    assert_eq!(
        GuardSimulation::new(3, vec![(1, 1), (0, 3)], g).unwrap_err(),
        GridError::ObstacleOutOfBounds
    );
    assert_eq!(
        GuardSimulation::new(3, vec![(0, 0), (1, 1)], g).unwrap_err(),
        GridError::StartOnObstacle
    );
    assert!(GuardSimulation::new(3, vec![(0, 0)], g).is_ok());
}

#[test]
fn rotation_and_index() {
    let mut d = Direction::Up;
    d.rotate90();
    assert_eq!(d, Direction::Right);
    d.rotate90();
    assert_eq!(d, Direction::Down);
    d.rotate90();
    assert_eq!(d, Direction::Left);
    d.rotate90();
    assert_eq!(d, Direction::Up);
    assert_eq!(Direction::Up.to_int(), 0);
    assert_eq!(Direction::Down.to_int(), 1);
    assert_eq!(Direction::Left.to_int(), 2);
    assert_eq!(Direction::Right.to_int(), 3);
}

#[test]
fn position_set_basics() {
    let mut s = BitSet::new(4);
    assert_eq!(s.len(), 0);
    assert!(!s.contains(&(1, 2)));
    s.insert((1, 2));
    s.insert((0, 3));
    s.insert((1, 2));
    assert_eq!(s.len(), 2);
    assert!(s.contains(&(1, 2)));
    assert!(!s.contains(&(2, 1)));
    assert!(!s.contains(&(4, 4)));
    assert_eq!(s.to_vec(), vec![(0, 3), (1, 2)]);
    s.insert_row_span(3, 1, 3);
    s.insert_col_span(3, 0, 1);
    s.insert_row_span(2, 3, 1);
    assert_eq!(s.to_vec(), vec![(0, 3), (1, 2), (1, 3), (3, 1), (3, 2), (3, 3)]);
    assert_eq!(s.len(), 6);
}

#[test]
fn guard_set_basics() {
    let mut s = GuardSet::new(3);
    let g = Guard::new((1, 2), Direction::Left);
    assert!(!s.contains(&g));
    s.insert(&g);
    assert!(s.contains(&g));
    assert!(!s.contains(&Guard::new((1, 2), Direction::Right)));
    assert!(!s.contains(&Guard::new((2, 1), Direction::Left)));
    assert!(!s.contains(&Guard::new((3, 3), Direction::Left)));
    assert!(g.same(&Guard::new((1, 2), Direction::Left)));
    assert!(!g.same(&Guard::new((1, 2), Direction::Up)));
}

#[test]
fn grid_is_rendered() {
    let text = |rows: Vec<Vec<char>>| -> Vec<String> {
        rows.into_iter().map(|r| r.into_iter().collect()).collect()
    };
    let mut sim =
        GuardSimulation::new(3, vec![(0, 1)], Guard::new((1, 1), Direction::Up)).unwrap();
    assert_eq!(text(sim.render()), vec![".#.", ".^.", "..."]);
    let mut moves = GuardSet::new(3);
    sim.step(&mut moves);
    assert_eq!(text(sim.render()), vec![".#.", ".>.", "..."]);
    sim.run();
    assert_eq!(text(sim.render()), vec![".#.", ".XX", "..."]);
    assert!(sim.obstacle_at((0, 1)));
    assert!(!sim.obstacle_at((1, 0)));
    let mut sim = square_loop();
    sim.run();
    assert_eq!(text(sim.render()), vec![".#..", ".XX#", "#^X.", "..#."]);
    let mut sim = GuardSimulation::new(2, vec![], Guard::new((0, 1), Direction::Down)).unwrap();
    assert_eq!(text(sim.render()), vec![".v", ".."]);
    sim.guard = Guard::new((1, 0), Direction::Left);
    assert_eq!(text(sim.render()), vec!["..", "<."]);
}
