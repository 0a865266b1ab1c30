use ball_maze::Solution;

#[test]
fn sample_1() {
    let result = Solution::shortest_distance(&(4, 3), &(0, 1), &Solution::test_fixture_1());
    assert_eq!(result, "lul");
}

#[test]
fn sample_2() {
    let result = Solution::shortest_distance(&(4, 3), &(3, 0), &Solution::test_fixture_1());
    assert_eq!(result, "impossible");
}

#[test]
fn same_query_twice_gives_same_answer() {
    let maze = Solution::test_fixture_1();
    let first = Solution::shortest_distance(&(4, 3), &(0, 1), &maze);
    let second = Solution::shortest_distance(&(4, 3), &(0, 1), &maze);
    assert_eq!(first, second);
    assert_eq!(first, "lul");
}

#[test]
fn hole_walled_in_is_impossible() {
    let maze = vec![vec![0, 1, 0], vec![1, 0, 1], vec![0, 1, 0]];
    assert_eq!(Solution::shortest_distance(&(0, 0), &(1, 1), &maze), "impossible");
}

#[test]
fn hole_behind_wall_in_single_row_is_impossible() {
    let maze = vec![vec![0, 1, 0]];
    assert_eq!(Solution::shortest_distance(&(0, 0), &(0, 2), &maze), "impossible");
}

#[test]
fn adjacent_hole_takes_one_roll() {
    let maze = vec![vec![0, 0, 0]];
    assert_eq!(Solution::shortest_distance(&(0, 0), &(0, 1), &maze), "r");
}

#[test]
fn adjacent_hole_above_in_fixture() {
    let result = Solution::shortest_distance(&(4, 3), &(3, 3), &Solution::test_fixture_1());
    assert_eq!(result, "u");
}

#[test]
fn single_row_rolls_left_into_hole() {
    let maze = vec![vec![0, 0, 0, 0, 0]];
    assert_eq!(Solution::shortest_distance(&(0, 4), &(0, 0), &maze), "l");
}

#[test]
fn single_column_rolls_down_into_hole() {
    let maze = vec![vec![0], vec![0], vec![0]];
    assert_eq!(Solution::shortest_distance(&(0, 0), &(2, 0), &maze), "d");
}

#[test]
fn single_column_rolls_up_into_hole() {
    let maze = vec![vec![0], vec![0], vec![0], vec![0]];
    assert_eq!(Solution::shortest_distance(&(3, 0), &(1, 0), &maze), "u");
}

#[test]
fn rolls_past_nothing_but_stops_in_hole_midway() {
    let maze = vec![vec![0, 0, 0, 0]];
    assert_eq!(Solution::shortest_distance(&(0, 0), &(0, 2), &maze), "r");
}

#[test]
fn smallest_path_picks_least_among_shortest() {
    let paths = vec![
        (vec!['u', 'l'], 6),
        (vec!['l', 'u', 'l'], 6),
        (vec!['d'], 9),
    ];
    assert_eq!(Solution::smallest_path(&paths, 6), Some(vec!['l', 'u', 'l']));
}

#[test]
fn smallest_path_prefers_a_prefix() {
    let paths = vec![(vec!['l', 'u'], 4), (vec!['l'], 4)];
    assert_eq!(Solution::smallest_path(&paths, 4), Some(vec!['l']));
}

#[test]
fn smallest_path_ignores_longer_paths() {
    let paths = vec![(vec!['d'], 9), (vec!['u', 'r'], 5)];
    assert_eq!(Solution::smallest_path(&paths, 5), Some(vec!['u', 'r']));
}

#[test]
fn smallest_path_none_without_match() {
    let paths = vec![(vec!['d'], 9)];
    assert_eq!(Solution::smallest_path(&paths, 3), None);
    assert_eq!(Solution::smallest_path(&Vec::new(), 3), None);
}

#[test]
fn fixture_layout() {
    let maze = Solution::test_fixture_1();
    assert_eq!(maze.len(), 5);
    assert_eq!(maze[1], vec![1, 1, 0, 0, 1]);
    assert_eq!(maze[4], vec![0, 1, 0, 0, 0]);
}
