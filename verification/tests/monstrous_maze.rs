use challenge_client::challenges_compute::challenge_monstrous_maze::MonstrousMaze;
use challenge_client::messages::input::challenges::monstrous_maze_input::MonstrousMazeInput;

fn maze(grid: &str, endurance: u32) -> MonstrousMaze {
    MonstrousMaze::new(MonstrousMazeInput { grid: grid.to_string(), endurance })
}

fn rows(grid: &str) -> Vec<Vec<char>> {
    grid.lines().map(|l| l.chars().collect()).collect()
}

#[test]
fn in_vec_finds_cells() {
    let v = vec![(0, 0), (1, 2)];
    assert!(MonstrousMaze::inVec(&v, &(1, 2)));
    assert!(!MonstrousMaze::inVec(&v, &(2, 1)));
    assert!(!MonstrousMaze::inVec(&vec![], &(0, 0)));
}

#[test]
fn search_around_a_wall() {
    let m = maze("", 2);
    let way = m.bfs_threadable(vec![(0, 0)], 2, &rows("Y #\n  #\n# X"), &(2, 2));
    assert_eq!(way, vec![(0, 0), (1, 0), (1, 1), (2, 1), (2, 2)]);
}

#[test]
fn search_without_endurance_fails() {
    let m = maze("", 0);
    assert_eq!(m.bfs_threadable(vec![(0, 0)], 0, &rows("YX"), &(0, 1)), vec![]);
}

#[test]
fn search_fails_when_a_monster_takes_the_last_endurance() {
    let m = maze("", 1);
    assert_eq!(m.bfs_threadable(vec![(0, 0)], 1, &rows("YM\n#X"), &(1, 1)), vec![]);
}

#[test]
fn solve_moves() {
    assert_eq!(maze("Y #\n  #\n# X", 2).solve().path, "v>v>");
    assert_eq!(maze("Y M\n#M#\n  X\n", 2).solve().path, ">vv>");
    assert_eq!(maze("YMX\n   \n   ", 1).solve().path, "vv>^>^");
    assert_eq!(maze("YMX\n   \n   ", 2).solve().path, "vv>^^>");
}

#[test]
fn maze_name() {
    assert_eq!(MonstrousMaze::name(), "MonstrousMaze");
}

#[test]
fn breadth_first_search_finds_the_exit() {
    let mut grid = rows("Y #\n  #\n# X");
    let path = MonstrousMaze::bfs(&mut grid, (0, 0), (2, 2), 2);
    assert_eq!(path, vec!['v', '>', 'v', '>']);
    assert_eq!(grid, rows("###\n###\n###"));
}

#[test]
fn breadth_first_search_shortest_moves() {
    let mut grid = rows("Y  \n   \n  X");
    assert_eq!(MonstrousMaze::bfs(&mut grid, (0, 0), (2, 2), 2), vec!['v', 'v', '>', '>']);
}

#[test]
fn breadth_first_search_stops_at_monsters() {
    let mut grid = rows("Y M\n#M#\n  X");
    assert_eq!(MonstrousMaze::bfs(&mut grid, (0, 0), (2, 2), 2), Vec::<char>::new());
    assert_eq!(grid, rows("##M\n#M#\n  X"));
}

#[test]
fn breadth_first_search_from_the_exit() {
    let mut grid = rows("Y  \n   \n  X");
    assert_eq!(MonstrousMaze::bfs(&mut grid, (0, 0), (0, 0), 2), Vec::<char>::new());
    assert_eq!(grid, rows("#  \n   \n  X"));
}

#[test]
fn breadth_first_search_bounds_columns_by_the_row_count() {
    let mut grid = rows("Y   \n   X");
    assert_eq!(MonstrousMaze::bfs(&mut grid, (0, 0), (1, 3), 2), Vec::<char>::new());
    assert_eq!(grid, rows("##  \n## X"));
}

fn follow(start: (usize, usize), moves: &[char]) -> (i64, i64) {
    let mut q = (start.0 as i64, start.1 as i64);
    for m in moves {
        match m {
            'v' => q.0 += 1,
            '^' => q.0 -= 1,
            '>' => q.1 += 1,
            '<' => q.1 -= 1,
            _ => {}
        }
    }
    q
}

#[test]
fn breadth_first_search_path_leads_to_the_end() {
    let mut grid = rows("  # \n Y# \n    \n X  ");
    let path = MonstrousMaze::bfs(&mut grid, (1, 1), (3, 1), 3);
    assert_eq!(path, vec!['v', 'v']);
    assert_eq!(follow((1, 1), &path), (3, 1));

    let mut grid = rows("Y#  \n #  \n    \n  #X");
    let path = MonstrousMaze::bfs(&mut grid, (0, 0), (3, 3), 3);
    assert_eq!(path, vec!['v', 'v', '>', '>', '>', 'v']);
    assert_eq!(follow((0, 0), &path), (3, 3));
}

#[test]
fn solve_path_leads_from_y_to_x() {
    let path: Vec<char> = maze("Y M\n#M#\n  X\n", 2).solve().path.chars().collect();
    assert_eq!(follow((0, 0), &path), (2, 2));
    let path: Vec<char> = maze("YMX\n   \n   ", 1).solve().path.chars().collect();
    assert_eq!(follow((0, 0), &path), (0, 2));
}

#[test]
fn search_from_a_way_with_a_repeated_cell() {
    let m = maze("", 2);
    let way = m.bfs_threadable(vec![(0, 0), (0, 0)], 2, &rows("  \n  "), &(1, 1));
    assert_eq!(way, vec![(0, 0), (0, 0), (1, 0), (1, 1)]);
}

#[test]
fn search_reads_nothing_without_endurance_or_at_the_end() {
    let m = maze("", 0);
    assert_eq!(m.bfs_threadable(vec![(7, 9)], 0, &vec![], &(0, 0)), vec![]);
    assert_eq!(m.bfs_threadable(vec![(7, 9)], 3, &vec![], &(7, 9)), vec![(7, 9)]);
}

#[test]
fn breadth_first_search_ignores_the_endurance() {
    for endurance in [0, 1, 2, 9] {
        let mut grid = rows("Y #\n  #\n# X");
        assert_eq!(MonstrousMaze::bfs(&mut grid, (0, 0), (2, 2), endurance), vec!['v', '>', 'v', '>']);
        assert_eq!(grid, rows("###\n###\n###"));
    }
}
