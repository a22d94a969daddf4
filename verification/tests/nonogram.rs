use challenge_client::challenges_compute::challenge_nonogram::Nonogram;
use challenge_client::messages::input::challenges::nonogram_input::NonogramSolverInput;

fn f() -> bool {
    false
}
fn t() -> bool {
    true
}

#[test]
fn combinations_in_order() {
    let c = Nonogram::_create_combi(4, 2);
    assert_eq!(
        c,
        vec![
            vec![f(), f(), t(), t()],
            vec![f(), t(), f(), t()],
            vec![f(), t(), t(), f()],
            vec![t(), f(), f(), t()],
            vec![t(), f(), t(), f()],
            vec![t(), t(), f(), f()],
        ]
    );
    assert_eq!(Nonogram::_create_combi(3, 0), vec![vec![f(), f(), f()]]);
    assert_eq!(Nonogram::_create_combi(0, 0), vec![Vec::<bool>::new()]);
}

#[test]
fn candidate_lines_of_a_clue() {
    let lines = Nonogram::create_solution(&vec![vec![1, 1]], 4);
    assert_eq!(
        lines,
        vec![vec![
            vec![f(), t(), f(), t()],
            vec![t(), f(), f(), t()],
            vec![t(), f(), t(), f()],
        ]]
    );
    let lines = Nonogram::create_solution(&vec![vec![], vec![3]], 3);
    assert_eq!(lines, vec![vec![vec![f(), f(), f()]], vec![vec![t(), t(), t()]]]);
}

#[test]
fn verify_reports_the_failing_cell() {
    let grid = vec![vec![t(), t()], vec![t(), f()]];
    assert_eq!(Nonogram::_verify(grid.clone(), vec![vec![2], vec![1]]), -1);
    assert_eq!(Nonogram::_verify(grid.clone(), vec![vec![1], vec![1]]), 2);
    assert_eq!(Nonogram::_verify(grid.clone(), vec![vec![2], vec![2]]), 1);
    assert_eq!(Nonogram::_verify(grid, vec![vec![], vec![1]]), 0);
}

#[test]
fn verify_rows_on_first_choices() {
    let rows = Nonogram::create_solution(&vec![vec![2], vec![1], vec![3]], 3);
    let cols = vec![vec![1, 1], vec![3], vec![1]];
    assert_eq!(Nonogram::_verify_rows(&vec![0, 0, 0], &rows, &cols), 1);
    assert_eq!(Nonogram::_verify_rows(&vec![0, 1, 0], &rows, &cols), 2);
    assert_eq!(Nonogram::_verify_rows(&vec![1, 1, 0], &rows, &cols), -1);
}

#[test]
fn solve_rows_finds_a_grid() {
    let rows = Nonogram::create_solution(&vec![vec![2], vec![1], vec![3]], 3);
    let cols = vec![vec![1, 1], vec![3], vec![1]];
    let mut s = vec![0, 0, 0];
    let grid = Nonogram::_solve_rows(&mut s, &rows, &cols, 0);
    assert_eq!(s, vec![1, 1, 0]);
    assert_eq!(Nonogram::_vec_to_string(grid), "## \n # \n###\n");
}

#[test]
fn text_of_a_grid() {
    assert_eq!(Nonogram::_vec_to_string(vec![]), "");
    assert_eq!(Nonogram::_vec_to_string(vec![vec![t(), f()], vec![f(), t()]]), "# \n #\n");
}

#[test]
fn solve_a_nonogram() {
    let n = Nonogram::new(NonogramSolverInput {
        rows: vec![vec![2], vec![1], vec![3]],
        cols: vec![vec![1, 1], vec![3], vec![1]],
    });
    assert_eq!(n.solve().grid, "## \n # \n###\n");
    let n = Nonogram::new(NonogramSolverInput {
        rows: vec![vec![1, 1], vec![1], vec![1, 1]],
        cols: vec![vec![1, 1], vec![1], vec![1, 1]],
    });
    assert_eq!(n.solve().grid, "# #\n # \n# #\n");
}

#[test]
fn solve_an_impossible_nonogram_gives_nothing() {
    let n = Nonogram::new(NonogramSolverInput {
        rows: vec![vec![1], vec![1, 1], vec![3]],
        cols: vec![vec![1, 1], vec![1, 1], vec![1, 1]],
    });
    assert_eq!(n.solve().grid, "");
}

#[test]
fn nonogram_name() {
    assert_eq!(Nonogram::name(), "Nonogram");
}

#[test]
fn verify_accepts_a_line_with_runs_left_over() {
    let grid = vec![vec![t()], vec![f()], vec![f()]];
    assert_eq!(Nonogram::_verify(grid.clone(), vec![vec![1, 1]]), -1);
    assert_eq!(Nonogram::_verify(grid, vec![vec![2]]), 1);
}

#[test]
fn verify_rows_reads_only_the_first_choices() {
    let rows = Nonogram::create_solution(&vec![vec![2], vec![1], vec![3]], 3);
    let cols = vec![vec![1, 1], vec![3], vec![1]];
    assert_eq!(Nonogram::_verify_rows(&vec![1, 1, 0, 7, 9], &rows, &cols), -1);
    assert_eq!(Nonogram::_verify_rows(&vec![0, 0, 0, 4], &rows, &cols), 1);
}

#[test]
fn verify_rows_reads_only_the_chosen_layouts() {
    let t = true;
    let f = false;
    let rows = vec![vec![vec![t, f], vec![t]], vec![vec![f, t]]];
    let cols = vec![vec![1], vec![1]];
    assert_eq!(Nonogram::_verify_rows(&vec![0, 0], &rows, &cols), -1);
    let cols = vec![vec![2], vec![1]];
    assert_eq!(Nonogram::_verify_rows(&vec![0, 0], &rows, &cols), 1);
}
