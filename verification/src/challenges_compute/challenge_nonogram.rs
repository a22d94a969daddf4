use vstd::prelude::*;
use crate::messages::input::challenges::nonogram_input::{NonogramSolverInput, clue_rows, copy_clues};
use crate::messages::output::challenges::nonogram_output::NonogramSolverOutput;

verus! {

/// The nonogram solver.
pub struct Nonogram {
    pub input: NonogramSolverInput,
}

/// The cells of a grid stored as a vector of vectors.
pub open spec fn bool_rows(v: &Vec<Vec<bool>>) -> Seq<Seq<bool>> {
    Seq::new(v.len() as nat, |i: int| v@[i]@)
}


/// The candidate layouts of every line, stored as vectors.
pub open spec fn layout_rows(v: &Vec<Vec<Vec<bool>>>) -> Seq<Seq<Seq<bool>>> {
    Seq::new(v.len() as nat, |i: int| bool_rows(&v@[i]))
}

// ---------------------------------------------------------------------------
// Candidate layouts of one line.
// ---------------------------------------------------------------------------

/// The number of `true` in `s`.
pub open spec fn count_true(s: Seq<bool>) -> nat
    decreases s.len(),
{
    if s.len() == 0 {
        0
    } else {
        count_true(s.drop_last()) + if s.last() {
            1nat
        } else {
            0nat
        }
    }
}

/// The placements that complete `array` from position `index` on, `cnt`
/// of the `nb` marks being already placed: position `index` left unmarked
/// first, then marked.
pub open spec fn combis(array: Seq<bool>, nb: int, index: int, cnt: int) -> Seq<Seq<bool>>
    decreases array.len() - index,
{
    if cnt == nb {
        seq![array]
    } else if index - cnt > array.len() - nb || index >= array.len() || index < 0 {
        seq![]
    } else {
        combis(array, nb, index + 1, cnt) + combis(array.update(index, true), nb, index + 1, cnt + 1)
    }
}

/// `n` unmarked positions.
pub open spec fn all_false(n: nat) -> Seq<bool> {
    Seq::new(n, |i: int| false)
}

/// The ways to mark `nb` of `range` positions, in the order of `combis`.
pub open spec fn placements(range: nat, nb: nat) -> Seq<Seq<bool>> {
    combis(all_false(range), nb as int, 0, 0)
}

/// `n` filled cells.
pub open spec fn filled(n: nat) -> Seq<bool> {
    Seq::new(n, |i: int| true)
}

/// The line drawn from a placement: a marked position draws the next run of
/// the clue (followed by one empty cell unless it is the clue's last run),
/// an unmarked position draws one empty cell.
pub open spec fn line_of(p: Seq<bool>, clue: Seq<u32>) -> Seq<bool>
    decreases p.len(),
{
    if p.len() == 0 {
        seq![]
    } else {
        let prev = line_of(p.drop_last(), clue);
        let idx = count_true(p.drop_last()) as int;
        if p.last() {
            prev + filled(clue[idx] as nat) + (if idx < clue.len() - 1 {
                seq![false]
            } else {
                seq![]
            })
        } else {
            prev.push(false)
        }
    }
}

/// The lines drawn from every placement of `groups` marks among
/// `nb_empty + groups` positions.
pub open spec fn layouts(nb_empty: nat, groups: nat, clue: Seq<u32>) -> Seq<Seq<bool>> {
    let c = placements(nb_empty + groups, groups);
    Seq::new(c.len(), |k: int| line_of(c[k], clue))
}

/// The sum of the runs of a clue.
pub open spec fn clue_sum(clue: Seq<u32>) -> nat
    decreases clue.len(),
{
    if clue.len() == 0 {
        0
    } else {
        clue_sum(clue.drop_last()) + clue.last() as nat
    }
}

/// The number of unmarked positions for a clue on a line of `nb` cells.
pub open spec fn empty_count(clue: Seq<u32>, nb: nat) -> nat {
    if clue.len() == 0 {
        nb
    } else {
        (1 + nb - clue_sum(clue) - clue.len()) as nat
    }
}

/// The candidate layouts of a line of `nb` cells for `clue`.
pub open spec fn candidate_lines(clue: Seq<u32>, nb: nat) -> Seq<Seq<bool>> {
    layouts(empty_count(clue, nb), clue.len(), clue)
}

/// A clue fits on a line of `nb` cells: its runs, one cell apart, are no
/// longer than the line, and their sum is a `u32`.
pub open spec fn clue_fits(clue: Seq<u32>, nb: nat) -> bool {
    &&& clue_sum(clue) <= u32::MAX
    &&& clue.len() > 0 ==> clue_sum(clue) + clue.len() <= nb + 1
    &&& nb + 1 <= usize::MAX
}

proof fn lemma_count_true_update(s: Seq<bool>, i: int)
    requires
        0 <= i < s.len(),
        !s[i],
    ensures
        count_true(s.update(i, true)) == count_true(s) + 1,
    decreases s.len(),
{
    if i < s.len() - 1 {
        assert(s.update(i, true).drop_last() =~= s.drop_last().update(i, true));
        lemma_count_true_update(s.drop_last(), i);
    } else {
        assert(s.update(i, true).drop_last() =~= s.drop_last());
    }
}

proof fn lemma_count_true_prefix(s: Seq<bool>, i: int)
    requires
        0 <= i < s.len(),
    ensures
        count_true(s.subrange(0, i)) + (if s[i] {
            1nat
        } else {
            0nat
        }) == count_true(s.subrange(0, i + 1)),
        count_true(s.subrange(0, i + 1)) <= count_true(s),
    decreases s.len(),
{
    assert(s.subrange(0, i + 1).drop_last() =~= s.subrange(0, i));
    if i + 1 < s.len() {
        lemma_count_true_prefix(s.drop_last(), i);
        assert(s.drop_last().subrange(0, i + 1) =~= s.subrange(0, i + 1));
    } else {
        assert(s.subrange(0, i + 1) =~= s);
    }
}

proof fn lemma_count_true_all_false(n: nat)
    ensures
        count_true(all_false(n)) == 0,
    decreases n,
{
    if n > 0 {
        assert(all_false(n).drop_last() =~= all_false((n - 1) as nat));
        lemma_count_true_all_false((n - 1) as nat);
    }
}

/// Every placement enumerated from `array` has the length of `array` and
/// exactly `nb` marks.
pub proof fn lemma_combis_marks(array: Seq<bool>, nb: int, index: int, cnt: int)
    requires
        0 <= cnt <= nb <= array.len(),
        cnt <= index <= array.len(),
        count_true(array) == cnt,
        forall|k: int| index <= k < array.len() ==> !array[k],
    ensures
        forall|e: Seq<bool>|
            combis(array, nb, index, cnt).contains(e) ==> e.len() == array.len() && count_true(e)
                == nb,
    decreases array.len() - index,
{
    let r = combis(array, nb, index, cnt);
    if cnt == nb {
        assert forall|e: Seq<bool>| r.contains(e) implies e.len() == array.len() && count_true(e)
            == nb by {
            assert(r[0] == array);
        }
    } else if index - cnt > array.len() - nb || index >= array.len() || index < 0 {
    } else {
        let a2 = array.update(index, true);
        lemma_count_true_update(array, index);
        lemma_combis_marks(array, nb, index + 1, cnt);
        lemma_combis_marks(a2, nb, index + 1, cnt + 1);
        let r1 = combis(array, nb, index + 1, cnt);
        let r2 = combis(a2, nb, index + 1, cnt + 1);
        assert forall|e: Seq<bool>| r.contains(e) implies e.len() == array.len() && count_true(e)
            == nb by {
            let k = choose|k: int| 0 <= k < r.len() && r[k] == e;
            if k < r1.len() {
                assert(r1.contains(r1[k]));
            } else {
                assert(r2[k - r1.len()] == e);
                assert(r2.contains(r2[k - r1.len()]));
            }
        }
    }
}

fn copy_bools(v: &Vec<bool>) -> (r: Vec<bool>)
    ensures
        r@ == v@,
{
    let mut r: Vec<bool> = Vec::new();
    let mut i: usize = 0;
    while i < v.len()
        invariant
            i <= v.len(),
            r@ == v@.subrange(0, i as int),
        decreases v.len() - i,
    {
        r.push(v[i]);
        assert(r@ =~= v@.subrange(0, i + 1));
        i = i + 1;
    }
    assert(v@.subrange(0, v.len() as int) =~= v@);
    r
}

impl Nonogram {
    /// The candidate layouts of every line described by `line`, each line
    /// having `nb` cells.
    pub fn create_solution(line: &Vec<Vec<u32>>, nb: usize) -> (r: Vec<Vec<Vec<bool>>>)
        requires
            forall|i: int| 0 <= i < line.len() ==> clue_fits(#[trigger] line@[i]@, nb as nat),
        ensures
            r.len() == line.len(),
            forall|i: int|
                0 <= i < line.len() ==> #[trigger] layout_rows(&r)[i] == candidate_lines(
                    line@[i]@,
                    nb as nat,
                ),
    {
        let mut r: Vec<Vec<Vec<bool>>> = Vec::new();
        let mut k: usize = 0;
        while k < line.len()
            invariant
                k <= line.len(),
                forall|i: int| 0 <= i < line.len() ==> clue_fits(#[trigger] line@[i]@, nb as nat),
                r.len() == k,
                forall|i: int|
                    0 <= i < k ==> #[trigger] layout_rows(&r)[i] == candidate_lines(
                        line@[i]@,
                        nb as nat,
                    ),
            decreases line.len() - k,
        {
            let i = &line[k];
            let groups = i.len();
            let mut sum: u32 = 0;
            let mut nb_empty = nb;
            let mut j: usize = 0;
            proof {
                assert(clue_fits(line@[k as int]@, nb as nat));
            }
            while j < i.len()
                invariant
                    j <= i.len(),
                    clue_sum(i@) <= u32::MAX,
                    sum == clue_sum(i@.subrange(0, j as int)),
                decreases i.len() - j,
            {
                proof {
                    lemma_clue_sum_prefix(i@, j as int);
                }
                assert(i@.subrange(0, j + 1).drop_last() =~= i@.subrange(0, j as int));
                sum = sum + i[j];
                j = j + 1;
            }
            assert(i@.subrange(0, i.len() as int) =~= i@);
            if groups > 0 {
                nb_empty = 1 + nb - sum as usize - groups;
            }
            let lines = Self::_create_solution(nb_empty, groups, i);
            let ghost old_r = layout_rows(&r);
            r.push(lines);
            assert forall|t: int| 0 <= t < k + 1 implies #[trigger] layout_rows(&r)[t] == candidate_lines(
                line@[t]@,
                nb as nat,
            ) by {
                if t < k {
                    assert(layout_rows(&r)[t] == old_r[t]);
                }
            }
            k = k + 1;
        }
        r
    }

    /// The lines drawn from every placement of `groups` marks among
    /// `nb_empty + groups` positions, for the runs of `line`.
    pub fn _create_solution(nb_empty: usize, groups: usize, line: &Vec<u32>) -> (r: Vec<Vec<bool>>)
        requires
            nb_empty + groups <= usize::MAX,
            groups <= line.len(),
        ensures
            bool_rows(&r) == layouts(nb_empty as nat, groups as nat, line@),
    {
        let mut r: Vec<Vec<bool>> = Vec::new();
        let combi: Vec<Vec<bool>> = Self::_create_combi(nb_empty + groups, groups);
        let ghost c = placements((nb_empty + groups) as nat, groups as nat);
        proof {
            lemma_count_true_all_false((nb_empty + groups) as nat);
            lemma_combis_marks(all_false((nb_empty + groups) as nat), groups as int, 0, 0);
        }
        let mut k: usize = 0;
        while k < combi.len()
            invariant
                bool_rows(&combi) == c,
                c == placements((nb_empty + groups) as nat, groups as nat),
                forall|e: Seq<bool>| c.contains(e) ==> count_true(e) == groups,
                groups <= line.len(),
                k <= combi.len(),
                r.len() == k,
                forall|t: int| 0 <= t < k ==> #[trigger] bool_rows(&r)[t] == line_of(c[t], line@),
            decreases combi.len() - k,
        {
            let p = &combi[k];
            assert(p@ == c[k as int]);
            assert(c.contains(c[k as int]));
            let mut v: Vec<bool> = Vec::new();
            let mut index: usize = 0;
            let mut i: usize = 0;
            while i < p.len()
                invariant
                    groups <= line.len(),
                    count_true(p@) == groups,
                    i <= p.len(),
                    index == count_true(p@.subrange(0, i as int)),
                    v@ == line_of(p@.subrange(0, i as int), line@),
                decreases p.len() - i,
            {
                proof {
                    lemma_count_true_prefix(p@, i as int);
                }
                let ghost prefix = p@.subrange(0, i + 1);
                assert(prefix.drop_last() =~= p@.subrange(0, i as int));
                if p[i] {
                    let run = line[index];
                    let ghost before = v@;
                    let mut t: u32 = 0;
                    while t < run
                        invariant
                            t <= run,
                            v@ == before + filled(t as nat),
                        decreases run - t,
                    {
                        v.push(true);
                        assert(v@ =~= before + filled((t + 1) as nat));
                        t = t + 1;
                    }
                    if index < line.len() - 1 {
                        v.push(false);
                    }
                    index = index + 1;
                    assert(v@ =~= line_of(prefix, line@));
                } else {
                    v.push(false);
                }
                i = i + 1;
            }
            assert(p@.subrange(0, p.len() as int) =~= p@);
            let ghost old_r = bool_rows(&r);
            r.push(v);
            assert forall|t: int| 0 <= t < k + 1 implies #[trigger] bool_rows(&r)[t] == line_of(
                c[t],
                line@,
            ) by {
                if t < k {
                    assert(bool_rows(&r)[t] == old_r[t]);
                }
            }
            k = k + 1;
        }
        assert(bool_rows(&r) =~= layouts(nb_empty as nat, groups as nat, line@));
        r
    }

    /// Every way to mark `nb` of `range` positions (see `placements`).
    pub fn _create_combi(range: usize, nb: usize) -> (r: Vec<Vec<bool>>)
        requires
            nb <= range,
        ensures
            bool_rows(&r) == placements(range as nat, nb as nat),
    {
        let r: Vec<Vec<bool>> = Vec::new();
        let mut a_range: Vec<bool> = Vec::new();
        let mut i: usize = 0;
        while i < range
            invariant
                i <= range,
                a_range@ == all_false(i as nat),
            decreases range - i,
        {
            a_range.push(false);
            assert(a_range@ =~= all_false((i + 1) as nat));
            i = i + 1;
        }
        let r = Self::_combi(a_range, nb, 0, 0, r);
        assert(bool_rows(&r) =~= placements(range as nat, nb as nat));
        r
    }

    /// Appends to `r` the placements that complete `array` from `index` on
    /// (see `combis`).
    pub fn _combi(array: Vec<bool>, nb: usize, index: usize, cnt: usize, r: Vec<Vec<bool>>) -> (res:
        Vec<Vec<bool>>)
        requires
            cnt <= nb <= array.len(),
            cnt <= index <= array.len(),
        ensures
            bool_rows(&res) == bool_rows(&r) + combis(array@, nb as int, index as int, cnt as int),
        decreases array.len() - index,
    {
        let mut array = array;
        let mut r = r;
        if cnt == nb {
            let ghost old_r = bool_rows(&r);
            let ghost a = array@;
            r.push(array);
            assert(bool_rows(&r) =~= old_r + seq![a]);
            return r;
        }
        if index - cnt > array.len() - nb {
            assert(bool_rows(&r) =~= bool_rows(&r) + Seq::<Seq<bool>>::empty());
            return r;
        }
        let ghost a0 = array@;
        let ghost r0 = bool_rows(&r);
        let r = Self::_combi(copy_bools(&array), nb, index + 1, cnt, r);
        array.set(index, true);
        let r = Self::_combi(copy_bools(&array), nb, index + 1, cnt + 1, r);
        assert(bool_rows(&r) =~= r0 + combis(a0, nb as int, index as int, cnt as int));
        r
    }
}

proof fn lemma_clue_sum_prefix(clue: Seq<u32>, j: int)
    requires
        0 <= j < clue.len(),
    ensures
        clue_sum(clue.subrange(0, j + 1)) == clue_sum(clue.subrange(0, j)) + clue[j],
        clue_sum(clue.subrange(0, j + 1)) <= clue_sum(clue),
    decreases clue.len(),
{
    assert(clue.subrange(0, j + 1).drop_last() =~= clue.subrange(0, j));
    if j + 1 < clue.len() {
        lemma_clue_sum_prefix(clue.drop_last(), j);
        assert(clue.drop_last().subrange(0, j + 1) =~= clue.subrange(0, j + 1));
    } else {
        assert(clue.subrange(0, j + 1) =~= clue);
    }
}


// ---------------------------------------------------------------------------
// Checking lines against clues.
// ---------------------------------------------------------------------------

/// The state of a scan of a line against a clue: failed at a cell, or
/// running with the index of the current run of the clue and the length of
/// the block being read.
pub enum ScanState {
    Failed { at: int },
    Running { index: int, cnt: int },
}

/// The scan after the first `i` cells of `line`. A filled cell past the
/// clue's last run fails; a block that ends with a length other than its
/// run fails.
pub open spec fn scan_state(line: Seq<bool>, clue: Seq<u32>, i: int) -> ScanState
    decreases i,
{
    if i <= 0 {
        ScanState::Running { index: 0, cnt: 0 }
    } else {
        match scan_state(line, clue, i - 1) {
            ScanState::Failed { at } => ScanState::Failed { at },
            ScanState::Running { index, cnt } => {
                if line[i - 1] {
                    if index == clue.len() {
                        ScanState::Failed { at: i - 1 }
                    } else {
                        ScanState::Running { index, cnt: cnt + 1 }
                    }
                } else if cnt != 0 {
                    if cnt != clue[index] {
                        ScanState::Failed { at: i - 1 }
                    } else {
                        ScanState::Running { index: index + 1, cnt: 0 }
                    }
                } else {
                    ScanState::Running { index, cnt }
                }
            },
        }
    }
}

/// Where the scan of `line` against `clue` fails (`line.len()` when the
/// last block has the wrong length), or `None`.
pub open spec fn scan_line(line: Seq<bool>, clue: Seq<u32>) -> Option<int> {
    match scan_state(line, clue, line.len() as int) {
        ScanState::Failed { at } => Some(at),
        ScanState::Running { index, cnt } => if cnt != 0 && cnt != clue[index] {
            Some(line.len() as int)
        } else {
            None
        },
    }
}

/// Cell `j` of every line of `grid`.
pub open spec fn column(grid: Seq<Seq<bool>>, j: int) -> Seq<bool> {
    Seq::new(grid.len(), |i: int| grid[i][j])
}

/// The failure of the first of the cross lines `j..` whose scan fails, or -1.
pub open spec fn first_failure(grid: Seq<Seq<bool>>, clues: Seq<Seq<u32>>, j: int) -> int
    decreases clues.len() - j,
{
    if j >= clues.len() || j < 0 {
        -1
    } else {
        match scan_line(column(grid, j), clues[j]) {
            Some(at) => at,
            None => first_failure(grid, clues, j + 1),
        }
    }
}

/// The check of `grid` against `clues`: cross line `j` is cell `j` of every
/// line of `grid`; -1 when every cross line passes its clue.
pub open spec fn verify_grid(grid: Seq<Seq<bool>>, clues: Seq<Seq<u32>>) -> int {
    first_failure(grid, clues, 0)
}

/// Every line of `grid` has at least `n` cells.
pub open spec fn lines_at_least(grid: Seq<Seq<bool>>, n: int) -> bool {
    forall|i: int| 0 <= i < grid.len() ==> #[trigger] grid[i].len() >= n
}

/// The state facts the executable scan keeps.
pub open spec fn scan_ok(st: ScanState, clue: Seq<u32>, i: int) -> bool {
    match st {
        ScanState::Failed { .. } => false,
        ScanState::Running { index, cnt } => 0 <= index <= clue.len() && 0 <= cnt <= i && (cnt > 0
            ==> index < clue.len()),
    }
}

proof fn lemma_scan_failed_stays(line: Seq<bool>, clue: Seq<u32>, i: int, n: int)
    requires
        0 < i <= n,
        scan_state(line, clue, i) is Failed,
    ensures
        scan_state(line, clue, n) == scan_state(line, clue, i),
    decreases n - i,
{
    if i < n {
        lemma_scan_failed_stays(line, clue, i, n - 1);
    }
}

impl Nonogram {
    /// Checks every cross line of `grid` (cell `j` of each line) against
    /// `rows[j]`: the cell where the first failing one fails, or -1.
    pub fn _verify(grid: Vec<Vec<bool>>, rows: Vec<Vec<u32>>) -> (r: isize)
        requires
            grid.len() <= u32::MAX,
            grid.len() <= isize::MAX,
            lines_at_least(bool_rows(&grid), rows.len() as int),
        ensures
            r == verify_grid(bool_rows(&grid), clue_rows(&rows)),
    {
        let ghost g = bool_rows(&grid);
        let ghost cl = clue_rows(&rows);
        let mut j: usize = 0;
        while j < rows.len()
            invariant
                g == bool_rows(&grid),
                cl == clue_rows(&rows),
                grid.len() <= u32::MAX,
                grid.len() <= isize::MAX,
                lines_at_least(g, rows.len() as int),
                j <= rows.len(),
                verify_grid(g, cl) == first_failure(g, cl, j as int),
            decreases rows.len() - j,
        {
            let ghost line = column(g, j as int);
            let ghost clue = cl[j as int];
            assert(clue == rows@[j as int]@);
            let mut index: usize = 0;
            let mut cnt: u32 = 0;
            let mut i: usize = 0;
            while i < grid.len()
                invariant
                    g == bool_rows(&grid),
                    cl == clue_rows(&rows),
                    grid.len() <= u32::MAX,
                    grid.len() <= isize::MAX,
                    verify_grid(g, cl) == first_failure(g, cl, j as int),
                    lines_at_least(g, rows.len() as int),
                    j < rows.len(),
                    line == column(g, j as int),
                    clue == rows@[j as int]@,
                    i <= grid.len(),
                    scan_state(line, clue, i as int) == (ScanState::Running {
                        index: index as int,
                        cnt: cnt as int,
                    }),
                    scan_ok(scan_state(line, clue, i as int), clue, i as int),
                decreases grid.len() - i,
            {
                assert(g[i as int].len() >= rows.len());
                let cell = grid[i][j];
                assert(cell == line[i as int]);
                if cell {
                    if index == rows[j].len() {
                        proof {
                            lemma_scan_failed_stays(line, clue, i + 1, line.len() as int);
                        }
                        return i as isize;
                    }
                    cnt = cnt + 1;
                } else if cnt != 0 {
                    if cnt != rows[j][index] {
                        proof {
                            lemma_scan_failed_stays(line, clue, i + 1, line.len() as int);
                        }
                        return i as isize;
                    }
                    assert(clue.len() == rows[j as int].len());
                    cnt = 0;
                    index = index + 1;
                }
                i = i + 1;
            }
            if cnt != 0 && cnt != rows[j][index] {
                return grid.len() as isize;
            }
            j = j + 1;
        }
        -1
    }
}


// ---------------------------------------------------------------------------
// Searching a layout per row that the column clues accept.
// ---------------------------------------------------------------------------

/// The layout chosen for each row: layout `s[j]` of row `j`.
pub open spec fn picked(s: Seq<u32>, rows: Seq<Seq<Seq<bool>>>) -> Seq<Seq<bool>> {
    Seq::new(rows.len(), |j: int| rows[j][s[j] as int])
}

/// The grid of the chosen layouts, column by column: `grid[i][j]` is cell
/// `i` of the layout chosen for row `j`.
pub open spec fn grid_of(s: Seq<u32>, rows: Seq<Seq<Seq<bool>>>, ncols: nat) -> Seq<Seq<bool>> {
    Seq::new(ncols, |i: int| Seq::new(rows.len(), |j: int| rows[j][s[j] as int][i]))
}

/// The check of the chosen layouts against the column clues.
pub open spec fn verify_rows_spec(s: Seq<u32>, rows: Seq<Seq<Seq<bool>>>, cols: Seq<Seq<u32>>) -> int {
    verify_grid(picked(s, rows), cols)
}

/// The backtracking search from row `index` on: the grid found (empty when
/// none) and the choices as they are left.
pub open spec fn solve_rows_spec(
    s: Seq<u32>,
    rows: Seq<Seq<Seq<bool>>>,
    cols: Seq<Seq<u32>>,
    index: int,
) -> (Seq<Seq<bool>>, Seq<u32>)
    decreases rows.len() - index, if 0 <= index < rows.len() {
        rows[index].len() + 1
    } else {
        0
    },
{
    let v = verify_rows_spec(s, rows, cols);
    if v == -1 {
        (grid_of(s, rows, cols.len()), s)
    } else if index >= rows.len() || index < 0 || v < index {
        (seq![], s)
    } else {
        try_choices(s, rows, cols, index, 0)
    }
}

/// The layouts `i..` of row `index` tried in turn, each followed by the
/// search from the next row, until one gives a grid.
pub open spec fn try_choices(
    s: Seq<u32>,
    rows: Seq<Seq<Seq<bool>>>,
    cols: Seq<Seq<u32>>,
    index: int,
    i: int,
) -> (Seq<Seq<bool>>, Seq<u32>)
    decreases rows.len() - index, if 0 <= index < rows.len() && 0 <= i {
        rows[index].len() - i
    } else {
        0
    },
{
    if index < 0 || index >= rows.len() || i < 0 || i >= rows[index].len() {
        (seq![], s)
    } else {
        let res = solve_rows_spec(s.update(index, i as u32), rows, cols, index + 1);
        if res.0.len() != 0 {
            res
        } else {
            try_choices(res.1, rows, cols, index, i + 1)
        }
    }
}

/// The layouts `i..` of row `index` tried in turn from the same choices `s`,
/// each with the search from the next row; the first grid found.
pub open spec fn first_branch(
    s: Seq<u32>,
    rows: Seq<Seq<Seq<bool>>>,
    cols: Seq<Seq<u32>>,
    index: int,
    i: int,
) -> Seq<Seq<bool>>
    decreases if 0 <= index < rows.len() && 0 <= i {
        rows[index].len() - i
    } else {
        0
    },
{
    if index < 0 || index >= rows.len() || i < 0 || i >= rows[index].len() {
        seq![]
    } else {
        let g = solve_rows_spec(s.update(index, i as u32), rows, cols, index + 1).0;
        if g.len() != 0 {
            g
        } else {
            first_branch(s, rows, cols, index, i + 1)
        }
    }
}

/// The search with one worker per layout of row `index`, the workers'
/// answers taken in the order the workers were started.
pub open spec fn branched_search(
    s: Seq<u32>,
    rows: Seq<Seq<Seq<bool>>>,
    cols: Seq<Seq<u32>>,
    index: int,
) -> Seq<Seq<bool>> {
    let v = verify_rows_spec(s, rows, cols);
    if v == -1 {
        grid_of(s, rows, cols.len())
    } else if index >= rows.len() || index < 0 || v < index {
        seq![]
    } else {
        first_branch(s, rows, cols, index, 0)
    }
}

/// The choices `s` pick a layout of every row, every chosen layout has at
/// least `ncols` cells, and there are few enough rows to count them in a
/// `u32`.
pub open spec fn choices_ok(s: Seq<u32>, rows: Seq<Seq<Seq<bool>>>, ncols: nat) -> bool {
    &&& s.len() >= rows.len()
    &&& rows.len() <= u32::MAX
    &&& rows.len() <= isize::MAX
    &&& forall|j: int| 0 <= j < rows.len() ==> #[trigger] s[j] < rows[j].len()
    &&& forall|j: int| 0 <= j < rows.len() ==> #[trigger] rows[j][s[j] as int].len() >= ncols
}

/// Every layout of the rows from `from` on has at least `ncols` cells (the
/// rows whose layouts a search from row `from` tries).
pub open spec fn layouts_wide(rows: Seq<Seq<Seq<bool>>>, ncols: nat, from: int) -> bool {
    forall|j: int, k: int|
        from <= j < rows.len() && 0 <= k < rows[j].len() ==> #[trigger] rows[j][k].len() >= ncols
}

proof fn lemma_choices_update(s: Seq<u32>, rows: Seq<Seq<Seq<bool>>>, ncols: nat, index: int, i: int)
    requires
        choices_ok(s, rows, ncols),
        0 <= index < rows.len(),
        0 <= i < rows[index].len(),
        layouts_wide(rows, ncols, index),
    ensures
        choices_ok(s.update(index, i as u32), rows, ncols),
{
    let s2 = s.update(index, i as u32);
    assert forall|j: int| 0 <= j < rows.len() implies #[trigger] s2[j] < rows[j].len() by {
        if j == index {
            assert((i as u32) as int <= i);
        }
    }
    assert forall|j: int| 0 <= j < rows.len() implies #[trigger] rows[j][s2[j] as int].len() >= ncols by {
        if j == index {
            assert((i as u32) as int <= i);
            assert(rows[index][(i as u32) as int].len() >= ncols);
        } else {
            assert(s2[j] == s[j]);
        }
    }
}

impl Nonogram {
    /// Checks the layouts chosen by `s` against the column clues: cross
    /// line `i` is cell `i` of every chosen layout.
    pub fn _verify_rows(s: &Vec<u32>, rows: &Vec<Vec<Vec<bool>>>, cols: &Vec<Vec<u32>>) -> (r: isize)
        requires
            choices_ok(s@, layout_rows(rows), cols.len() as nat),
        ensures
            r == verify_rows_spec(s@, layout_rows(rows), clue_rows(cols)),
    {
        let ghost lr = layout_rows(rows);
        let mut grid: Vec<Vec<bool>> = Vec::new();
        let mut j: usize = 0;
        while j < rows.len()
            invariant
                lr == layout_rows(rows),
                choices_ok(s@, lr, cols.len() as nat),
                j <= rows.len(),
                grid.len() == j,
                forall|t: int| 0 <= t < j ==> #[trigger] grid@[t]@ == lr[t][s@[t] as int],
            decreases rows.len() - j,
        {
            assert(s@[j as int] < lr[j as int].len());
            let line = copy_bools(&rows[j][s[j] as usize]);
            grid.push(line);
            j = j + 1;
        }
        assert(bool_rows(&grid) =~= picked(s@, lr));
        assert forall|t: int| 0 <= t < grid.len() implies #[trigger] bool_rows(&grid)[t].len()
            >= cols.len() by {
            assert(lr[t][s@[t] as int].len() >= cols.len());
        }
        let clues = copy_clues(cols);
        assert(clue_rows(&clues).len() == clues.len());
        Self::_verify(grid, clues)
    }

    /// The backtracking search from row `index` on: the first layout choice
    /// (in order, row by row) that the column clues accept, as a grid of
    /// columns; empty when there is none. Leaves in `s` the choices last made.
    pub fn _solve_rows(s: &mut Vec<u32>, rows: &Vec<Vec<Vec<bool>>>, cols: &Vec<Vec<u32>>, index: usize) -> (grid: Vec<Vec<bool>>)
        requires
            choices_ok(old(s)@, layout_rows(rows), cols.len() as nat),
            layouts_wide(layout_rows(rows), cols.len() as nat, index as int),
            index <= rows.len(),
        ensures
            choices_ok(final(s)@, layout_rows(rows), cols.len() as nat),
            (bool_rows(&grid), final(s)@) == solve_rows_spec(old(s)@, layout_rows(rows), clue_rows(cols), index as int),
        decreases rows.len() - index,
    {
        let ghost lr = layout_rows(rows);
        let ghost cl = clue_rows(cols);
        let verify = Self::_verify_rows(s, rows, cols);
        let mut grid: Vec<Vec<bool>> = Vec::new();
        if verify == -1 {
            let grid = Self::grid_from_choices(s, rows, cols.len());
            return grid;
        }
        if index == rows.len() || verify < index as isize {
            assert(bool_rows(&grid) =~= Seq::<Seq<bool>>::empty());
            return grid;
        }
        let mut i: usize = 0;
        while i < rows[index].len()
            invariant
                lr == layout_rows(rows),
                cl == clue_rows(cols),
                index < rows.len(),
                choices_ok(s@, lr, cols.len() as nat),
                layouts_wide(lr, cols.len() as nat, index as int),
                i <= rows[index as int].len(),
                bool_rows(&grid).len() == 0,
                solve_rows_spec(old(s)@, lr, cl, index as int) == try_choices(s@, lr, cl, index as int, i as int),
            decreases rows[index as int].len() - i,
        {
            proof {
                lemma_choices_update(s@, lr, cols.len() as nat, index as int, i as int);
            }
            let ghost sp = s@;
            s.set(index, i as u32);
            grid = Self::_solve_rows(s, rows, cols, index + 1);
            proof {
                let res = solve_rows_spec(sp.update(index as int, i as u32), lr, cl, index + 1);
                assert(res == (bool_rows(&grid), s@));
                assert(i < lr[index as int].len());
                if res.0.len() != 0 {
                    assert(try_choices(sp, lr, cl, index as int, i as int) == res);
                } else {
                    assert(try_choices(sp, lr, cl, index as int, i as int) == try_choices(res.1, lr, cl, index as int, i + 1));
                }
            }
            if grid.len() != 0 {
                return grid;
            }
            i = i + 1;
        }
        grid
    }

    /// The search with one worker per layout of row `index`: each worker
    /// starts from `s` with that layout chosen and searches from the next
    /// row on; the first grid among the workers' answers, taken in the
    /// order the workers were started.
    pub fn _solve_rows_thearded(s: Vec<u32>, rows: &Vec<Vec<Vec<bool>>>, cols: &Vec<Vec<u32>>, index: usize) -> (grid: Vec<Vec<bool>>)
        requires
            choices_ok(s@, layout_rows(rows), cols.len() as nat),
            layouts_wide(layout_rows(rows), cols.len() as nat, index as int),
            index <= rows.len(),
        ensures
            bool_rows(&grid) == branched_search(s@, layout_rows(rows), clue_rows(cols), index as int),
    {
        let ghost lr = layout_rows(rows);
        let ghost cl = clue_rows(cols);
        let verify = Self::_verify_rows(&s, rows, cols);
        let grid: Vec<Vec<bool>> = Vec::new();
        if verify == -1 {
            return Self::grid_from_choices(&s, rows, cols.len());
        }
        if index == rows.len() || verify < index as isize {
            assert(bool_rows(&grid) =~= Seq::<Seq<bool>>::empty());
            return grid;
        }
        let mut i: usize = 0;
        while i < rows[index].len()
            invariant
                lr == layout_rows(rows),
                cl == clue_rows(cols),
                index < rows.len(),
                choices_ok(s@, lr, cols.len() as nat),
                layouts_wide(lr, cols.len() as nat, index as int),
                i <= rows[index as int].len(),
                branched_search(s@, lr, cl, index as int) == first_branch(s@, lr, cl, index as int, i as int),
            decreases rows[index as int].len() - i,
        {
            proof {
                lemma_choices_update(s@, lr, cols.len() as nat, index as int, i as int);
            }
            let mut s_t = copy_choices(&s);
            s_t.set(index, i as u32);
            let data = Self::_solve_rows(&mut s_t, rows, cols, index + 1);
            if data.len() != 0 {
                return data;
            }
            i = i + 1;
        }
        assert(bool_rows(&grid) =~= Seq::<Seq<bool>>::empty());
        grid
    }

    /// The grid of the layouts chosen by `s`, column by column.
    fn grid_from_choices(s: &Vec<u32>, rows: &Vec<Vec<Vec<bool>>>, ncols: usize) -> (grid: Vec<Vec<bool>>)
        requires
            choices_ok(s@, layout_rows(rows), ncols as nat),
        ensures
            bool_rows(&grid) == grid_of(s@, layout_rows(rows), ncols as nat),
    {
        let ghost lr = layout_rows(rows);
        let mut grid: Vec<Vec<bool>> = Vec::new();
        let mut i: usize = 0;
        while i < ncols
            invariant
                lr == layout_rows(rows),
                choices_ok(s@, lr, ncols as nat),
                i <= ncols,
                grid.len() == i,
                forall|t: int| 0 <= t < i ==> #[trigger] grid@[t]@ == grid_of(s@, lr, ncols as nat)[t],
            decreases ncols - i,
        {
            let mut v: Vec<bool> = Vec::new();
            let mut j: usize = 0;
            while j < rows.len()
                invariant
                    lr == layout_rows(rows),
                    choices_ok(s@, lr, ncols as nat),
                    i < ncols,
                    j <= rows.len(),
                    v@ == Seq::new(j as nat, |t: int| lr[t][s@[t] as int][i as int]),
                decreases rows.len() - j,
            {
                assert(s@[j as int] < lr[j as int].len());
                assert(lr[j as int][s@[j as int] as int].len() >= ncols);
                v.push(rows[j][s[j] as usize][i]);
                assert(v@ =~= Seq::new((j + 1) as nat, |t: int| lr[t][s@[t] as int][i as int]));
                j = j + 1;
            }
            grid.push(v);
            i = i + 1;
        }
        assert(bool_rows(&grid) =~= grid_of(s@, lr, ncols as nat));
        grid
    }
}

fn copy_choices(s: &Vec<u32>) -> (r: Vec<u32>)
    ensures
        r@ == s@,
{
    let mut r: Vec<u32> = Vec::new();
    let mut i: usize = 0;
    while i < s.len()
        invariant
            i <= s.len(),
            r@ == s@.subrange(0, i as int),
        decreases s.len() - i,
    {
        r.push(s[i]);
        assert(r@ =~= s@.subrange(0, i + 1));
        i = i + 1;
    }
    assert(s@.subrange(0, s.len() as int) =~= s@);
    r
}


// ---------------------------------------------------------------------------
// Text of a grid, and the whole solver.
// ---------------------------------------------------------------------------

/// Row `j` of a grid of columns: '#' for a filled cell, ' ' for an empty
/// one, then a line feed.
pub open spec fn text_row(grid: Seq<Seq<bool>>, j: int) -> Seq<char> {
    Seq::new(grid.len(), |i: int| if grid[i][j] { '#' } else { ' ' }).push('\n')
}

/// The first `n` rows of a grid of columns, as text.
pub open spec fn text_rows(grid: Seq<Seq<bool>>, n: int) -> Seq<char>
    decreases n,
{
    if n <= 0 {
        seq![]
    } else {
        text_rows(grid, n - 1) + text_row(grid, n - 1)
    }
}

/// A grid of columns as text, row after row (as many rows as the first
/// column has cells).
pub open spec fn grid_text(grid: Seq<Seq<bool>>) -> Seq<char> {
    if grid.len() == 0 {
        seq![]
    } else {
        text_rows(grid, grid[0].len() as int)
    }
}

/// The candidate layouts of every row of a nonogram with `ncols` columns.
pub open spec fn all_candidates(rows: Seq<Seq<u32>>, ncols: nat) -> Seq<Seq<Seq<bool>>> {
    Seq::new(rows.len(), |j: int| candidate_lines(rows[j], ncols))
}

/// `n` choices of the first layout.
pub open spec fn first_choices(n: nat) -> Seq<u32> {
    Seq::new(n, |j: int| 0u32)
}

/// The grid the solver finds for a nonogram: the search with one worker
/// per layout of the first row, from the first layout of every row.
pub open spec fn nonogram_solution(rows: Seq<Seq<u32>>, cols: Seq<Seq<u32>>) -> Seq<Seq<bool>> {
    branched_search(first_choices(rows.len()), all_candidates(rows, cols.len()), cols, 0)
}

/// A nonogram the solver can take: every row clue fits the width, and the
/// rows can be counted in a `u32`.
pub open spec fn puzzle_ok(rows: Seq<Seq<u32>>, ncols: nat) -> bool {
    &&& forall|j: int| 0 <= j < rows.len() ==> clue_fits(#[trigger] rows[j], ncols)
    &&& rows.len() <= u32::MAX
    &&& rows.len() <= isize::MAX
}

/// The solver can take the nonogram (see `puzzle_ok`).
pub open spec fn nonogram_solvable(input: NonogramSolverInput) -> bool {
    puzzle_ok(clue_rows(&input.rows), input.cols.len() as nat)
}

/// `out` holds, as text, the grid the solver finds.
pub open spec fn nonogram_answer(input: NonogramSolverInput, out: NonogramSolverOutput) -> bool {
    out.grid@ == grid_text(nonogram_solution(clue_rows(&input.rows), clue_rows(&input.cols)))
}

/// The separators a line has after `t` of its `g` runs.
pub open spec fn separators(t: int, g: int) -> int {
    if t == 0 {
        0
    } else if t < g {
        t
    } else {
        g - 1
    }
}

proof fn lemma_line_len(q: Seq<bool>, clue: Seq<u32>)
    requires
        count_true(q) <= clue.len(),
    ensures
        line_of(q, clue).len() == (q.len() - count_true(q)) + clue_sum(
            clue.subrange(0, count_true(q) as int),
        ) + separators(count_true(q) as int, clue.len() as int),
    decreases q.len(),
{
    if q.len() > 0 {
        let t = count_true(q.drop_last());
        lemma_line_len(q.drop_last(), clue);
        if q.last() {
            assert(clue.subrange(0, t + 1 as int).drop_last() =~= clue.subrange(0, t as int));
        }
    }
}

/// Every candidate layout of a line has as many cells as the line.
pub proof fn lemma_candidate_len(clue: Seq<u32>, nb: nat, k: int)
    requires
        clue_fits(clue, nb),
        0 <= k < candidate_lines(clue, nb).len(),
    ensures
        candidate_lines(clue, nb)[k].len() == nb,
{
    let g = clue.len();
    let ne = empty_count(clue, nb);
    let c = placements(ne + g, g);
    lemma_count_true_all_false(ne + g);
    lemma_combis_marks(all_false(ne + g), g as int, 0, 0);
    assert(c.contains(c[k]));
    lemma_line_len(c[k], clue);
    assert(clue.subrange(0, g as int) =~= clue);
}

proof fn lemma_combis_nonempty(array: Seq<bool>, nb: int, index: int, cnt: int)
    requires
        0 <= cnt <= nb,
        cnt <= index <= array.len(),
        nb - cnt <= array.len() - index,
    ensures
        combis(array, nb, index, cnt).len() >= 1,
    decreases array.len() - index,
{
    if cnt != nb {
        lemma_combis_nonempty(array.update(index, true), nb, index + 1, cnt + 1);
    }
}

/// Every line has at least one candidate layout.
pub proof fn lemma_candidates_nonempty(clue: Seq<u32>, nb: nat)
    requires
        clue_fits(clue, nb),
    ensures
        candidate_lines(clue, nb).len() >= 1,
{
    let g = clue.len();
    let ne = empty_count(clue, nb);
    lemma_combis_nonempty(all_false(ne + g), g as int, 0, 0);
}

/// Every grid the search gives has columns of one length: the number of rows.
pub open spec fn uniform(grid: Seq<Seq<bool>>, n: nat) -> bool {
    forall|i: int| 0 <= i < grid.len() ==> #[trigger] grid[i].len() == n
}

proof fn lemma_solve_uniform(s: Seq<u32>, rows: Seq<Seq<Seq<bool>>>, cols: Seq<Seq<u32>>, index: int)
    ensures
        uniform(solve_rows_spec(s, rows, cols, index).0, rows.len()),
    decreases rows.len() - index, if 0 <= index < rows.len() {
        rows[index].len() + 1
    } else {
        0
    },
{
    let v = verify_rows_spec(s, rows, cols);
    if v == -1 {
    } else if index >= rows.len() || index < 0 || v < index {
    } else {
        lemma_try_uniform(s, rows, cols, index, 0);
    }
}

proof fn lemma_try_uniform(s: Seq<u32>, rows: Seq<Seq<Seq<bool>>>, cols: Seq<Seq<u32>>, index: int, i: int)
    ensures
        uniform(try_choices(s, rows, cols, index, i).0, rows.len()),
    decreases rows.len() - index, if 0 <= index < rows.len() && 0 <= i {
        rows[index].len() - i
    } else {
        0
    },
{
    if index < 0 || index >= rows.len() || i < 0 || i >= rows[index].len() {
    } else {
        let res = solve_rows_spec(s.update(index, i as u32), rows, cols, index + 1);
        lemma_solve_uniform(s.update(index, i as u32), rows, cols, index + 1);
        if res.0.len() == 0 {
            lemma_try_uniform(res.1, rows, cols, index, i + 1);
        }
    }
}

proof fn lemma_first_branch_uniform(s: Seq<u32>, rows: Seq<Seq<Seq<bool>>>, cols: Seq<Seq<u32>>, index: int, i: int)
    ensures
        uniform(first_branch(s, rows, cols, index, i), rows.len()),
    decreases if 0 <= index < rows.len() && 0 <= i {
        rows[index].len() - i
    } else {
        0
    },
{
    if index < 0 || index >= rows.len() || i < 0 || i >= rows[index].len() {
    } else {
        lemma_solve_uniform(s.update(index, i as u32), rows, cols, index + 1);
        lemma_first_branch_uniform(s, rows, cols, index, i + 1);
    }
}

fn zeros(n: usize) -> (a: Vec<u32>)
    ensures
        a@ == first_choices(n as nat),
{
    let mut a: Vec<u32> = Vec::new();
    let mut i: usize = 0;
    while i < n
        invariant
            i <= n,
            a@ == first_choices(i as nat),
        decreases n - i,
    {
        a.push(0);
        assert(a@ =~= first_choices((i + 1) as nat));
        i = i + 1;
    }
    a
}

impl Nonogram {
    /// The name of the challenge.
    pub fn name() -> (name: String)
        ensures
            name@ == "Nonogram"@,
    {
        String::from_str("Nonogram")
    }

    /// A solver for the given challenge input.
    pub fn new(input: NonogramSolverInput) -> (solver: Self)
        ensures
            solver.input == input,
    {
        Nonogram { input }
    }

    /// A grid of columns as text, row after row: '#' for a filled cell,
    /// ' ' for an empty one, a line feed after each row.
    pub fn _vec_to_string(grid: Vec<Vec<bool>>) -> (text: String)
        requires
            grid.len() > 0 ==> lines_at_least(bool_rows(&grid), grid@[0]@.len() as int),
        ensures
            text@ == grid_text(bool_rows(&grid)),
            text_lays_out(text@, bool_rows(&grid)),
    {
        proof {
            lemma_grid_text_layout(bool_rows(&grid));
        }
        let ghost g = bool_rows(&grid);
        let mut s: String = String::new();
        if grid.len() == 0 {
            return s;
        }
        let n = grid[0].len();
        let mut j: usize = 0;
        while j < n
            invariant
                g == bool_rows(&grid),
                grid.len() > 0,
                n == g[0].len(),
                lines_at_least(g, n as int),
                j <= n,
                s@ == text_rows(g, j as int),
            decreases n - j,
        {
            let ghost before = s@;
            let mut i: usize = 0;
            while i < grid.len()
                invariant
                    g == bool_rows(&grid),
                    lines_at_least(g, n as int),
                    j < n,
                    i <= grid.len(),
                    s@ == before + Seq::new(i as nat, |t: int| if g[t][j as int] { '#' } else { ' ' }),
                decreases grid.len() - i,
            {
                assert(g[i as int].len() >= n);
                proof {
                    reveal_strlit("#");
                    reveal_strlit(" ");
                }
                if grid[i][j] {
                    s.append("#");
                } else {
                    s.append(" ");
                }
                assert(s@ =~= before + Seq::new((i + 1) as nat, |t: int| if g[t][j as int] { '#' } else { ' ' }));
                i = i + 1;
            }
            proof {
                reveal_strlit("\n");
            }
            s.append("\n");
            assert(s@ =~= text_rows(g, j + 1));
            j = j + 1;
        }
        s
    }

    /// Solves the nonogram: the candidate layouts of every row, searched
    /// with one worker per layout of the first row; the grid found, as text
    /// (empty when none is found).
    pub fn solve(&self) -> (out: NonogramSolverOutput)
        requires
            nonogram_solvable(self.input),
        ensures
            nonogram_answer(self.input, out),
            text_lays_out(out.grid@, nonogram_solution(clue_rows(&self.input.rows), clue_rows(&self.input.cols))),
    {
        proof {
            lemma_grid_text_layout(nonogram_solution(clue_rows(&self.input.rows), clue_rows(&self.input.cols)));
        }
        let ghost rows_v = clue_rows(&self.input.rows);
        let ghost ncols = self.input.cols.len() as nat;
        assert forall|i: int| 0 <= i < self.input.rows.len() implies clue_fits(#[trigger] self.input.rows@[i]@, ncols) by {
            assert(rows_v[i] == self.input.rows@[i]@);
        }
        let s_rows = Self::create_solution(&self.input.rows, self.input.cols.len());
        let ghost cand = all_candidates(rows_v, ncols);
        assert(layout_rows(&s_rows) =~= cand);
        let mut a: Vec<u32> = zeros(self.input.rows.len());
        proof {
            assert forall|j: int| 0 <= j < cand.len() implies #[trigger] a@[j] < cand[j].len() by {
                lemma_candidates_nonempty(rows_v[j], ncols);
            }
            assert forall|j: int, k: int| 0 <= j < cand.len() && 0 <= k < cand[j].len() implies #[trigger] cand[j][k].len() >= ncols by {
                lemma_candidate_len(rows_v[j], ncols, k);
            }
        }
        let answer = Self::_solve_rows_thearded(a, &s_rows, &self.input.cols, 0);
        proof {
            let res = branched_search(first_choices(rows_v.len()), cand, clue_rows(&self.input.cols), 0);
            let v = verify_rows_spec(first_choices(rows_v.len()), cand, clue_rows(&self.input.cols));
            if v != -1 && cand.len() > 0 && v >= 0 {
                lemma_first_branch_uniform(first_choices(rows_v.len()), cand, clue_rows(&self.input.cols), 0, 0);
            }
            assert(uniform(res, cand.len()));
            if answer.len() > 0 {
                assert(bool_rows(&answer)[0] == answer@[0]@);
            }
        }
        NonogramSolverOutput { grid: Self::_vec_to_string(answer) }
    }
}


// ---------------------------------------------------------------------------
// What the search returns: a grid of candidate layouts the column check accepts.
// ---------------------------------------------------------------------------

/// `grid` is made of one candidate layout per row, chosen by `s`, and the
/// column check finds no failure in it.
pub open spec fn accepted_grid(
    grid: Seq<Seq<bool>>,
    s: Seq<u32>,
    rows: Seq<Seq<Seq<bool>>>,
    cols: Seq<Seq<u32>>,
) -> bool {
    &&& choices_ok(s, rows, cols.len())
    &&& verify_rows_spec(s, rows, cols) == -1
    &&& grid == grid_of(s, rows, cols.len())
}

proof fn lemma_solve_accepted(s: Seq<u32>, rows: Seq<Seq<Seq<bool>>>, cols: Seq<Seq<u32>>, index: int)
    requires
        choices_ok(s, rows, cols.len()),
        layouts_wide(rows, cols.len(), index),
        0 <= index,
    ensures
        choices_ok(solve_rows_spec(s, rows, cols, index).1, rows, cols.len()),
        solve_rows_spec(s, rows, cols, index).0.len() != 0 ==> accepted_grid(
            solve_rows_spec(s, rows, cols, index).0,
            solve_rows_spec(s, rows, cols, index).1,
            rows,
            cols,
        ),
    decreases rows.len() - index, if 0 <= index < rows.len() {
        rows[index].len() + 1
    } else {
        0
    },
{
    let v = verify_rows_spec(s, rows, cols);
    if v == -1 {
    } else if index >= rows.len() || index < 0 || v < index {
    } else {
        lemma_try_accepted(s, rows, cols, index, 0);
    }
}

proof fn lemma_try_accepted(s: Seq<u32>, rows: Seq<Seq<Seq<bool>>>, cols: Seq<Seq<u32>>, index: int, i: int)
    requires
        choices_ok(s, rows, cols.len()),
        layouts_wide(rows, cols.len(), index),
        0 <= index,
        0 <= i,
    ensures
        choices_ok(try_choices(s, rows, cols, index, i).1, rows, cols.len()),
        try_choices(s, rows, cols, index, i).0.len() != 0 ==> accepted_grid(
            try_choices(s, rows, cols, index, i).0,
            try_choices(s, rows, cols, index, i).1,
            rows,
            cols,
        ),
    decreases rows.len() - index, if 0 <= index < rows.len() && 0 <= i {
        rows[index].len() - i
    } else {
        0
    },
{
    if index < 0 || index >= rows.len() || i < 0 || i >= rows[index].len() {
    } else {
        lemma_choices_update(s, rows, cols.len(), index, i);
        let s2 = s.update(index, i as u32);
        lemma_solve_accepted(s2, rows, cols, index + 1);
        let res = solve_rows_spec(s2, rows, cols, index + 1);
        if res.0.len() == 0 {
            lemma_try_accepted(res.1, rows, cols, index, i + 1);
        }
    }
}

proof fn lemma_first_branch_accepted(s: Seq<u32>, rows: Seq<Seq<Seq<bool>>>, cols: Seq<Seq<u32>>, index: int, i: int)
    requires
        choices_ok(s, rows, cols.len()),
        layouts_wide(rows, cols.len(), index),
        0 <= index,
        0 <= i,
    ensures
        first_branch(s, rows, cols, index, i).len() != 0 ==> exists|s2: Seq<u32>|
            accepted_grid(first_branch(s, rows, cols, index, i), s2, rows, cols),
    decreases if 0 <= index < rows.len() && 0 <= i {
        rows[index].len() - i
    } else {
        0
    },
{
    if index < 0 || index >= rows.len() || i < 0 || i >= rows[index].len() {
    } else {
        lemma_choices_update(s, rows, cols.len(), index, i);
        let s2 = s.update(index, i as u32);
        lemma_solve_accepted(s2, rows, cols, index + 1);
        let res = solve_rows_spec(s2, rows, cols, index + 1);
        if res.0.len() == 0 {
            lemma_first_branch_accepted(s, rows, cols, index, i + 1);
        } else {
            assert(accepted_grid(res.0, res.1, rows, cols));
        }
    }
}

/// A grid the backtracking search returns is made of one candidate layout
/// per row, and the column check finds no failure in it.
pub proof fn lemma_search_accepted(s: Seq<u32>, rows: Seq<Seq<Seq<bool>>>, cols: Seq<Seq<u32>>, index: int)
    requires
        choices_ok(s, rows, cols.len()),
        layouts_wide(rows, cols.len(), index),
        0 <= index,
    ensures
        solve_rows_spec(s, rows, cols, index).0.len() != 0 ==> accepted_grid(
            solve_rows_spec(s, rows, cols, index).0,
            solve_rows_spec(s, rows, cols, index).1,
            rows,
            cols,
        ),
        branched_search(s, rows, cols, index).len() != 0 ==> exists|s2: Seq<u32>|
            accepted_grid(branched_search(s, rows, cols, index), s2, rows, cols),
{
    lemma_solve_accepted(s, rows, cols, index);
    let v = verify_rows_spec(s, rows, cols);
    if v == -1 {
        assert(accepted_grid(grid_of(s, rows, cols.len()), s, rows, cols));
    } else if index >= rows.len() || index < 0 || v < index {
    } else {
        lemma_first_branch_accepted(s, rows, cols, index, 0);
    }
}

/// The grid the nonogram solver finds (if any) is made of one candidate
/// layout per row, and the column check finds no failure in it.
pub proof fn lemma_solution_accepted(rows: Seq<Seq<u32>>, cols: Seq<Seq<u32>>)
    requires
        puzzle_ok(rows, cols.len()),
    ensures
        nonogram_solution(rows, cols).len() != 0 ==> exists|s2: Seq<u32>|
            accepted_grid(nonogram_solution(rows, cols), s2, all_candidates(rows, cols.len()), cols),
{
    let cand = all_candidates(rows, cols.len());
    let z = first_choices(rows.len());
    assert forall|j: int| 0 <= j < cand.len() implies #[trigger] z[j] < cand[j].len() by {
        lemma_candidates_nonempty(rows[j], cols.len());
    }
    assert forall|j: int, k: int| 0 <= j < cand.len() && 0 <= k < cand[j].len() implies #[trigger] cand[j][k].len()
        >= cols.len() by {
        lemma_candidate_len(rows[j], cols.len(), k);
    }
    lemma_search_accepted(z, cand, cols, 0);
}


// ---------------------------------------------------------------------------
// Every candidate layout of a line passes the check against its own clue.
// ---------------------------------------------------------------------------

proof fn lemma_scan_prefix(l1: Seq<bool>, l2: Seq<bool>, clue: Seq<u32>, i: int)
    requires
        0 <= i <= l1.len(),
        i <= l2.len(),
        forall|k: int| 0 <= k < i ==> l1[k] == l2[k],
    ensures
        scan_state(l1, clue, i) == scan_state(l2, clue, i),
    decreases i,
{
    if i > 0 {
        lemma_scan_prefix(l1, l2, clue, i - 1);
    }
}

proof fn lemma_scan_trues(l: Seq<bool>, clue: Seq<u32>, a: int, k: int, idx: int, c: int)
    requires
        0 <= a,
        0 <= k,
        a + k <= l.len(),
        forall|m: int| a <= m < a + k ==> l[m],
        scan_state(l, clue, a) == (ScanState::Running { index: idx, cnt: c }),
        0 <= idx < clue.len(),
    ensures
        scan_state(l, clue, a + k) == (ScanState::Running { index: idx, cnt: c + k }),
    decreases k,
{
    if k > 0 {
        lemma_scan_trues(l, clue, a, k - 1, idx, c);
    }
}

/// The state of the scan after a line drawn from a placement with `t`
/// marks: between runs, or just after the last run, or after the empty cell
/// that follows it.
pub open spec fn drawn_state(st: ScanState, clue: Seq<u32>, t: int) -> bool {
    if t < clue.len() {
        st == (ScanState::Running { index: t, cnt: 0 })
    } else {
        st == (ScanState::Running { index: clue.len() - 1, cnt: clue[clue.len() - 1] as int })
            || st == (ScanState::Running { index: clue.len() as int, cnt: 0 })
    }
}

/// Every run of the clue is at least one cell long.
pub open spec fn runs_positive(clue: Seq<u32>) -> bool {
    forall|k: int| 0 <= k < clue.len() ==> #[trigger] clue[k] > 0
}

proof fn lemma_scan_drawn(q: Seq<bool>, clue: Seq<u32>)
    requires
        count_true(q) <= clue.len(),
        runs_positive(clue),
    ensures
        drawn_state(
            scan_state(line_of(q, clue), clue, line_of(q, clue).len() as int),
            clue,
            count_true(q) as int,
        ),
    decreases q.len(),
{
    if q.len() > 0 {
        let init = q.drop_last();
        let t = count_true(init) as int;
        let prev = line_of(init, clue);
        let l = line_of(q, clue);
        lemma_scan_drawn(init, clue);
        assert(l.subrange(0, prev.len() as int) =~= prev);
        lemma_scan_prefix(l, prev, clue, prev.len() as int);
        if q.last() {
            let run = clue[t] as int;
            assert forall|m: int| prev.len() <= m < prev.len() + run implies l[m] by {}
            lemma_scan_trues(l, clue, prev.len() as int, run, t, 0);
            if t < clue.len() - 1 {
                assert(l[prev.len() + run] == false);
                assert(l.len() == prev.len() + run + 1);
            } else {
                assert(l.len() == prev.len() + run);
            }
        } else {
            assert(l =~= prev.push(false));
            if t == clue.len() && clue.len() > 0 {
                assert(clue[clue.len() - 1] > 0);
            }
        }
    }
}

/// With runs of at least one cell, every candidate layout of a line passes
/// the check against the line's own clue.
pub proof fn lemma_candidates_pass(clue: Seq<u32>, nb: nat, k: int)
    requires
        clue_fits(clue, nb),
        runs_positive(clue),
        0 <= k < candidate_lines(clue, nb).len(),
    ensures
        scan_line(candidate_lines(clue, nb)[k], clue) is None,
{
    let g = clue.len();
    let ne = empty_count(clue, nb);
    let c = placements(ne + g, g);
    lemma_count_true_all_false(ne + g);
    lemma_combis_marks(all_false(ne + g), g as int, 0, 0);
    assert(c.contains(c[k]));
    lemma_scan_drawn(c[k], clue);
    if g > 0 {
        assert(clue[g - 1] > 0);
    }
}


// ---------------------------------------------------------------------------
// The placements: every way to mark `nb` of `range` positions, each once.
// ---------------------------------------------------------------------------

proof fn lemma_count_true_concat(a: Seq<bool>, b: Seq<bool>)
    ensures
        count_true(a + b) == count_true(a) + count_true(b),
    decreases b.len(),
{
    if b.len() == 0 {
        assert(a + b =~= a);
    } else {
        lemma_count_true_concat(a, b.drop_last());
        assert((a + b).drop_last() =~= a + b.drop_last());
    }
}

proof fn lemma_count_true_bounds(s: Seq<bool>)
    ensures
        count_true(s) <= s.len(),
        count_true(s) == 0 ==> forall|k: int| 0 <= k < s.len() ==> !s[k],
    decreases s.len(),
{
    if s.len() > 0 {
        lemma_count_true_bounds(s.drop_last());
        if count_true(s) == 0 {
            assert forall|k: int| 0 <= k < s.len() implies !s[k] by {
                if k < s.len() - 1 {
                    assert(s.drop_last()[k] == s[k]);
                }
            }
        }
    }
}

/// Every placement enumerated from `array` agrees with it before `index`.
proof fn lemma_combis_prefix(array: Seq<bool>, nb: int, index: int, cnt: int)
    requires
        0 <= index,
    ensures
        forall|e: Seq<bool>| #[trigger] combis(array, nb, index, cnt).contains(e) ==> e.len() == array.len()
            && forall|k: int| 0 <= k < index && k < array.len() ==> e[k] == array[k],
    decreases array.len() - index,
{
    let r = combis(array, nb, index, cnt);
    if cnt == nb {
        assert forall|e: Seq<bool>| #[trigger] r.contains(e) implies e.len() == array.len() && forall|k: int|
            0 <= k < index && k < array.len() ==> e[k] == array[k] by {
            assert(r[0] == array);
        }
    } else if index - cnt > array.len() - nb || index >= array.len() || index < 0 {
    } else {
        let a2 = array.update(index, true);
        lemma_combis_prefix(array, nb, index + 1, cnt);
        lemma_combis_prefix(a2, nb, index + 1, cnt + 1);
        let r1 = combis(array, nb, index + 1, cnt);
        let r2 = combis(a2, nb, index + 1, cnt + 1);
        assert forall|e: Seq<bool>| #[trigger] r.contains(e) implies e.len() == array.len() && forall|k: int|
            0 <= k < index && k < array.len() ==> e[k] == array[k] by {
            let m = choose|m: int| 0 <= m < r.len() && r[m] == e;
            if m < r1.len() {
                assert(r1.contains(r1[m]));
            } else {
                assert(r2[m - r1.len()] == e);
                assert(r2.contains(r2[m - r1.len()]));
            }
        }
    }
}

proof fn lemma_combis_complete(array: Seq<bool>, nb: int, index: int, cnt: int, e: Seq<bool>)
    requires
        0 <= cnt <= nb <= array.len(),
        cnt <= index <= array.len(),
        count_true(array) == cnt,
        forall|k: int| index <= k < array.len() ==> !array[k],
        e.len() == array.len(),
        count_true(e) == nb,
        forall|k: int| 0 <= k < index ==> e[k] == array[k],
    ensures
        combis(array, nb, index, cnt).contains(e),
    decreases array.len() - index,
{
    let pre = e.subrange(0, index);
    let post = e.subrange(index, e.len() as int);
    assert(e =~= pre + post);
    lemma_count_true_concat(pre, post);
    assert(array =~= array.subrange(0, index) + array.subrange(index, array.len() as int));
    lemma_count_true_concat(array.subrange(0, index), array.subrange(index, array.len() as int));
    assert(pre =~= array.subrange(0, index));
    lemma_count_true_bounds(array.subrange(index, array.len() as int));
    let apost = array.subrange(index, array.len() as int);
    assert(count_true(apost) == 0) by {
        lemma_count_true_all_false_seq(apost);
    }
    lemma_count_true_bounds(post);
    if cnt == nb {
        assert(e =~= array);
        assert(combis(array, nb, index, cnt)[0] == array);
    } else {
        let r1 = combis(array, nb, index + 1, cnt);
        let a2 = array.update(index, true);
        let r2 = combis(a2, nb, index + 1, cnt + 1);
        if e[index] {
            lemma_count_true_update(array, index);
            assert forall|k: int| index + 1 <= k < a2.len() implies !a2[k] by {}
            lemma_combis_complete(a2, nb, index + 1, cnt + 1, e);
            let m = choose|m: int| 0 <= m < r2.len() && r2[m] == e;
            assert((r1 + r2)[r1.len() + m] == e);
        } else {
            lemma_combis_complete(array, nb, index + 1, cnt, e);
            let m = choose|m: int| 0 <= m < r1.len() && r1[m] == e;
            assert((r1 + r2)[m] == e);
        }
    }
}

proof fn lemma_count_true_all_false_seq(s: Seq<bool>)
    requires
        forall|k: int| 0 <= k < s.len() ==> !s[k],
    ensures
        count_true(s) == 0,
    decreases s.len(),
{
    if s.len() > 0 {
        lemma_count_true_all_false_seq(s.drop_last());
    }
}

proof fn lemma_combis_distinct(array: Seq<bool>, nb: int, index: int, cnt: int)
    requires
        0 <= index,
        forall|k: int| index <= k < array.len() ==> !array[k],
    ensures
        combis(array, nb, index, cnt).no_duplicates(),
    decreases array.len() - index,
{
    if cnt == nb {
    } else if index - cnt > array.len() - nb || index >= array.len() || index < 0 {
    } else {
        let a2 = array.update(index, true);
        let r1 = combis(array, nb, index + 1, cnt);
        let r2 = combis(a2, nb, index + 1, cnt + 1);
        lemma_combis_distinct(array, nb, index + 1, cnt);
        lemma_combis_distinct(a2, nb, index + 1, cnt + 1);
        lemma_combis_prefix(array, nb, index + 1, cnt);
        lemma_combis_prefix(a2, nb, index + 1, cnt + 1);
        assert forall|i: int, j: int| 0 <= i < r1.len() && 0 <= j < r2.len() implies r1[i] != r2[j] by {
            assert(r1.contains(r1[i]));
            assert(r2.contains(r2[j]));
            assert(r1[i][index] == array[index]);
            assert(r2[j][index] == a2[index]);
            assert(!array[index]);
        }
        vstd::seq_lib::lemma_no_dup_in_concat(r1, r2);
    }
}

/// The placements of `nb` marks among `range` positions are exactly the
/// sequences of `range` cells with `nb` marks, each listed once.
pub proof fn lemma_placements(range: nat, nb: nat, e: Seq<bool>)
    requires
        nb <= range,
    ensures
        placements(range, nb).contains(e) <==> (e.len() == range && count_true(e) == nb),
        placements(range, nb).no_duplicates(),
{
    let a = all_false(range);
    lemma_count_true_all_false(range);
    lemma_combis_marks(a, nb as int, 0, 0);
    lemma_combis_distinct(a, nb as int, 0, 0);
    if e.len() == range && count_true(e) == nb {
        lemma_combis_complete(a, nb as int, 0, 0, e);
    }
}


// ---------------------------------------------------------------------------
// The search over column layouts, one worker per layout at every level.
// ---------------------------------------------------------------------------

/// The search over column layouts from column `index` on: the layouts
/// chosen by `s` are checked against the row clues; when the check fails
/// after column `index`, one worker per layout of column `index` searches
/// from the next column with that layout chosen; the first grid among the
/// workers' answers, in the order the workers were started.
pub open spec fn solve_cols_spec(
    s: Seq<u32>,
    cols: Seq<Seq<Seq<bool>>>,
    rows: Seq<Seq<u32>>,
    index: int,
) -> Seq<Seq<bool>>
    decreases cols.len() - index, if 0 <= index < cols.len() {
        cols[index].len() + 1
    } else {
        0
    },
{
    let v = verify_grid(picked(s, cols), rows);
    if v == -1 {
        picked(s, cols)
    } else if index >= cols.len() || index < 0 || v < index {
        seq![]
    } else {
        first_col_branch(s, cols, rows, index, 0)
    }
}

/// The workers for the layouts `i..` of column `index`; the first grid found.
pub open spec fn first_col_branch(
    s: Seq<u32>,
    cols: Seq<Seq<Seq<bool>>>,
    rows: Seq<Seq<u32>>,
    index: int,
    i: int,
) -> Seq<Seq<bool>>
    decreases cols.len() - index, if 0 <= index < cols.len() && 0 <= i {
        cols[index].len() - i
    } else {
        0
    },
{
    if index < 0 || index >= cols.len() || i < 0 || i >= cols[index].len() {
        seq![]
    } else {
        let g = solve_cols_spec(s.update(index, i as u32), cols, rows, index + 1);
        if g.len() != 0 {
            g
        } else {
            first_col_branch(s, cols, rows, index, i + 1)
        }
    }
}

/// The search over column layouts answers: the layouts chosen by `s` pass,
/// or no workers are needed, or one of them finds a grid (otherwise the
/// workers' answers are awaited forever).
pub open spec fn cols_search_answers(
    s: Seq<u32>,
    cols: Seq<Seq<Seq<bool>>>,
    rows: Seq<Seq<u32>>,
    index: int,
) -> bool {
    let v = verify_grid(picked(s, cols), rows);
    v == -1 || index >= cols.len() || v < index || solve_cols_spec(s, cols, rows, index).len() != 0
}

fn copy_layouts(v: &Vec<Vec<Vec<bool>>>) -> (r: Vec<Vec<Vec<bool>>>)
    ensures
        layout_rows(&r) == layout_rows(v),
{
    let mut r: Vec<Vec<Vec<bool>>> = Vec::new();
    let mut i: usize = 0;
    while i < v.len()
        invariant
            i <= v.len(),
            r.len() == i,
            forall|t: int| 0 <= t < i ==> #[trigger] bool_rows(&r@[t]) == bool_rows(&v@[t]),
        decreases v.len() - i,
    {
        let lines = &v[i];
        let mut c: Vec<Vec<bool>> = Vec::new();
        let mut k: usize = 0;
        while k < lines.len()
            invariant
                k <= lines.len(),
                c.len() == k,
                forall|t: int| 0 <= t < k ==> #[trigger] c@[t]@ == lines@[t]@,
            decreases lines.len() - k,
        {
            c.push(copy_bools(&lines[k]));
            k = k + 1;
        }
        assert(bool_rows(&c) =~= bool_rows(lines));
        r.push(c);
        i = i + 1;
    }
    assert(layout_rows(&r) =~= layout_rows(v));
    r
}

impl Nonogram {
    /// The search over column layouts (see `solve_cols_spec`): the grid of
    /// the chosen column layouts that the row clues accept.
    pub fn _solve(s: Vec<u32>, cols: Vec<Vec<Vec<bool>>>, rows: Vec<Vec<u32>>, index: usize) -> (grid: Vec<Vec<bool>>)
        requires
            choices_ok(s@, layout_rows(&cols), rows.len() as nat),
            layouts_wide(layout_rows(&cols), rows.len() as nat, index as int),
            index <= cols.len(),
            cols_search_answers(s@, layout_rows(&cols), clue_rows(&rows), index as int),
        ensures
            bool_rows(&grid) == solve_cols_spec(s@, layout_rows(&cols), clue_rows(&rows), index as int),
    {
        search_cols(s, cols, rows, index)
    }
}

/// The search over column layouts, each worker's answer taken in the order
/// the workers were started (a worker that finds nothing answers with an
/// empty grid).
fn search_cols(s: Vec<u32>, cols: Vec<Vec<Vec<bool>>>, rows: Vec<Vec<u32>>, index: usize) -> (grid: Vec<Vec<bool>>)
    requires
        choices_ok(s@, layout_rows(&cols), rows.len() as nat),
        layouts_wide(layout_rows(&cols), rows.len() as nat, index as int),
        index <= cols.len(),
    ensures
        bool_rows(&grid) == solve_cols_spec(s@, layout_rows(&cols), clue_rows(&rows), index as int),
    decreases cols.len() - index,
{
    let ghost lc = layout_rows(&cols);
    let ghost cr = clue_rows(&rows);
    let mut grid: Vec<Vec<bool>> = Vec::new();
    let mut i: usize = 0;
    while i < cols.len()
        invariant
            lc == layout_rows(&cols),
            choices_ok(s@, lc, rows.len() as nat),
            i <= cols.len(),
            grid.len() == i,
            forall|t: int| 0 <= t < i ==> #[trigger] grid@[t]@ == lc[t][s@[t] as int],
        decreases cols.len() - i,
    {
        assert(s@[i as int] < lc[i as int].len());
        let a = s[i] as usize;
        grid.push(copy_bools(&cols[i][a]));
        i = i + 1;
    }
    assert(bool_rows(&grid) =~= picked(s@, lc));
    let mut grid_copy: Vec<Vec<bool>> = Vec::new();
    let mut k: usize = 0;
    while k < grid.len()
        invariant
            k <= grid.len(),
            grid_copy.len() == k,
            forall|t: int| 0 <= t < k ==> #[trigger] grid_copy@[t]@ == grid@[t]@,
        decreases grid.len() - k,
    {
        grid_copy.push(copy_bools(&grid[k]));
        k = k + 1;
    }
    assert(bool_rows(&grid_copy) =~= bool_rows(&grid));
    assert forall|t: int| 0 <= t < grid_copy.len() implies #[trigger] bool_rows(&grid_copy)[t].len() >= rows.len() by {
        assert(bool_rows(&grid)[t] == lc[t][s@[t] as int]);
        assert(lc[t][s@[t] as int].len() >= rows.len());
    }
    let clues = copy_clues(&rows);
    assert(clue_rows(&clues).len() == clues.len());
    let verif = Nonogram::_verify(grid_copy, clues);
    if verif == -1 {
        return grid;
    }
    if index == cols.len() || verif < index as isize {
        let empty: Vec<Vec<bool>> = Vec::new();
        assert(bool_rows(&empty) =~= Seq::<Seq<bool>>::empty());
        return empty;
    }
    let mut i: usize = 0;
    while i < cols[index].len()
        invariant
            lc == layout_rows(&cols),
            cr == clue_rows(&rows),
            index < cols.len(),
            choices_ok(s@, lc, rows.len() as nat),
            layouts_wide(lc, rows.len() as nat, index as int),
            i <= cols[index as int].len(),
            solve_cols_spec(s@, lc, cr, index as int) == first_col_branch(s@, lc, cr, index as int, i as int),
        decreases cols[index as int].len() - i,
    {
        proof {
            lemma_choices_update(s@, lc, rows.len() as nat, index as int, i as int);
        }
        let mut s_t = copy_choices(&s);
        s_t.set(index, i as u32);
        let received = search_cols(s_t, copy_layouts(&cols), copy_clues(&rows), index + 1);
        if received.len() != 0 {
            return received;
        }
        i = i + 1;
    }
    let empty: Vec<Vec<bool>> = Vec::new();
    assert(bool_rows(&empty) =~= Seq::<Seq<bool>>::empty());
    empty
}


// ---------------------------------------------------------------------------
// The search misses no grid: whenever some choice of layouts passes the
// column check, the solver finds a grid.
// ---------------------------------------------------------------------------

proof fn lemma_scan_first_failure(line: Seq<bool>, clue: Seq<u32>, i: int)
    requires
        0 <= i,
        scan_state(line, clue, i) is Failed,
    ensures
        0 <= scan_state(line, clue, i)->at < i,
        scan_state(line, clue, scan_state(line, clue, i)->at + 1) == scan_state(line, clue, i),
    decreases i,
{
    if i > 0 && scan_state(line, clue, i - 1) is Failed {
        lemma_scan_first_failure(line, clue, i - 1);
    }
}

/// A line that fails its clue before cell `m` makes every line that agrees
/// with it on the cells before `m` fail too.
proof fn lemma_scan_line_prefix(l1: Seq<bool>, l2: Seq<bool>, clue: Seq<u32>, m: int)
    requires
        l1.len() == l2.len(),
        0 <= m <= l1.len(),
        forall|k: int| 0 <= k < m ==> l1[k] == l2[k],
        scan_line(l1, clue) matches Some(at) && at < m,
    ensures
        scan_line(l2, clue) is Some,
{
    let n = l1.len() as int;
    let at = scan_line(l1, clue)->0;
    if at < n {
        lemma_scan_first_failure(l1, clue, n);
        lemma_scan_prefix(l1, l2, clue, at + 1);
        lemma_scan_failed_stays(l2, clue, at + 1, n);
    }
}

proof fn lemma_first_failure_bound(grid: Seq<Seq<bool>>, clues: Seq<Seq<u32>>, j: int)
    ensures
        first_failure(grid, clues, j) >= -1,
    decreases clues.len() - j,
{
    if 0 <= j < clues.len() {
        let line = column(grid, j);
        if scan_line(line, clues[j]) is Some && scan_state(line, clues[j], line.len() as int) is Failed {
            lemma_scan_first_failure(line, clues[j], line.len() as int);
        }
        lemma_first_failure_bound(grid, clues, j + 1);
    }
}

proof fn lemma_first_failure_prefix(g1: Seq<Seq<bool>>, g2: Seq<Seq<bool>>, clues: Seq<Seq<u32>>, j: int, m: int)
    requires
        g1.len() == g2.len(),
        0 <= m <= g1.len(),
        forall|k: int, c: int| 0 <= k < m && 0 <= c < clues.len() ==> #[trigger] g1[k][c] == g2[k][c],
        0 <= first_failure(g1, clues, j) < m,
    ensures
        first_failure(g2, clues, j) != -1,
    decreases clues.len() - j,
{
    if 0 <= j < clues.len() {
        let c1 = column(g1, j);
        let c2 = column(g2, j);
        lemma_first_failure_bound(g2, clues, j + 1);
        if scan_line(c2, clues[j]) is Some {
            let line = c2;
            if scan_state(line, clues[j], line.len() as int) is Failed {
                lemma_scan_first_failure(line, clues[j], line.len() as int);
            }
        } else {
            if scan_line(c1, clues[j]) is Some {
                assert forall|k: int| 0 <= k < m implies c1[k] == c2[k] by {
                    assert(g1[k][j] == g2[k][j]);
                }
                lemma_scan_line_prefix(c1, c2, clues[j], m);
            }
            lemma_first_failure_prefix(g1, g2, clues, j + 1, m);
        }
    }
}

/// Choices that agree on the rows before `m` pick the same layouts there.
proof fn lemma_picked_prefix(s: Seq<u32>, t: Seq<u32>, rows: Seq<Seq<Seq<bool>>>, cols: Seq<Seq<u32>>, m: int)
    requires
        choices_ok(s, rows, cols.len()),
        choices_ok(t, rows, cols.len()),
        0 <= m <= rows.len(),
        forall|k: int| 0 <= k < m ==> s[k] == t[k],
        verify_rows_spec(t, rows, cols) == -1,
    ensures
        verify_rows_spec(s, rows, cols) == -1 || verify_rows_spec(s, rows, cols) >= m,
{
    let g1 = picked(s, rows);
    let g2 = picked(t, rows);
    lemma_first_failure_bound(g1, cols, 0);
    if 0 <= verify_rows_spec(s, rows, cols) < m {
        assert forall|k: int, c: int| 0 <= k < m && 0 <= c < cols.len() implies #[trigger] g1[k][c] == g2[k][c] by {
            assert(s[k] == t[k]);
        }
        lemma_first_failure_prefix(g1, g2, cols, 0, m);
    }
}

/// The search from row `index` leaves the choices of the rows before it
/// as they were.
proof fn lemma_solve_keeps(s: Seq<u32>, rows: Seq<Seq<Seq<bool>>>, cols: Seq<Seq<u32>>, index: int)
    requires
        0 <= index,
        s.len() >= rows.len(),
    ensures
        solve_rows_spec(s, rows, cols, index).1.len() == s.len(),
        forall|k: int| 0 <= k < index ==> #[trigger] solve_rows_spec(s, rows, cols, index).1[k] == s[k],
    decreases rows.len() - index, if 0 <= index < rows.len() {
        rows[index].len() + 1
    } else {
        0
    },
{
    let v = verify_rows_spec(s, rows, cols);
    if v == -1 {
    } else if index >= rows.len() || index < 0 || v < index {
    } else {
        lemma_try_keeps(s, rows, cols, index, 0);
    }
}

proof fn lemma_try_keeps(s: Seq<u32>, rows: Seq<Seq<Seq<bool>>>, cols: Seq<Seq<u32>>, index: int, i: int)
    requires
        0 <= index,
        s.len() >= rows.len(),
        0 <= i,
    ensures
        try_choices(s, rows, cols, index, i).1.len() == s.len(),
        forall|k: int| 0 <= k < index ==> #[trigger] try_choices(s, rows, cols, index, i).1[k] == s[k],
    decreases rows.len() - index, if 0 <= index < rows.len() && 0 <= i {
        rows[index].len() - i
    } else {
        0
    },
{
    if index < 0 || index >= rows.len() || i < 0 || i >= rows[index].len() {
    } else {
        let s2 = s.update(index, i as u32);
        lemma_solve_keeps(s2, rows, cols, index + 1);
        let res = solve_rows_spec(s2, rows, cols, index + 1);
        if res.0.len() == 0 {
            lemma_try_keeps(res.1, rows, cols, index, i + 1);
        }
    }
}

/// The backtracking search from row `index` misses no grid: whenever some
/// choices `t` that agree with `s` on the rows before `index` pass the
/// column check, it finds a grid (on a nonogram with at least one column).
pub proof fn lemma_solve_complete(
    s: Seq<u32>,
    rows: Seq<Seq<Seq<bool>>>,
    cols: Seq<Seq<u32>>,
    index: int,
    t: Seq<u32>,
)
    requires
        choices_ok(s, rows, cols.len()),
        layouts_wide(rows, cols.len(), index),
        choices_ok(t, rows, cols.len()),
        verify_rows_spec(t, rows, cols) == -1,
        cols.len() > 0,
        0 <= index <= rows.len(),
        forall|k: int| 0 <= k < index ==> s[k] == t[k],
    ensures
        solve_rows_spec(s, rows, cols, index).0.len() != 0,
    decreases rows.len() - index, if 0 <= index < rows.len() {
        rows[index].len() + 1
    } else {
        0
    },
{
    let v = verify_rows_spec(s, rows, cols);
    lemma_picked_prefix(s, t, rows, cols, index);
    if v == -1 {
    } else if index >= rows.len() {
        assert(picked(s, rows) =~= picked(t, rows)) by {
            assert forall|k: int| 0 <= k < rows.len() implies picked(s, rows)[k] == picked(t, rows)[k] by {
                assert(s[k] == t[k]);
            }
        }
    } else {
        lemma_try_complete(s, rows, cols, index, 0, t);
    }
}

proof fn lemma_try_complete(
    s: Seq<u32>,
    rows: Seq<Seq<Seq<bool>>>,
    cols: Seq<Seq<u32>>,
    index: int,
    i: int,
    t: Seq<u32>,
)
    requires
        choices_ok(s, rows, cols.len()),
        layouts_wide(rows, cols.len(), index),
        choices_ok(t, rows, cols.len()),
        verify_rows_spec(t, rows, cols) == -1,
        cols.len() > 0,
        0 <= index < rows.len(),
        0 <= i <= t[index],
        forall|k: int| 0 <= k < index ==> s[k] == t[k],
    ensures
        try_choices(s, rows, cols, index, i).0.len() != 0,
    decreases rows.len() - index, rows[index].len() - i,
{
    assert(t[index] < rows[index].len());
    lemma_choices_update(s, rows, cols.len(), index, i);
    let s2 = s.update(index, i as u32);
    if i == t[index] {
        assert forall|k: int| 0 <= k < index + 1 implies s2[k] == t[k] by {}
        lemma_solve_complete(s2, rows, cols, index + 1, t);
    } else {
        let res = solve_rows_spec(s2, rows, cols, index + 1);
        if res.0.len() == 0 {
            lemma_solve_accepted(s2, rows, cols, index + 1);
            lemma_solve_keeps(s2, rows, cols, index + 1);
            assert forall|k: int| 0 <= k < index implies res.1[k] == t[k] by {
                assert(res.1[k] == s2[k]);
            }
            lemma_try_complete(res.1, rows, cols, index, i + 1, t);
        }
    }
}

proof fn lemma_first_branch_complete(
    s: Seq<u32>,
    rows: Seq<Seq<Seq<bool>>>,
    cols: Seq<Seq<u32>>,
    i: int,
    t: Seq<u32>,
)
    requires
        choices_ok(s, rows, cols.len()),
        layouts_wide(rows, cols.len(), 0),
        choices_ok(t, rows, cols.len()),
        verify_rows_spec(t, rows, cols) == -1,
        cols.len() > 0,
        0 < rows.len(),
        0 <= i <= t[0],
    ensures
        first_branch(s, rows, cols, 0, i).len() != 0,
    decreases rows[0].len() - i,
{
    assert(t[0] < rows[0].len());
    lemma_choices_update(s, rows, cols.len(), 0, i);
    let s2 = s.update(0, i as u32);
    if i == t[0] {
        assert forall|k: int| 0 <= k < 1 implies s2[k] == t[k] by {}
        lemma_solve_complete(s2, rows, cols, 1, t);
    } else if solve_rows_spec(s2, rows, cols, 1).0.len() == 0 {
        lemma_first_branch_complete(s, rows, cols, i + 1, t);
    }
}

/// The solver misses no grid: whenever one candidate layout per row can be
/// chosen so that the column check finds no failure, the solver finds a
/// grid (on a nonogram with at least one column).
pub proof fn lemma_solution_found(rows: Seq<Seq<u32>>, cols: Seq<Seq<u32>>, t: Seq<u32>)
    requires
        puzzle_ok(rows, cols.len()),
        cols.len() > 0,
        choices_ok(t, all_candidates(rows, cols.len()), cols.len()),
        verify_rows_spec(t, all_candidates(rows, cols.len()), cols) == -1,
    ensures
        nonogram_solution(rows, cols).len() != 0,
{
    let cand = all_candidates(rows, cols.len());
    let z = first_choices(rows.len());
    assert forall|j: int| 0 <= j < cand.len() implies #[trigger] z[j] < cand[j].len() by {
        lemma_candidates_nonempty(rows[j], cols.len());
    }
    assert forall|j: int, k: int| 0 <= j < cand.len() && 0 <= k < cand[j].len() implies #[trigger] cand[j][k].len()
        >= cols.len() by {
        lemma_candidate_len(rows[j], cols.len(), k);
    }
    assert(choices_ok(z, cand, cols.len()));
    let v = verify_rows_spec(z, cand, cols);
    lemma_first_failure_bound(picked(z, cand), cols, 0);
    if v == -1 {
    } else if rows.len() == 0 {
        assert(picked(z, cand) =~= picked(t, cand));
    } else {
        lemma_first_branch_complete(z, cand, cols, 0, t);
    }
}


/// A failure the column check reports at row `r` depends on the layouts of
/// rows `0..=r` alone: choices that agree there fail too, so no choice for
/// the later rows can pass.
pub proof fn lemma_verify_rows_prefix(s: Seq<u32>, t: Seq<u32>, rows: Seq<Seq<Seq<bool>>>, cols: Seq<Seq<u32>>)
    requires
        choices_ok(s, rows, cols.len()),
        choices_ok(t, rows, cols.len()),
        0 <= verify_rows_spec(s, rows, cols) < rows.len(),
        forall|k: int| 0 <= k <= verify_rows_spec(s, rows, cols) ==> s[k] == t[k],
    ensures
        verify_rows_spec(t, rows, cols) != -1,
{
    let r = verify_rows_spec(s, rows, cols);
    let g1 = picked(s, rows);
    let g2 = picked(t, rows);
    assert forall|k: int, c: int| 0 <= k < r + 1 && 0 <= c < cols.len() implies #[trigger] g1[k][c] == g2[k][c] by {
        assert(s[k] == t[k]);
    }
    lemma_first_failure_prefix(g1, g2, cols, 0, r + 1);
}


// ---------------------------------------------------------------------------
// What the column check accepts: lines whose runs are a prefix of the clue.
// ---------------------------------------------------------------------------

/// The runs of filled cells among the first `i` cells of `line`: the
/// lengths of the runs already closed, and the length of the one still
/// open (0 when the last cell is empty).
pub open spec fn runs_upto(line: Seq<bool>, i: int) -> (Seq<int>, int)
    decreases i,
{
    if i <= 0 {
        (seq![], 0)
    } else {
        let (done, cnt) = runs_upto(line, i - 1);
        if line[i - 1] {
            (done, cnt + 1)
        } else if cnt != 0 {
            (done.push(cnt), 0)
        } else {
            (done, cnt)
        }
    }
}

/// The lengths of the maximal runs of filled cells of `line`, in order.
pub open spec fn runs(line: Seq<bool>) -> Seq<int> {
    let (done, cnt) = runs_upto(line, line.len() as int);
    if cnt != 0 {
        done.push(cnt)
    } else {
        done
    }
}

/// `r` is a prefix of `clue`.
pub open spec fn runs_prefix(r: Seq<int>, clue: Seq<u32>) -> bool {
    &&& r.len() <= clue.len()
    &&& forall|k: int| 0 <= k < r.len() ==> r[k] == clue[k] as int
}

proof fn lemma_scan_runs(line: Seq<bool>, clue: Seq<u32>, i: int)
    requires
        0 <= i <= line.len(),
    ensures
        ({
            let (d, c) = runs_upto(line, i);
            let good = runs_prefix(d, clue) && (c > 0 ==> d.len() < clue.len());
            &&& c >= 0
            &&& (scan_state(line, clue, i) is Running <==> good)
            &&& good ==> scan_state(line, clue, i) == (ScanState::Running { index: d.len() as int, cnt: c })
        }),
    decreases i,
{
    if i > 0 {
        lemma_scan_runs(line, clue, i - 1);
        let (d, c) = runs_upto(line, i - 1);
        if !line[i - 1] && c != 0 {
            let d2 = d.push(c);
            if runs_prefix(d, clue) && d.len() < clue.len() && clue[d.len() as int] as int == c {
                assert(runs_prefix(d2, clue));
            } else {
                if runs_prefix(d2, clue) {
                    assert(d2[d.len() as int] == clue[d.len() as int] as int);
                    assert forall|k: int| 0 <= k < d.len() implies d[k] == clue[k] as int by {
                        assert(d2[k] == d[k]);
                    }
                }
            }
        }
    }
}

/// A line passes the check against its clue exactly when its runs are a
/// prefix of the clue.
pub proof fn lemma_scan_line_runs(line: Seq<bool>, clue: Seq<u32>)
    ensures
        scan_line(line, clue) is None <==> runs_prefix(runs(line), clue),
        scan_line(line, clue) matches Some(at) ==> 0 <= at <= line.len(),
{
    let n = line.len() as int;
    lemma_scan_runs(line, clue, n);
    let (d, c) = runs_upto(line, n);
    if scan_state(line, clue, n) is Failed {
        lemma_scan_first_failure(line, clue, n);
        if c != 0 && runs_prefix(d.push(c), clue) {
            assert forall|k: int| 0 <= k < d.len() implies d[k] == clue[k] as int by {
                assert(d.push(c)[k] == d[k]);
            }
        }
    } else if c != 0 {
        let d2 = d.push(c);
        if runs_prefix(d2, clue) {
            assert(d2[d.len() as int] == c);
        } else {
            if clue[d.len() as int] as int == c {
                assert(runs_prefix(d2, clue));
            }
        }
    }
}

proof fn lemma_first_failure_runs(grid: Seq<Seq<bool>>, clues: Seq<Seq<u32>>, j: int)
    requires
        0 <= j,
    ensures
        first_failure(grid, clues, j) == -1 <==> forall|t: int|
            j <= t < clues.len() ==> #[trigger] runs_prefix(runs(column(grid, t)), clues[t]),
        -1 <= first_failure(grid, clues, j) <= grid.len(),
    decreases clues.len() - j,
{
    if j < clues.len() {
        lemma_first_failure_runs(grid, clues, j + 1);
        lemma_scan_line_runs(column(grid, j), clues[j]);
    }
}

/// The column check of the chosen layouts fails nowhere exactly when, in
/// every column, the runs of filled cells are a prefix of the column's
/// clue; otherwise it names a row, from 0 to the number of rows.
pub proof fn lemma_verify_rows_runs(s: Seq<u32>, rows: Seq<Seq<Seq<bool>>>, cols: Seq<Seq<u32>>)
    ensures
        verify_rows_spec(s, rows, cols) == -1 <==> forall|i: int|
            0 <= i < cols.len() ==> #[trigger] runs_prefix(runs(column(picked(s, rows), i)), cols[i]),
        -1 <= verify_rows_spec(s, rows, cols) <= rows.len(),
{
    lemma_first_failure_runs(picked(s, rows), cols, 0);
}

/// The check of a grid fails nowhere exactly when, for every clue `j`, the
/// runs of cell `j` of the lines are a prefix of that clue; otherwise it
/// names a line, from 0 to the number of lines.
pub proof fn lemma_verify_runs(grid: Seq<Seq<bool>>, clues: Seq<Seq<u32>>)
    ensures
        verify_grid(grid, clues) == -1 <==> forall|j: int|
            0 <= j < clues.len() ==> #[trigger] runs_prefix(runs(column(grid, j)), clues[j]),
        -1 <= verify_grid(grid, clues) <= grid.len(),
{
    lemma_first_failure_runs(grid, clues, 0);
}


// ---------------------------------------------------------------------------
// Every candidate layout has exactly the runs of its clue.
// ---------------------------------------------------------------------------

proof fn lemma_runs_upto_prefix(l1: Seq<bool>, l2: Seq<bool>, i: int)
    requires
        0 <= i <= l1.len(),
        i <= l2.len(),
        forall|k: int| 0 <= k < i ==> l1[k] == l2[k],
    ensures
        runs_upto(l1, i) == runs_upto(l2, i),
    decreases i,
{
    if i > 0 {
        lemma_runs_upto_prefix(l1, l2, i - 1);
    }
}

proof fn lemma_runs_filled(l: Seq<bool>, n: nat, k: int)
    requires
        0 <= k <= n,
        runs_upto(l, l.len() as int).1 == 0,
    ensures
        runs_upto(l + filled(n), l.len() + k) == (runs_upto(l, l.len() as int).0, k),
    decreases k,
{
    let x = l + filled(n);
    if k == 0 {
        lemma_runs_upto_prefix(l, x, l.len() as int);
    } else {
        lemma_runs_filled(l, n, k - 1);
        assert(x[l.len() + k - 1] == true);
    }
}

/// The clue's runs as integers.
pub open spec fn clue_runs(clue: Seq<u32>) -> Seq<int> {
    clue.map_values(|x: u32| x as int)
}

/// The runs state at the end of the line drawn from `q`: the runs of the
/// clue drawn so far, all closed but the last run of the clue when `q`
/// ends with its mark.
pub open spec fn drawn_runs(q: Seq<bool>, clue: Seq<u32>) -> (Seq<int>, int) {
    let t = count_true(q) as int;
    if t == clue.len() && t > 0 && q.last() {
        (clue_runs(clue).take(t - 1), clue[t - 1] as int)
    } else {
        (clue_runs(clue).take(t), 0)
    }
}

proof fn lemma_line_runs(q: Seq<bool>, clue: Seq<u32>)
    requires
        runs_positive(clue),
        count_true(q) <= clue.len(),
    ensures
        runs_upto(line_of(q, clue), line_of(q, clue).len() as int) == drawn_runs(q, clue),
    decreases q.len(),
{
    let cl = clue_runs(clue);
    if q.len() == 0 {
        assert(cl.take(0) =~= Seq::<int>::empty());
    } else {
        let r = q.drop_last();
        let t = count_true(r) as int;
        let prev = line_of(r, clue);
        lemma_line_runs(r, clue);
        if q.last() {
            assert(t < clue.len());
            assert(drawn_runs(r, clue) == (cl.take(t), 0int)) by {
                if t == clue.len() && t > 0 && r.last() {
                }
            }
            let n = clue[t] as nat;
            assert(n > 0);
            lemma_runs_filled(prev, n, n as int);
            let x = prev + filled(n);
            assert(runs_upto(x, x.len() as int) == (cl.take(t), n as int));
            if t < clue.len() - 1 {
                let y = x.push(false);
                assert(line_of(q, clue) =~= y);
                lemma_runs_upto_prefix(x, y, x.len() as int);
                assert(cl.take(t).push(n as int) =~= cl.take(t + 1));
            } else {
                assert(line_of(q, clue) =~= x);
            }
        } else {
            let y = prev.push(false);
            lemma_runs_upto_prefix(prev, y, prev.len() as int);
            if t == clue.len() && t > 0 && r.last() {
                assert(cl.take(t - 1).push(clue[t - 1] as int) =~= cl.take(t));
            }
        }
    }
}

/// Every candidate layout of a line (for a clue whose runs are positive)
/// has as many cells as the line, and its runs of filled cells are exactly
/// the clue's runs, in order.
pub proof fn lemma_candidate_runs(clue: Seq<u32>, nb: nat, k: int)
    requires
        clue_fits(clue, nb),
        runs_positive(clue),
        0 <= k < candidate_lines(clue, nb).len(),
    ensures
        candidate_lines(clue, nb)[k].len() == nb,
        runs(candidate_lines(clue, nb)[k]) == clue_runs(clue),
{
    let g = clue.len();
    let ne = empty_count(clue, nb);
    let c = placements(ne + g, g);
    lemma_count_true_all_false(ne + g);
    lemma_combis_marks(all_false(ne + g), g as int, 0, 0);
    assert(c.contains(c[k]));
    lemma_candidate_len(clue, nb, k);
    let p = c[k];
    lemma_line_runs(p, clue);
    let cl = clue_runs(clue);
    if g > 0 && p.last() {
        assert(cl.take(g - 1).push(clue[g - 1] as int) =~= cl);
    } else {
        assert(cl.take(g as int) =~= cl);
    }
}


proof fn lemma_line_end(q: Seq<bool>, clue: Seq<u32>)
    requires
        count_true(q) < clue.len(),
    ensures
        line_of(q, clue).len() == 0 || !line_of(q, clue).last(),
    decreases q.len(),
{
    if q.len() > 0 && !q.last() {
        lemma_line_end(q.drop_last(), clue);
    }
}

proof fn lemma_line_of_injective(p1: Seq<bool>, p2: Seq<bool>, clue: Seq<u32>)
    requires
        runs_positive(clue),
        p1.len() == p2.len(),
        count_true(p1) == count_true(p2),
        count_true(p1) <= clue.len(),
        line_of(p1, clue) == line_of(p2, clue),
    ensures
        p1 == p2,
    decreases p1.len(),
{
    if p1.len() > 0 {
        let r1 = p1.drop_last();
        let r2 = p2.drop_last();
        let l1 = line_of(r1, clue);
        let l2 = line_of(r2, clue);
        let line = line_of(p1, clue);
        let m = count_true(p1);
        if p1.last() != p2.last() {
            let (a, b) = if p1.last() {
                (r1, r2)
            } else {
                (r2, r1)
            };
            let la = line_of(a, clue);
            let lb = line_of(b, clue);
            let t = count_true(a) as int;
            assert(t == m - 1);
            assert(clue[t] > 0);
            let n = clue[t] as nat;
            assert(count_true(b) == m);
            if t < clue.len() - 1 {
                lemma_line_end(b, clue);
                assert(line == la + filled(n) + seq![false]);
                assert(line == lb.push(false));
                assert(line[line.len() - 2] == true);
                if lb.len() > 0 {
                    assert(line[line.len() - 2] == lb.last());
                }
            } else {
                assert(line == la + filled(n));
                assert(line.last() == true);
                assert(line == lb.push(false));
            }
        } else if p1.last() {
            let t = count_true(r1) as int;
            let n = clue[t] as nat;
            let ext = filled(n) + (if t < clue.len() - 1 {
                seq![false]
            } else {
                seq![]
            });
            assert(line =~= l1 + ext);
            assert(line =~= l2 + ext);
            assert(l1 =~= line.subrange(0, line.len() - ext.len()));
            assert(l2 =~= line.subrange(0, line.len() - ext.len()));
            lemma_line_of_injective(r1, r2, clue);
            assert(p1 =~= r1.push(true));
            assert(p2 =~= r2.push(true));
        } else {
            assert(l1 =~= line.drop_last());
            assert(l2 =~= line.drop_last());
            lemma_line_of_injective(r1, r2, clue);
            assert(p1 =~= r1.push(false));
            assert(p2 =~= r2.push(false));
        }
    }
}

/// The candidate layouts of a line (for a clue whose runs are positive)
/// are all different.
pub proof fn lemma_candidates_distinct(clue: Seq<u32>, nb: nat)
    requires
        clue_fits(clue, nb),
        runs_positive(clue),
    ensures
        candidate_lines(clue, nb).no_duplicates(),
{
    let g = clue.len();
    let ne = empty_count(clue, nb);
    let c = placements(ne + g, g);
    let lines = candidate_lines(clue, nb);
    lemma_count_true_all_false(ne + g);
    lemma_combis_marks(all_false(ne + g), g as int, 0, 0);
    lemma_placements(ne + g, g, seq![]);
    assert forall|i: int, j: int| 0 <= i < lines.len() && 0 <= j < lines.len() && i != j implies lines[i]
        != lines[j] by {
        assert(c.contains(c[i]));
        assert(c.contains(c[j]));
        if lines[i] == lines[j] {
            lemma_line_of_injective(c[i], c[j], clue);
        }
    }
}


/// `text` shows the grid of columns row by row: no text for no columns;
/// otherwise one line per cell of the first column, line `j` holding
/// cell `j` of every column ('#' filled, ' ' empty) and then a line feed.
pub open spec fn text_lays_out(text: Seq<char>, grid: Seq<Seq<bool>>) -> bool {
    if grid.len() == 0 {
        text.len() == 0
    } else {
        let c = grid.len() as int;
        let r = grid[0].len() as int;
        &&& text.len() == r * (c + 1)
        &&& forall|j: int, i: int|
            0 <= j < r && 0 <= i < c ==> #[trigger] text[j * (c + 1) + i] == (if grid[i][j] {
                '#'
            } else {
                ' '
            })
        &&& forall|j: int| 0 <= j < r ==> #[trigger] text[j * (c + 1) + c] == '\n'
    }
}

proof fn lemma_text_rows_layout(grid: Seq<Seq<bool>>, n: int)
    requires
        0 <= n,
    ensures
        text_rows(grid, n).len() == n * (grid.len() + 1),
        forall|j: int, i: int|
            0 <= j < n && 0 <= i < grid.len() ==> #[trigger] text_rows(grid, n)[j * (grid.len() + 1) + i] == (
            if grid[i][j] {
                '#'
            } else {
                ' '
            }),
        forall|j: int| 0 <= j < n ==> #[trigger] text_rows(grid, n)[j * (grid.len() + 1) + grid.len()] == '\n',
    decreases n,
{
    let c = grid.len() as int;
    if n > 0 {
        lemma_text_rows_layout(grid, n - 1);
        let prev = text_rows(grid, n - 1);
        let row = text_row(grid, n - 1);
        let t = text_rows(grid, n);
        assert(t == prev + row);
        assert(prev.len() == (n - 1) * (c + 1));
        assert(n * (c + 1) == (n - 1) * (c + 1) + (c + 1)) by (nonlinear_arith);
        assert forall|j: int, i: int| 0 <= j < n && 0 <= i < c implies #[trigger] t[j * (c + 1) + i] == (if grid[i][j] {
            '#'
        } else {
            ' '
        }) by {
            if j < n - 1 {
                assert(j * (c + 1) + i < (n - 1) * (c + 1)) by (nonlinear_arith)
                    requires
                        0 <= j < n - 1,
                        0 <= i < c,
                ;
                assert(0 <= j * (c + 1)) by (nonlinear_arith)
                    requires
                        0 <= j,
                        0 <= c,
                ;
                assert(t[j * (c + 1) + i] == prev[j * (c + 1) + i]);
            } else {
                assert(t[j * (c + 1) + i] == row[i]);
            }
        }
        assert forall|j: int| 0 <= j < n implies #[trigger] t[j * (c + 1) + c] == '\n' by {
            if j < n - 1 {
                assert(j * (c + 1) + c < (n - 1) * (c + 1)) by (nonlinear_arith)
                    requires
                        0 <= j < n - 1,
                        0 <= c,
                ;
                assert(0 <= j * (c + 1)) by (nonlinear_arith)
                    requires
                        0 <= j,
                        0 <= c,
                ;
                assert(t[j * (c + 1) + c] == prev[j * (c + 1) + c]);
            } else {
                assert(t[j * (c + 1) + c] == row[c]);
            }
        }
    }
}

/// The text of a grid of columns has one line per row (as many as the
/// first column has cells), and line `j` lists cell `j` of every column.
pub proof fn lemma_grid_text_layout(grid: Seq<Seq<bool>>)
    ensures
        text_lays_out(grid_text(grid), grid),
{
    if grid.len() > 0 {
        lemma_text_rows_layout(grid, grid[0].len() as int);
    }
}

} // verus!
