use vstd::prelude::*;
use std::collections::VecDeque;
use vstd::set_lib::{lemma_int_range, lemma_len_subset, set_int_range};
use crate::messages::input::challenges::monstrous_maze_input::MonstrousMazeInput;
use crate::messages::output::challenges::monstrous_maze_output::MonstrousMazeOutput;
use crate::text::chars_of;
use vstd::string::StrSliceExecFns;
use vstd::utf8::encode_utf8;

verus! {

/// The monstrous-maze solver.
pub struct MonstrousMaze {
    pub input: MonstrousMazeInput,
    pub start: (usize, usize),
    pub end: (usize, usize),
}

/// The cell lies in the maze of `n` rows of `w` cells.
pub open spec fn in_square(c: (usize, usize), n: int, w: int) -> bool {
    c.0 < n && c.1 < w
}

/// A way: a non-empty walk with no cell twice, inside the maze.
pub open spec fn way_ok(way: Seq<(usize, usize)>, n: int, w: int) -> bool {
    &&& way.len() >= 1
    &&& way.no_duplicates()
    &&& forall|i: int| 0 <= i < way.len() ==> #[trigger] in_square(way[i], n, w)
}

/// The number of cells of the first row (the width of a rectangular maze).
pub open spec fn width(maze: Seq<Seq<char>>) -> int {
    if maze.len() == 0 {
        0
    } else {
        maze[0].len() as int
    }
}

/// The maze is a rectangle at least as wide as it is high.
pub open spec fn rows_wide(maze: Seq<Seq<char>>) -> bool {
    &&& forall|i: int| 0 <= i < maze.len() ==> #[trigger] maze[i].len() == width(maze)
    &&& width(maze) >= maze.len()
}

proof fn lemma_cell_index(a: (usize, usize), b: (usize, usize), n: int, w: int)
    by (nonlinear_arith)
    requires
        in_square(a, n, w),
        in_square(b, n, w),
        a.0 * w + a.1 == b.0 * w + b.1,
    ensures
        a.0 == b.0,
        a.1 == b.1,
{
    if a.0 < b.0 {
        assert(a.0 * w + w <= b.0 * w);
    } else if a.0 > b.0 {
        assert(b.0 * w + w <= a.0 * w);
    }
}

proof fn lemma_cell_index_bound(a: (usize, usize), n: int, w: int)
    by (nonlinear_arith)
    requires
        in_square(a, n, w),
    ensures
        0 <= a.0 * w + a.1 < n * w,
{
    assert(a.0 * w <= (n - 1) * w);
}

/// A way has at most as many cells as the square.
pub proof fn lemma_way_len(way: Seq<(usize, usize)>, n: int, w: int)
    requires
        way_ok(way, n, w),
    ensures
        way.len() <= n * w,
{
    let f = |c: (usize, usize)| c.0 * w + c.1;
    let m = way.map_values(f);
    assert forall|i: int, j: int| 0 <= i < m.len() && 0 <= j < m.len() && i != j implies m[i]
        != m[j] by {
        assert(in_square(way[i], n, w));
        assert(in_square(way[j], n, w));
        if m[i] == m[j] {
            lemma_cell_index(way[i], way[j], n, w);
            assert(way[i] == way[j]);
        }
    }
    assert(m.no_duplicates());
    m.unique_seq_to_set();
    assert forall|v: int| m.to_set().contains(v) implies set_int_range(0, n * w).contains(v) by {
        let i = choose|i: int| 0 <= i < m.len() && m[i] == v;
        assert(in_square(way[i], n, w));
        lemma_cell_index_bound(way[i], n, w);
    }
    assert(in_square(way[0], n, w));
    assert(0 <= n * w) by (nonlinear_arith)
        requires
            n > 0,
            w > 0,
    ;
    lemma_int_range(0, n * w);
    lemma_len_subset(m.to_set(), set_int_range(0, n * w));
}

/// A way stays a way when it goes on to a new cell of the maze, and it
/// never outgrows the maze.
pub proof fn lemma_way_push(way: Seq<(usize, usize)>, n: int, w: int, c: (usize, usize))
    requires
        way_ok(way, n, w),
        in_square(c, n, w),
        !way.contains(c),
    ensures
        way_ok(way.push(c), n, w),
        way.push(c).len() <= n * w,
{
    let wp = way.push(c);
    assert forall|i: int| 0 <= i < wp.len() implies #[trigger] in_square(wp[i], n, w) by {
        if i < way.len() {
            assert(wp[i] == way[i]);
        }
    }
    assert forall|i: int, j: int| 0 <= i < wp.len() && 0 <= j < wp.len() && i != j implies wp[i]
        != wp[j] by {
        if i < way.len() && j < way.len() {
        } else if i < way.len() {
            assert(way.contains(way[i]));
        } else {
            assert(way.contains(way[j]));
        }
    }
    lemma_way_len(wp, n, w);
}

/// The endurance left after entering a cell: one less on a monster.
pub open spec fn endurance_after(cell: char, e: u32) -> u32 {
    if cell != 'M' {
        e
    } else {
        (e - 1) as u32
    }
}

/// The search goes on into `c` from `way`: the cell is not a wall and is
/// not on the way yet.
pub open spec fn can_enter(way: Seq<(usize, usize)>, maze: Seq<Seq<char>>, c: (usize, usize)) -> bool {
    maze[c.0 as int][c.1 as int] != '#' && !way.contains(c)
}

/// The cell lies in the maze: its row exists and is long enough.
pub open spec fn inside(maze: Seq<Seq<char>>, c: (usize, usize)) -> bool {
    c.0 < maze.len() && c.1 < maze[c.0 as int].len()
}

/// The length of the longest row of the maze.
pub open spec fn max_width(maze: Seq<Seq<char>>) -> nat
    decreases maze.len(),
{
    if maze.len() == 0 {
        0
    } else if maze.last().len() > max_width(maze.drop_last()) {
        maze.last().len()
    } else {
        max_width(maze.drop_last())
    }
}

/// No row is longer than the longest one.
pub proof fn lemma_max_width(maze: Seq<Seq<char>>, i: int)
    requires
        0 <= i < maze.len(),
    ensures
        maze[i].len() <= max_width(maze),
    decreases maze.len(),
{
    if i < maze.len() - 1 {
        lemma_max_width(maze.drop_last(), i);
        assert(maze.drop_last()[i] == maze[i]);
    }
}

/// The cells the search added to the way after its first `base` cells
/// are distinct and lie in the maze.
pub open spec fn added_ok(way: Seq<(usize, usize)>, base: int, maze: Seq<Seq<char>>) -> bool {
    &&& 0 <= base <= way.len()
    &&& way.subrange(base, way.len() as int).no_duplicates()
    &&& forall|k: int| base <= k < way.len() ==> #[trigger] inside(maze, way[k])
}

/// A new cell of the maze keeps the added cells distinct, and there are
/// never more of them than cells in the maze.
pub proof fn lemma_added_push(way: Seq<(usize, usize)>, base: int, maze: Seq<Seq<char>>, c: (usize, usize))
    requires
        added_ok(way, base, maze),
        inside(maze, c),
        !way.contains(c),
    ensures
        added_ok(way.push(c), base, maze),
        way.push(c).len() - base <= maze.len() * max_width(maze),
{
    let n = maze.len() as int;
    let w = max_width(maze) as int;
    let wp = way.push(c);
    let old_part = way.subrange(base, way.len() as int);
    let part = wp.subrange(base, wp.len() as int);
    assert(part =~= old_part.push(c));
    assert forall|k: int| base <= k < wp.len() implies #[trigger] inside(maze, wp[k]) by {
        if k < way.len() {
            assert(wp[k] == way[k]);
        }
    }
    assert forall|i: int| 0 <= i < part.len() implies #[trigger] in_square(part[i], n, w) by {
        assert(part[i] == wp[base + i]);
        assert(inside(maze, wp[base + i]));
        lemma_max_width(maze, part[i].0 as int);
    }
    assert forall|i: int, j: int| 0 <= i < part.len() && 0 <= j < part.len() && i != j implies part[i]
        != part[j] by {
        if i < old_part.len() && j < old_part.len() {
            assert(part[i] == old_part[i]);
            assert(part[j] == old_part[j]);
        } else if i < old_part.len() {
            assert(part[i] == way[base + i]);
            assert(way.contains(way[base + i]));
        } else {
            assert(part[j] == way[base + j]);
            assert(way.contains(way[base + j]));
        }
    }
    assert(part.no_duplicates());
    lemma_way_len(part, n, w);
}

/// The depth-first search for the exit, the cells after the first `base`
/// of `way` being the ones it added: from the last cell of `way`, it looks
/// at the cell above, below, to the left and to the right, in that order
/// (below and to the right only while the row and the column are below
/// the number of rows), enters those that are neither walls nor on the way
/// already, and keeps the first way that reaches `end`. Entering a monster
/// costs one unit of endurance; with none left, the search fails. `None`
/// when the search would look at a cell outside the maze; an empty sequence
/// when it finds no way.
pub open spec fn explore_from(
    way: Seq<(usize, usize)>,
    base: int,
    e: u32,
    maze: Seq<Seq<char>>,
    end: (usize, usize),
) -> Option<Seq<(usize, usize)>>
    decreases maze.len() * max_width(maze) - (way.len() - base) when added_ok(way, base, maze)
{
    let n = maze.len() as int;
    if e == 0 {
        Some(seq![])
    } else if way.last() == end {
        Some(way)
    } else {
        let x = way.last().0;
        let y = way.last().1;
        let up = (sub1(x), y);
        let down = (add1(x), y);
        let left = (x, sub1(y));
        let right = (x, add1(y));
        let r1 = if x > 0 {
            if !inside(maze, up) {
                None
            } else if can_enter(way, maze, up) {
                proof {
                    lemma_added_push(way, base, maze, up);
                }
                explore_from(way.push(up), base, endurance_after(maze[up.0 as int][up.1 as int], e), maze, end)
            } else {
                Some(seq![])
            }
        } else {
            Some(seq![])
        };
        match r1 {
            None => None,
            Some(p1) => if p1.len() != 0 {
                r1
            } else if n == 0 {
                None
            } else {
                let r2 = if x < n - 1 {
                    if !inside(maze, down) {
                        None
                    } else if can_enter(way, maze, down) {
                        proof {
                            lemma_added_push(way, base, maze, down);
                        }
                        explore_from(
                            way.push(down),
                            base,
                            endurance_after(maze[down.0 as int][down.1 as int], e),
                            maze,
                            end,
                        )
                    } else {
                        Some(seq![])
                    }
                } else {
                    Some(seq![])
                };
                match r2 {
                    None => None,
                    Some(p2) => if p2.len() != 0 {
                        r2
                    } else {
                        let r3 = if y > 0 {
                            if !inside(maze, left) {
                                None
                            } else if can_enter(way, maze, left) {
                                proof {
                                    lemma_added_push(way, base, maze, left);
                                }
                                explore_from(
                                    way.push(left),
                                    base,
                                    endurance_after(maze[left.0 as int][left.1 as int], e),
                                    maze,
                                    end,
                                )
                            } else {
                                Some(seq![])
                            }
                        } else {
                            Some(seq![])
                        };
                        match r3 {
                            None => None,
                            Some(p3) => if p3.len() != 0 {
                                r3
                            } else if y < n - 1 {
                                if !inside(maze, right) {
                                    None
                                } else if can_enter(way, maze, right) {
                                    proof {
                                        lemma_added_push(way, base, maze, right);
                                    }
                                    explore_from(
                                        way.push(right),
                                        base,
                                        endurance_after(maze[right.0 as int][right.1 as int], e),
                                        maze,
                                        end,
                                    )
                                } else {
                                    Some(seq![])
                                }
                            } else {
                                Some(seq![])
                            },
                        }
                    },
                }
            },
        }
    }
}

/// The depth-first search from a given way (see `explore_from`).
pub open spec fn explore(way: Seq<(usize, usize)>, e: u32, maze: Seq<Seq<char>>, end: (usize, usize)) -> Option<
    Seq<(usize, usize)>,
> {
    explore_from(way, way.len() as int, e, maze, end)
}

/// `x - 1` as a cell coordinate.
pub open spec fn sub1(x: usize) -> usize {
    (x - 1) as usize
}

/// `x + 1` as a cell coordinate.
pub open spec fn add1(x: usize) -> usize {
    (x + 1) as usize
}

/// The maze as nested sequences.
pub open spec fn char_rows(v: &Vec<Vec<char>>) -> Seq<Seq<char>> {
    Seq::new(v.len() as nat, |i: int| v@[i]@)
}

fn copy_way(v: &Vec<(usize, usize)>) -> (r: Vec<(usize, usize)>)
    ensures
        r@ == v@,
{
    let mut r: Vec<(usize, usize)> = Vec::new();
    let mut i: usize = 0;
    while i < v.len()
        invariant
            i <= v.len(),
            r@ == v@.subrange(0, i as int),
        decreases v.len() - i,
    {
        r.push(v[i]);
        assert(r@ =~= v@.subrange(0, i + 1));
        i = i + 1;
    }
    assert(v@.subrange(0, v.len() as int) =~= v@);
    r
}

impl MonstrousMaze {
    /// Whether `tuple` is an element of `vec`.
    #[allow(non_snake_case)]
    pub fn inVec(vec: &Vec<(usize, usize)>, tuple: &(usize, usize)) -> (found: bool)
        ensures
            found == vec@.contains(*tuple),
    {
        let mut i: usize = 0;
        while i < vec.len()
            invariant
                i <= vec.len(),
                forall|k: int| 0 <= k < i ==> vec@[k] != *tuple,
            decreases vec.len() - i,
        {
            if vec[i].0 == tuple.0 && vec[i].1 == tuple.1 {
                return true;
            }
            i = i + 1;
        }
        false
    }

    /// The depth-first search for `end` from `way` (see `explore`); it
    /// needs a way to extend, and a search that stays inside the maze.
    pub fn bfs_threadable(&self, way: Vec<(usize, usize)>, endurance: u32, maze: &Vec<Vec<char>>, end: &(usize, usize)) -> (found: Vec<(usize, usize)>)
        requires
            way.len() >= 1,
            explore(way@, endurance, char_rows(maze), *end) is Some,
        ensures
            found@ == explore(way@, endurance, char_rows(maze), *end)->0,
    {
        let ghost base = way.len() as int;
        assert(way@.subrange(base, base) =~= Seq::<(usize, usize)>::empty());
        self.search(way, endurance, maze, end, Ghost(base))
    }

    fn search(
        &self,
        way: Vec<(usize, usize)>,
        endurance: u32,
        maze: &Vec<Vec<char>>,
        end: &(usize, usize),
        Ghost(base): Ghost<int>,
    ) -> (found: Vec<(usize, usize)>)
        requires
            way.len() >= 1,
            added_ok(way@, base, char_rows(maze)),
            explore_from(way@, base, endurance, char_rows(maze), *end) is Some,
        ensures
            found@ == explore_from(way@, base, endurance, char_rows(maze), *end)->0,
        decreases maze.len() * max_width(char_rows(maze)) - (way.len() - base),
    {
        let ghost m = char_rows(maze);
        if endurance == 0 {
            return Vec::new();
        }
        let (x, y) = way[way.len() - 1];
        if x == end.0 && y == end.1 {
            assert(way@.last() == *end);
            return way;
        }
        if x > 0 {
            assert(inside(m, (sub1(x), y)));
            assert(m[x - 1] == maze@[x - 1]@);
            if maze[x - 1][y] != '#' && !MonstrousMaze::inVec(&way, &(x - 1, y)) {
                proof {
                    lemma_added_push(way@, base, m, (sub1(x), y));
                }
                let mut sent_way = copy_way(&way);
                sent_way.push((x - 1, y));
                let new_way = if maze[x - 1][y] != 'M' {
                    self.search(sent_way, endurance, maze, end, Ghost(base))
                } else {
                    self.search(sent_way, endurance - 1, maze, end, Ghost(base))
                };
                if new_way.len() != 0 {
                    return new_way;
                }
            }
        }
        if x < maze.len() - 1 {
            assert(inside(m, (add1(x), y)));
            assert(m[x + 1] == maze@[x + 1]@);
            if maze[x + 1][y] != '#' && !MonstrousMaze::inVec(&way, &(x + 1, y)) {
                proof {
                    lemma_added_push(way@, base, m, (add1(x), y));
                }
                let mut sent_way = copy_way(&way);
                sent_way.push((x + 1, y));
                let new_way = if maze[x + 1][y] != 'M' {
                    self.search(sent_way, endurance, maze, end, Ghost(base))
                } else {
                    self.search(sent_way, endurance - 1, maze, end, Ghost(base))
                };
                if new_way.len() != 0 {
                    return new_way;
                }
            }
        }
        if y > 0 {
            assert(inside(m, (x, sub1(y))));
            assert(m[x as int] == maze@[x as int]@);
            if maze[x][y - 1] != '#' && !MonstrousMaze::inVec(&way, &(x, y - 1)) {
                proof {
                    lemma_added_push(way@, base, m, (x, sub1(y)));
                }
                let mut sent_way = copy_way(&way);
                sent_way.push((x, y - 1));
                let new_way = if maze[x][y - 1] != 'M' {
                    self.search(sent_way, endurance, maze, end, Ghost(base))
                } else {
                    self.search(sent_way, endurance - 1, maze, end, Ghost(base))
                };
                if new_way.len() != 0 {
                    return new_way;
                }
            }
        }
        if y < maze.len() - 1 {
            assert(inside(m, (x, add1(y))));
            assert(m[x as int] == maze@[x as int]@);
            if maze[x][y + 1] != '#' && !MonstrousMaze::inVec(&way, &(x, y + 1)) {
                proof {
                    lemma_added_push(way@, base, m, (x, add1(y)));
                }
                let mut sent_way = copy_way(&way);
                sent_way.push((x, y + 1));
                let new_way = if maze[x][y + 1] != 'M' {
                    self.search(sent_way, endurance, maze, end, Ghost(base))
                } else {
                    self.search(sent_way, endurance - 1, maze, end, Ghost(base))
                };
                if new_way.len() != 0 {
                    return new_way;
                }
            }
        }
        Vec::new()
    }
}


// ---------------------------------------------------------------------------
// Reading the maze from its text, and writing the moves.
// ---------------------------------------------------------------------------

/// The number of line feeds in `s`.
pub open spec fn newline_count(s: Seq<char>) -> nat
    decreases s.len(),
{
    if s.len() == 0 {
        0
    } else {
        newline_count(s.drop_last()) + if s.last() == '\n' {
            1nat
        } else {
            0nat
        }
    }
}

/// The number of lines of `s` (a last line may end without a line feed).
pub open spec fn line_count(s: Seq<char>) -> nat {
    if s.len() == 0 {
        0
    } else if s.last() == '\n' {
        newline_count(s)
    } else {
        newline_count(s) + 1
    }
}

/// The position of the first line feed of `s`, or `s.len()`.
pub open spec fn first_newline(s: Seq<char>) -> int
    decreases s.len(),
{
    if s.len() == 0 {
        0
    } else if s[0] == '\n' {
        0
    } else {
        1 + first_newline(s.drop_first())
    }
}

/// The first line of `s`, without its line ending ("\n" or "\r\n").
pub open spec fn first_line(s: Seq<char>) -> Seq<char> {
    let p = first_newline(s);
    if p < s.len() && p > 0 && s[p - 1] == '\r' {
        s.subrange(0, p - 1)
    } else {
        s.subrange(0, p)
    }
}

/// The width of the maze: the length in bytes (UTF-8) of its first line.
pub open spec fn grid_width(s: Seq<char>) -> nat {
    encode_utf8(first_line(s)).len()
}

/// Where the `k`-th cell of the maze is read in its text: the characters
/// are read one after the other, a line feed met where a cell is expected
/// being skipped.
pub open spec fn cell_pos(s: Seq<char>, k: int) -> int
    decreases k,
{
    let p = if k <= 0 {
        0
    } else {
        cell_pos(s, k - 1) + 1
    };
    if 0 <= p < s.len() && s[p] == '\n' {
        p + 1
    } else {
        p
    }
}

/// The maze read from its text: `rows` rows of `cols` cells.
pub open spec fn grid_cells(s: Seq<char>, rows: nat, cols: nat) -> Seq<Seq<char>> {
    Seq::new(rows, |i: int| Seq::new(cols, |j: int| s[cell_pos(s, i * cols + j)]))
}

/// The maze of a text: as many rows as lines, as many cells per row as
/// the first line has bytes.
pub open spec fn maze_of_text(s: Seq<char>) -> Seq<Seq<char>> {
    grid_cells(s, line_count(s), grid_width(s))
}

/// The last cell holding `c` (in reading order) among the rows before `i`
/// and the first `j` cells of row `i`, or (0, 0).
pub open spec fn scan_last(maze: Seq<Seq<char>>, c: char, i: int, j: int) -> (usize, usize)
    decreases i, j,
{
    if i <= 0 && j <= 0 {
        (0, 0)
    } else if j <= 0 {
        scan_last(maze, c, i - 1, maze[i - 1].len() as int)
    } else if maze[i][j - 1] == c {
        (i as usize, (j - 1) as usize)
    } else {
        scan_last(maze, c, i, j - 1)
    }
}

/// The last cell of the maze holding `c`, or (0, 0).
pub open spec fn last_cell(maze: Seq<Seq<char>>, c: char) -> (usize, usize) {
    scan_last(maze, c, maze.len() as int, 0)
}

/// The move from one cell to the next: 'v' down, '^' up, '>' right, '<' left.
pub open spec fn move_char(from: (usize, usize), to: (usize, usize)) -> Seq<char> {
    if from.0 < to.0 {
        seq!['v']
    } else if from.0 > to.0 {
        seq!['^']
    } else if from.1 < to.1 {
        seq!['>']
    } else if from.1 > to.1 {
        seq!['<']
    } else {
        seq![]
    }
}

/// The moves along a way.
pub open spec fn moves(way: Seq<(usize, usize)>) -> Seq<char>
    decreases way.len(),
{
    if way.len() <= 1 {
        seq![]
    } else {
        moves(way.drop_last()) + move_char(way[way.len() - 2], way.last())
    }
}

/// The way the solver finds through the maze of a text, from the last 'Y'
/// to the last 'X' (`None` when the search would look outside the maze).
pub open spec fn maze_way(s: Seq<char>, endurance: u32) -> Option<Seq<(usize, usize)>> {
    let maze = maze_of_text(s);
    explore(seq![last_cell(maze, 'Y')], endurance, maze, last_cell(maze, 'X'))
}

/// A maze text the solver can read: it has a line, its first line has a
/// cell, every cell can be read, and its size fits the machine.
pub open spec fn maze_text_ok(s: Seq<char>) -> bool {
    let rows = line_count(s);
    let cols = grid_width(s);
    &&& s.len() > 0
    &&& cols >= 1
    &&& rows * cols <= usize::MAX
    &&& cell_pos(s, rows * cols - 1) < s.len()
}

proof fn lemma_cell_pos_monotone(s: Seq<char>, a: int, b: int)
    requires
        0 <= a <= b,
    ensures
        cell_pos(s, a) <= cell_pos(s, b),
        a < b ==> cell_pos(s, a) < cell_pos(s, b),
    decreases b - a,
{
    if a < b {
        lemma_cell_pos_monotone(s, a, b - 1);
    }
}

proof fn lemma_line_count_step(s: Seq<char>, i: int, nl: nat)
    requires
        0 <= i < s.len(),
        nl == newline_count(s.subrange(0, i)),
    ensures
        newline_count(s.subrange(0, i + 1)) == nl + if s[i] == '\n' {
            1nat
        } else {
            0nat
        },
{
    assert(s.subrange(0, i + 1).drop_last() =~= s.subrange(0, i));
}

proof fn lemma_first_newline(s: Seq<char>, p: int)
    requires
        0 <= p <= s.len(),
        forall|m: int| 0 <= m < p ==> s[m] != '\n',
        p < s.len() ==> s[p] == '\n',
    ensures
        first_newline(s) == p,
    decreases s.len(),
{
    if s.len() > 0 && p > 0 {
        assert forall|m: int| 0 <= m < p - 1 implies s.drop_first()[m] != '\n' by {
            assert(s[m + 1] != '\n');
        }
        lemma_first_newline(s.drop_first(), p - 1);
    }
}

/// The number of lines of `chars` and the end of its first line.
fn measure_lines(chars: &Vec<char>) -> (r: (usize, usize))
    ensures
        r.0 == line_count(chars@),
        r.1 <= chars.len(),
        chars@.subrange(0, r.1 as int) == first_line(chars@),
{
    let mut nl: usize = 0;
    let mut first: usize = chars.len();
    let mut i: usize = 0;
    while i < chars.len()
        invariant
            i <= chars.len(),
            nl == newline_count(chars@.subrange(0, i as int)),
            nl + (if i > 0 && chars@[i - 1] != '\n' {
                1int
            } else {
                0int
            }) <= i,
            first <= chars.len(),
            first < i ==> chars@[first as int] == '\n',
            forall|m: int| 0 <= m < i && m < first ==> chars@[m] != '\n',
            first >= i ==> first == chars.len(),
        decreases chars.len() - i,
    {
        proof {
            lemma_line_count_step(chars@, i as int, nl as nat);
        }
        if chars[i] == '\n' {
            if first == chars.len() {
                first = i;
            }
            nl = nl + 1;
        }
        i = i + 1;
    }
    assert(chars@.subrange(0, chars.len() as int) =~= chars@);
    proof {
        lemma_first_newline(chars@, first as int);
    }
    let rows = if chars.len() == 0 {
        0
    } else if chars[chars.len() - 1] == '\n' {
        nl
    } else {
        nl + 1
    };
    let end = if first < chars.len() && first > 0 && chars[first - 1] == '\r' {
        first - 1
    } else {
        first
    };
    (rows, end)
}

fn push_move(path: &mut String, from: (usize, usize), to: (usize, usize))
    ensures
        final(path)@ == old(path)@ + move_char(from, to),
{
    proof {
        reveal_strlit("v");
        reveal_strlit("^");
        reveal_strlit(">");
        reveal_strlit("<");
    }
    if from.0 < to.0 {
        path.append("v");
    } else if from.0 > to.0 {
        path.append("^");
    } else if from.1 < to.1 {
        path.append(">");
    } else if from.1 > to.1 {
        path.append("<");
    }
}

impl MonstrousMaze {
    /// The name of the challenge.
    pub fn name() -> (name: String)
        ensures
            name@ == "MonstrousMaze"@,
    {
        String::from_str("MonstrousMaze")
    }

    /// A solver for the given challenge input.
    pub fn new(input: MonstrousMazeInput) -> (solver: Self)
        ensures
            solver.input == input,
            solver.start == (0usize, 0usize),
            solver.end == (0usize, 0usize),
    {
        MonstrousMaze { input, start: (0, 0), end: (0, 0) }
    }

    /// Reads the maze from its text: `rows` rows of `cols` cells (see
    /// `cell_pos`), with the last 'Y' and the last 'X' (or (0, 0)).
    fn read_maze(chars: &Vec<char>, rows: usize, cols: usize) -> (r: (Vec<Vec<char>>, (usize, usize), (usize, usize)))
        requires
            rows >= 1,
            cols >= 1,
            rows * cols <= usize::MAX,
            cell_pos(chars@, rows * cols - 1) < chars.len(),
        ensures
            char_rows(&r.0) == grid_cells(chars@, rows as nat, cols as nat),
            r.1 == last_cell(grid_cells(chars@, rows as nat, cols as nat), 'Y'),
            r.2 == last_cell(grid_cells(chars@, rows as nat, cols as nat), 'X'),
    {
        let ghost g = grid_cells(chars@, rows as nat, cols as nat);
        let ghost total = rows * cols;
        let mut maze: Vec<Vec<char>> = Vec::new();
        let mut start: (usize, usize) = (0, 0);
        let mut end: (usize, usize) = (0, 0);
        let mut count: usize = 0;
        let mut i: usize = 0;
        while i < rows
            invariant
                g == grid_cells(chars@, rows as nat, cols as nat),
                total == rows * cols,
                rows * cols <= usize::MAX,
                cols >= 1,
                cell_pos(chars@, total - 1) < chars.len(),
                i <= rows,
                maze.len() == i,
                forall|t: int| 0 <= t < i ==> #[trigger] maze@[t]@ == g[t],
                count == (if i == 0 {
                    0
                } else {
                    cell_pos(chars@, i * cols - 1) + 1
                }),
                start == scan_last(g, 'Y', i as int, 0),
                end == scan_last(g, 'X', i as int, 0),
            decreases rows - i,
        {
            let mut row: Vec<char> = Vec::new();
            assert((i * cols == 0) == (i == 0)) by (nonlinear_arith)
                requires
                    cols >= 1,
            ;
            let mut j: usize = 0;
            while j < cols
                invariant
                    g == grid_cells(chars@, rows as nat, cols as nat),
                    total == rows * cols,
                    rows * cols <= usize::MAX,
                    cell_pos(chars@, total - 1) < chars.len(),
                    i < rows,
                    j <= cols,
                    row@ == g[i as int].subrange(0, j as int),
                    count == (if i * cols + j == 0 {
                        0
                    } else {
                        cell_pos(chars@, i * cols + j - 1) + 1
                    }),
                    start == scan_last(g, 'Y', i as int, j as int),
                    end == scan_last(g, 'X', i as int, j as int),
                decreases cols - j,
            {
                let ghost k = i * cols + j;
                assert(k < total) by (nonlinear_arith)
                    requires
                        k == i * cols + j,
                        i < rows,
                        j < cols,
                        total == rows * cols,
                ;
                proof {
                    lemma_cell_pos_monotone(chars@, k, total - 1);
                    if k > 0 {
                        lemma_cell_pos_monotone(chars@, k - 1, k);
                    }
                }
                if chars[count] == '\n' {
                    count = count + 1;
                }
                let cell = chars[count];
                assert(cell == g[i as int][j as int]);
                row.push(cell);
                assert(row@ =~= g[i as int].subrange(0, j + 1));
                count = count + 1;
                if cell == 'Y' {
                    start = (i, j);
                }
                if cell == 'X' {
                    end = (i, j);
                }
                j = j + 1;
            }
            assert(row@ =~= g[i as int]);
            assert((i + 1) * cols == i * cols + cols) by (nonlinear_arith);
            maze.push(row);
            i = i + 1;
        }
        assert(char_rows(&maze) =~= g);
        (maze, start, end)
    }

    /// Solves the maze: reads it from the text, searches a way from the
    /// start to the exit (see `explore`), and gives its moves.
    pub fn solve(&self) -> (out: MonstrousMazeOutput)
        requires
            maze_text_ok(self.input.grid@),
            maze_way(self.input.grid@, self.input.endurance) matches Some(r) && r.len() > 0,
        ensures
            out.path@ == moves(maze_way(self.input.grid@, self.input.endurance)->0),
    {
        let laby = &self.input.grid;
        let chars = chars_of(laby.as_str());
        let (rows, first_end) = measure_lines(&chars);
        let first = laby.as_str().substring_char(0, first_end);
        assert(first@ == first_line(laby@));
        assert(line_count(laby@) * grid_width(laby@) <= usize::MAX);
        assert(grid_width(laby@) <= usize::MAX) by (nonlinear_arith)
            requires
                line_count(laby@) >= 1,
                line_count(laby@) * grid_width(laby@) <= usize::MAX,
        ;
        let cols = first.len();
        assert(cols == grid_width(chars@));
        let ghost rc = rows * cols;
        assert(rows * cols >= 1) by (nonlinear_arith)
            requires
                rows >= 1,
                cols >= 1,
        ;
        let (array_lab, start, end) = Self::read_maze(&chars, rows, cols);
        let ghost maze = char_rows(&array_lab);
        assert(maze =~= maze_of_text(laby@));
        assert(width(maze) == cols) by {
            assert(maze[0].len() == cols);
        }
        assert forall|i: int| 0 <= i < maze.len() implies #[trigger] maze[i].len() == width(maze) by {}
        proof {
            lemma_scan_last_in(maze, 'Y', rows as int, 0);
        }
        let way = vec![start];
        assert(way@ =~= seq![start]);
        assert forall|i: int| 0 <= i < way@.len() implies #[trigger] in_square(way@[i], rows as int, cols as int) by {}
        let result: Vec<(usize, usize)> = self.bfs_threadable(way, self.input.endurance, &array_lab, &end);
        let mut parent = result[0];
        let mut path = String::new();
        let mut i: usize = 1;
        while i < result.len()
            invariant
                1 <= i <= result.len(),
                parent == result@[i - 1],
                path@ == moves(result@.subrange(0, i as int)),
            decreases result.len() - i,
        {
            push_move(&mut path, parent, result[i]);
            assert(result@.subrange(0, i + 1).drop_last() =~= result@.subrange(0, i as int));
            parent = result[i];
            i = i + 1;
        }
        assert(result@.subrange(0, result.len() as int) =~= result@);
        MonstrousMazeOutput { path }
    }
}

proof fn lemma_scan_last_in(maze: Seq<Seq<char>>, c: char, i: int, j: int)
    requires
        0 <= i <= maze.len(),
        maze.len() >= 1,
        i < maze.len() ==> 0 <= j <= maze[i].len(),
        i == maze.len() ==> j == 0,
        forall|t: int| 0 <= t < maze.len() ==> #[trigger] maze[t].len() >= 1,
        forall|t: int| 0 <= t < maze.len() ==> #[trigger] maze[t].len() == maze[0].len(),
    ensures
        scan_last(maze, c, i, j).0 < maze.len(),
        scan_last(maze, c, i, j).1 < maze[0].len(),
    decreases i, j,
{
    if i <= 0 && j <= 0 {
    } else if j <= 0 {
        lemma_scan_last_in(maze, c, i - 1, maze[i - 1].len() as int);
    } else if maze[i][j - 1] == c {
    } else {
        lemma_scan_last_in(maze, c, i, j - 1);
    }
}


// ---------------------------------------------------------------------------
// What the search finds: a walk to the exit that the endurance allows.
// ---------------------------------------------------------------------------

/// The cells are next to each other (one step up, down, left or right).
pub open spec fn adjacent(a: (usize, usize), b: (usize, usize)) -> bool {
    ||| a.0 == b.0 && (a.1 + 1 == b.1 || b.1 + 1 == a.1)
    ||| a.1 == b.1 && (a.0 + 1 == b.0 || b.0 + 1 == a.0)
}

/// The number of monsters on the cells `from..` of `r`.
pub open spec fn monsters(maze: Seq<Seq<char>>, r: Seq<(usize, usize)>, from: int) -> nat
    decreases r.len() - from,
{
    if from >= r.len() || from < 0 {
        0
    } else {
        monsters(maze, r, from + 1) + if maze[r[from].0 as int][r[from].1 as int] == 'M' {
            1nat
        } else {
            0nat
        }
    }
}

/// `r` extends `way` into a walk to `end`: each added cell is next to the
/// one before, lies in the maze, is not a wall and was not on the walk
/// before; fewer monsters are met on the added cells than the endurance `e`.
pub open spec fn walk_to_exit(
    r: Seq<(usize, usize)>,
    way: Seq<(usize, usize)>,
    e: u32,
    maze: Seq<Seq<char>>,
    end: (usize, usize),
) -> bool {
    &&& r.len() >= way.len()
    &&& r.subrange(0, way.len() as int) == way
    &&& r.last() == end
    &&& forall|k: int|
        way.len() <= k < r.len() ==> adjacent(r[k - 1], #[trigger] r[k]) && inside(maze, r[k]) && maze[r[k].0 as int][r[k].1 as int]
            != '#' && !r.subrange(0, k).contains(r[k])
    &&& monsters(maze, r, way.len() as int) < e
}

proof fn lemma_monsters_split(maze: Seq<Seq<char>>, r: Seq<(usize, usize)>, from: int)
    requires
        0 <= from < r.len(),
    ensures
        monsters(maze, r, from) == monsters(maze, r, from + 1) + if maze[r[from].0 as int][r[from].1 as int]
            == 'M' {
            1nat
        } else {
            0nat
        },
{
}

proof fn lemma_explore_step(
    way: Seq<(usize, usize)>,
    base: int,
    e: u32,
    maze: Seq<Seq<char>>,
    end: (usize, usize),
    c: (usize, usize),
)
    requires
        way.len() >= 1,
        e > 0,
        adjacent(way.last(), c),
        inside(maze, c),
        can_enter(way, maze, c),
        ({
            let r = explore_from(way.push(c), base, endurance_after(maze[c.0 as int][c.1 as int], e), maze, end);
            r matches Some(p) ==> p.len() != 0 ==> walk_to_exit(
                p,
                way.push(c),
                endurance_after(maze[c.0 as int][c.1 as int], e),
                maze,
                end,
            )
        }),
    ensures
        ({
            let r = explore_from(way.push(c), base, endurance_after(maze[c.0 as int][c.1 as int], e), maze, end);
            r matches Some(p) ==> p.len() != 0 ==> walk_to_exit(p, way, e, maze, end)
        }),
{
    let e2 = endurance_after(maze[c.0 as int][c.1 as int], e);
    let r = explore_from(way.push(c), base, e2, maze, end);
    let wp = way.push(c);
    if r matches Some(p) && p.len() != 0 {
        let p = r->0;
        assert(p.subrange(0, wp.len() as int) == wp);
        assert(p.subrange(0, way.len() as int) =~= wp.subrange(0, way.len() as int));
        assert(wp.subrange(0, way.len() as int) =~= way);
        assert(p[way.len() as int] == wp[way.len() as int]);
        assert(p[way.len() - 1] == wp[way.len() - 1]);
        lemma_monsters_split(maze, p, way.len() as int);
        assert forall|k: int| way.len() <= k < p.len() implies adjacent(p[k - 1], #[trigger] p[k]) && inside(maze, p[k])
            && maze[p[k].0 as int][p[k].1 as int] != '#' && !p.subrange(0, k).contains(p[k]) by {
            if k == way.len() {
                assert(p.subrange(0, k) =~= way);
            }
        }
    }
}

proof fn lemma_explore_from_walk(
    way: Seq<(usize, usize)>,
    base: int,
    e: u32,
    maze: Seq<Seq<char>>,
    end: (usize, usize),
)
    requires
        way.len() >= 1,
        maze.len() <= usize::MAX,
        added_ok(way, base, maze),
    ensures
        explore_from(way, base, e, maze, end) matches Some(p) ==> p.len() != 0 ==> walk_to_exit(p, way, e, maze, end),
    decreases maze.len() * max_width(maze) - (way.len() - base),
{
    let n = maze.len() as int;
    if e == 0 {
    } else if way.last() == end {
        assert(way.subrange(0, way.len() as int) =~= way);
    } else {
        let x = way.last().0;
        let y = way.last().1;
        let up = (sub1(x), y);
        let down = (add1(x), y);
        let left = (x, sub1(y));
        let right = (x, add1(y));
        if x > 0 && inside(maze, up) && can_enter(way, maze, up) {
            lemma_added_push(way, base, maze, up);
            lemma_explore_from_walk(way.push(up), base, endurance_after(maze[up.0 as int][up.1 as int], e), maze, end);
            lemma_explore_step(way, base, e, maze, end, up);
        }
        if x < n - 1 && inside(maze, down) && can_enter(way, maze, down) {
            lemma_added_push(way, base, maze, down);
            lemma_explore_from_walk(way.push(down), base, endurance_after(maze[down.0 as int][down.1 as int], e), maze, end);
            lemma_explore_step(way, base, e, maze, end, down);
        }
        if y > 0 && inside(maze, left) && can_enter(way, maze, left) {
            lemma_added_push(way, base, maze, left);
            lemma_explore_from_walk(way.push(left), base, endurance_after(maze[left.0 as int][left.1 as int], e), maze, end);
            lemma_explore_step(way, base, e, maze, end, left);
        }
        if y < n - 1 && inside(maze, right) && can_enter(way, maze, right) {
            lemma_added_push(way, base, maze, right);
            lemma_explore_from_walk(way.push(right), base, endurance_after(maze[right.0 as int][right.1 as int], e), maze, end);
            lemma_explore_step(way, base, e, maze, end, right);
        }
    }
}

/// The search either finds nothing or a walk to the exit: from the given
/// way, one step at a time through cells of the maze that are not walls,
/// never back onto a cell of the walk, meeting fewer monsters than the
/// endurance.
pub proof fn lemma_explore_walk(way: Seq<(usize, usize)>, e: u32, maze: Seq<Seq<char>>, end: (usize, usize))
    requires
        way.len() >= 1,
        maze.len() <= usize::MAX,
    ensures
        explore(way, e, maze, end) matches Some(p) ==> p.len() != 0 ==> walk_to_exit(p, way, e, maze, end),
{
    assert(way.subrange(way.len() as int, way.len() as int) =~= Seq::<(usize, usize)>::empty());
    lemma_explore_from_walk(way, way.len() as int, e, maze, end);
}

proof fn lemma_explore_from_complete(
    way: Seq<(usize, usize)>,
    base: int,
    e: u32,
    maze: Seq<Seq<char>>,
    end: (usize, usize),
    r: Seq<(usize, usize)>,
)
    requires
        way.len() >= 1,
        maze.len() <= usize::MAX,
        added_ok(way, base, maze),
        walk_to_exit(r, way, e, maze, end),
        forall|k: int| way.len() <= k < r.len() ==> #[trigger] r[k].1 < maze.len(),
    ensures
        explore_from(way, base, e, maze, end) matches Some(p) ==> p.len() != 0,
    decreases maze.len() * max_width(maze) - (way.len() - base),
{
    let n = maze.len() as int;
    let k = way.len() as int;
    if e == 0 {
    } else if way.last() == end {
    } else {
        if r.len() == way.len() {
            assert(r =~= r.subrange(0, k));
            assert(false);
        }
        let c = r[k];
        assert(r[k - 1] == r.subrange(0, k)[k - 1]);
        assert(r[k - 1] == way.last());
        assert(adjacent(way.last(), c) && inside(maze, c));
        assert(!way.contains(c)) by {
            assert(r.subrange(0, k) == way);
        }
        let e2 = endurance_after(maze[c.0 as int][c.1 as int], e);
        lemma_monsters_split(maze, r, k);
        let wp = way.push(c);
        assert(r.subrange(0, k + 1) =~= wp) by {
            assert forall|i: int| 0 <= i < k implies r.subrange(0, k + 1)[i] == wp[i] by {
                assert(r.subrange(0, k)[i] == r[i]);
            }
        }
        assert(walk_to_exit(r, wp, e2, maze, end));
        lemma_added_push(way, base, maze, c);
        lemma_explore_from_complete(wp, base, e2, maze, end, r);
        let x = way.last().0;
        let y = way.last().1;
        assert(c.1 < n);
        if c == (sub1(x), y) {
        } else if c == (add1(x), y) {
            assert(x < n - 1);
        } else if c == (x, sub1(y)) {
        } else {
            assert(c == (x, add1(y)));
            assert(y < n - 1);
        }
    }
}

/// Whenever some walk to the exit within the endurance extends the way,
/// through cells whose column is below the number of rows (the cells the
/// search looks at), the search finds a way, unless it would look at a cell
/// outside the maze first.
pub proof fn lemma_explore_complete(
    way: Seq<(usize, usize)>,
    e: u32,
    maze: Seq<Seq<char>>,
    end: (usize, usize),
    r: Seq<(usize, usize)>,
)
    requires
        way.len() >= 1,
        maze.len() <= usize::MAX,
        walk_to_exit(r, way, e, maze, end),
        forall|k: int| way.len() <= k < r.len() ==> #[trigger] r[k].1 < maze.len(),
    ensures
        explore(way, e, maze, end) matches Some(p) ==> p.len() != 0,
{
    assert(way.subrange(way.len() as int, way.len() as int) =~= Seq::<(usize, usize)>::empty());
    lemma_explore_from_complete(way, way.len() as int, e, maze, end, r);
}

proof fn lemma_explore_from_inside(
    way: Seq<(usize, usize)>,
    base: int,
    e: u32,
    maze: Seq<Seq<char>>,
    end: (usize, usize),
)
    requires
        way.len() >= 1,
        maze.len() <= usize::MAX,
        added_ok(way, base, maze),
        forall|i: int| 0 <= i < maze.len() ==> #[trigger] maze[i].len() >= maze.len(),
        e > 0 && way.last() != end ==> way.last().0 < maze.len() && way.last().1 < maze.len(),
    ensures
        explore_from(way, base, e, maze, end) is Some,
    decreases maze.len() * max_width(maze) - (way.len() - base),
{
    let n = maze.len() as int;
    if e == 0 {
    } else if way.last() == end {
    } else {
        let x = way.last().0;
        let y = way.last().1;
        let up = (sub1(x), y);
        let down = (add1(x), y);
        let left = (x, sub1(y));
        let right = (x, add1(y));
        assert(maze[x as int].len() >= n);
        if x > 0 {
            assert(maze[x - 1].len() >= n);
            assert(inside(maze, up));
            if can_enter(way, maze, up) {
                lemma_added_push(way, base, maze, up);
                lemma_explore_from_inside(way.push(up), base, endurance_after(maze[up.0 as int][up.1 as int], e), maze, end);
            }
        }
        if x < n - 1 {
            assert(maze[x + 1].len() >= n);
            assert(inside(maze, down));
            if can_enter(way, maze, down) {
                lemma_added_push(way, base, maze, down);
                lemma_explore_from_inside(way.push(down), base, endurance_after(maze[down.0 as int][down.1 as int], e), maze, end);
            }
        }
        if y > 0 {
            assert(inside(maze, left));
            if can_enter(way, maze, left) {
                lemma_added_push(way, base, maze, left);
                lemma_explore_from_inside(way.push(left), base, endurance_after(maze[left.0 as int][left.1 as int], e), maze, end);
            }
        }
        if y < n - 1 {
            assert(inside(maze, right));
            if can_enter(way, maze, right) {
                lemma_added_push(way, base, maze, right);
                lemma_explore_from_inside(way.push(right), base, endurance_after(maze[right.0 as int][right.1 as int], e), maze, end);
            }
        }
    }
}

/// On a maze whose rows all have at least as many cells as there are rows,
/// the search from a way ending in that square never looks outside the
/// maze; with no endurance, or with the way already at the end, it looks at
/// no cell at all.
pub proof fn lemma_explore_inside(way: Seq<(usize, usize)>, e: u32, maze: Seq<Seq<char>>, end: (usize, usize))
    requires
        way.len() >= 1,
        maze.len() <= usize::MAX,
        forall|i: int| 0 <= i < maze.len() ==> #[trigger] maze[i].len() >= maze.len(),
        e > 0 && way.last() != end ==> way.last().0 < maze.len() && way.last().1 < maze.len(),
    ensures
        explore(way, e, maze, end) is Some,
        e == 0 ==> explore(way, e, maze, end) == Some(Seq::<(usize, usize)>::empty()),
        e > 0 && way.last() == end ==> explore(way, e, maze, end) == Some(way),
{
    assert(way.subrange(way.len() as int, way.len() as int) =~= Seq::<(usize, usize)>::empty());
    lemma_explore_from_inside(way, way.len() as int, e, maze, end);
}

/// Along a walk of adjacent cells, the path has exactly one move per step.
pub proof fn lemma_moves_len(r: Seq<(usize, usize)>)
    requires
        r.len() >= 1,
        forall|k: int| 1 <= k < r.len() ==> adjacent(r[k - 1], #[trigger] r[k]),
    ensures
        moves(r).len() == r.len() - 1,
    decreases r.len(),
{
    if r.len() > 1 {
        assert forall|k: int| 1 <= k < r.drop_last().len() implies adjacent(
            r.drop_last()[k - 1],
            #[trigger] r.drop_last()[k],
        ) by {
            assert(adjacent(r[k - 1], r[k]));
        }
        lemma_moves_len(r.drop_last());
        assert(adjacent(r[r.len() - 2], r[r.len() - 1]));
    }
}


/// The way the solver finds through a maze text leads from the last 'Y' to
/// the last 'X' one step at a time, through no wall, and meets fewer
/// monsters than the endurance; the path has one move per step, and its
/// moves, followed from the 'Y', end on the 'X'.
pub proof fn lemma_solution_walk(s: Seq<char>, endurance: u32)
    requires
        maze_text_ok(s),
        maze_way(s, endurance) matches Some(r) && r.len() > 0,
    ensures
        ({
            let maze = maze_of_text(s);
            let r = maze_way(s, endurance)->0;
            &&& walk_to_exit(r, seq![last_cell(maze, 'Y')], endurance, maze, last_cell(maze, 'X'))
            &&& r[0] == last_cell(maze, 'Y')
            &&& r.no_duplicates()
            &&& moves(r).len() == r.len() - 1
            &&& follow(pos(last_cell(maze, 'Y')), moves(r)) == pos(last_cell(maze, 'X'))
        }),
{
    let maze = maze_of_text(s);
    let start = last_cell(maze, 'Y');
    let way = seq![start];
    let rows = line_count(s);
    let cols = grid_width(s);
    assert(rows <= usize::MAX) by (nonlinear_arith)
        requires
            cols >= 1,
            rows * cols <= usize::MAX,
    ;
    lemma_explore_walk(way, endurance, maze, last_cell(maze, 'X'));
    let r = maze_way(s, endurance)->0;
    assert(r.subrange(0, 1) == way);
    assert(r[0] == r.subrange(0, 1)[0]);
    assert forall|i: int, j: int| 0 <= i < r.len() && 0 <= j < r.len() && i != j implies r[i] != r[j] by {
        if i < j {
            assert(r.subrange(0, j)[i] == r[i]);
            assert(!r.subrange(0, j).contains(r[j]));
        } else {
            assert(r.subrange(0, i)[j] == r[j]);
            assert(!r.subrange(0, i).contains(r[i]));
        }
    }
    lemma_moves_len(r);
    lemma_moves_follow(r);
}

proof fn lemma_moves_follow(r: Seq<(usize, usize)>)
    requires
        r.len() >= 1,
        forall|k: int| 1 <= k < r.len() ==> adjacent(r[k - 1], #[trigger] r[k]),
    ensures
        follow(pos(r[0]), moves(r)) == pos(r.last()),
    decreases r.len(),
{
    if r.len() > 1 {
        let r2 = r.drop_last();
        assert forall|k: int| 1 <= k < r2.len() implies adjacent(r2[k - 1], #[trigger] r2[k]) by {
            assert(adjacent(r[k - 1], r[k]));
        }
        lemma_moves_follow(r2);
        let a = r[r.len() - 2];
        let b = r.last();
        assert(adjacent(a, b));
        lemma_step_adjacent(a, b);
        lemma_follow_push(pos(r[0]), moves(r2), move_char(a, b));
    }
}


// ---------------------------------------------------------------------------
// The breadth-first search.
// ---------------------------------------------------------------------------

/// The state of the breadth-first search: the maze (a discovered cell is
/// walled up with '#'), the queue of cells to visit with their endurance,
/// the parent of every discovered cell, and its depth below the start.
pub struct BfsState {
    pub maze: Seq<Seq<char>>,
    pub queue: Seq<((usize, usize), u32)>,
    pub parents: Map<(usize, usize), (usize, usize)>,
    pub depth: Map<(usize, usize), nat>,
}

/// The cell can be discovered: neither a wall nor a monster.
pub open spec fn open_cell(maze: Seq<Seq<char>>, c: (usize, usize)) -> bool {
    maze[c.0 as int][c.1 as int] != '#' && maze[c.0 as int][c.1 as int] != 'M'
}

/// The maze with cell `c` walled up.
pub open spec fn mark(maze: Seq<Seq<char>>, c: (usize, usize)) -> Seq<Seq<char>> {
    maze.update(c.0 as int, maze[c.0 as int].update(c.1 as int, '#'))
}

/// Cell `c` discovered from `from`: walled up, queued with endurance `e`,
/// its parent and depth recorded.
pub open spec fn discover(st: BfsState, from: (usize, usize), c: (usize, usize), e: u32) -> BfsState {
    BfsState {
        maze: mark(st.maze, c),
        queue: st.queue.push((c, e)),
        parents: st.parents.insert(c, from),
        depth: st.depth.insert(c, st.depth[from] + 1),
    }
}

/// The visit of `cur` (already taken from the queue): its neighbours above,
/// below, to the left and to the right are discovered in that order when
/// open; a monster on `cur` itself would cost one unit of endurance.
pub open spec fn bfs_expand(st: BfsState, cur: (usize, usize), e: u32) -> BfsState {
    let n = st.maze.len() as int;
    let x = cur.0;
    let y = cur.1;
    let s1 = if x > 0 && open_cell(st.maze, (sub1(x), y)) {
        discover(st, cur, (sub1(x), y), e)
    } else {
        st
    };
    let s2 = if x < n - 1 && open_cell(s1.maze, (add1(x), y)) {
        discover(s1, cur, (add1(x), y), e)
    } else {
        s1
    };
    let s3 = if y > 0 && open_cell(s2.maze, (x, sub1(y))) {
        discover(s2, cur, (x, sub1(y)), e)
    } else {
        s2
    };
    let s4 = if y < n - 1 && open_cell(s3.maze, (x, add1(y))) {
        discover(s3, cur, (x, add1(y)), e)
    } else {
        s3
    };
    if s4.maze[x as int][y as int] == 'M' && (e - 1) as u32 > 0 {
        BfsState {
            maze: mark(s4.maze, cur),
            queue: s4.queue.push((cur, (e - 1) as u32)),
            parents: s4.parents.insert(cur, cur),
            depth: s4.depth.insert(cur, s4.depth[cur] + 1),
        }
    } else {
        s4
    }
}

/// The moves from `start` to `cur` along the parents, `k` steps at most.
pub open spec fn path_back(parents: Map<(usize, usize), (usize, usize)>, cur: (usize, usize), start: (usize, usize), k: nat) -> Seq<char>
    decreases k,
{
    if k == 0 || cur == start {
        seq![]
    } else {
        path_back(parents, parents[cur], start, (k - 1) as nat) + move_char(parents[cur], cur)
    }
}

/// The search loop, `fuel` visits at most: the moves to `end` when it is
/// taken from the queue (empty when the queue runs out), and the maze as
/// the search leaves it.
pub open spec fn bfs_loop(st: BfsState, start: (usize, usize), end: (usize, usize), fuel: nat) -> (Seq<char>, Seq<Seq<char>>)
    decreases fuel,
{
    if fuel == 0 || st.queue.len() == 0 {
        (seq![], st.maze)
    } else {
        let cur = st.queue[0].0;
        let e = st.queue[0].1;
        if cur == end {
            (path_back(st.parents, end, start, st.depth[end]), st.maze)
        } else {
            let popped = BfsState { queue: st.queue.drop_first(), ..st };
            bfs_loop(bfs_expand(popped, cur, e), start, end, (fuel - 1) as nat)
        }
    }
}

/// The number of cells of a row that are not walls.
pub open spec fn row_open_count(row: Seq<char>) -> nat
    decreases row.len(),
{
    if row.len() == 0 {
        0
    } else {
        row_open_count(row.drop_last()) + if row.last() != '#' {
            1nat
        } else {
            0nat
        }
    }
}

/// The number of cells of the maze that are not walls.
pub open spec fn open_count(maze: Seq<Seq<char>>) -> nat
    decreases maze.len(),
{
    if maze.len() == 0 {
        0
    } else {
        open_count(maze.drop_last()) + row_open_count(maze.last())
    }
}

/// The state where the search starts: the start walled up and queued.
pub open spec fn bfs_start(maze: Seq<Seq<char>>, start: (usize, usize), endurance: u32) -> BfsState {
    BfsState {
        maze: mark(maze, start),
        queue: seq![(start, endurance)],
        parents: map![start => start],
        depth: map![start => 0nat],
    }
}

/// The breadth-first search from `start` to `end`: the moves of the path
/// it finds (empty when it finds none, or when `start` is `end`), and the
/// maze as it leaves it.
pub open spec fn bfs_spec(maze: Seq<Seq<char>>, start: (usize, usize), end: (usize, usize), endurance: u32) -> (Seq<char>, Seq<Seq<char>>) {
    let st = bfs_start(maze, start, endurance);
    bfs_loop(st, start, end, 5 * open_count(st.maze) + 2)
}


/// The search's state is sound: a rectangular maze at least as wide as
/// high; every discovered cell lies in it and is walled up; the start is
/// discovered, its own parent, at depth 0; every other discovered cell has
/// a discovered parent one level up; every queued cell is discovered.
pub open spec fn bfs_ok(st: BfsState, start: (usize, usize)) -> bool {
    let n = st.maze.len() as int;
    let w = width(st.maze);
    &&& rows_wide(st.maze)
    &&& w <= usize::MAX
    &&& st.parents.dom() == st.depth.dom()
    &&& st.parents.dom().contains(start)
    &&& st.parents[start] == start
    &&& st.depth[start] == 0
    &&& forall|c: (usize, usize)| #[trigger] st.parents.dom().contains(c) ==> in_square(c, n, w)
        && st.maze[c.0 as int][c.1 as int] == '#'
    &&& forall|c: (usize, usize)|
        #[trigger] st.parents.dom().contains(c) && c != start ==> st.parents.dom().contains(st.parents[c])
            && st.depth[st.parents[c]] + 1 == st.depth[c] && adjacent(st.parents[c], c)
    &&& forall|k: int| 0 <= k < st.queue.len() ==> st.parents.dom().contains(#[trigger] st.queue[k].0)
}

/// The parents grid agrees with the parents of the discovered cells.
pub open spec fn parents_agree(par: Seq<Seq<(usize, usize)>>, st: BfsState) -> bool {
    &&& par.len() == st.maze.len()
    &&& forall|i: int| 0 <= i < par.len() ==> #[trigger] par[i].len() == width(st.maze)
    &&& forall|c: (usize, usize)| #[trigger] st.parents.dom().contains(c) ==> par[c.0 as int][c.1 as int] == st.parents[c]
}

/// A sequence read backwards.
pub open spec fn backwards(s: Seq<char>) -> Seq<char>
    decreases s.len(),
{
    if s.len() == 0 {
        seq![]
    } else {
        seq![s.last()] + backwards(s.drop_last())
    }
}

proof fn lemma_row_open_update(row: Seq<char>, j: int)
    requires
        0 <= j < row.len(),
        row[j] != '#',
    ensures
        row_open_count(row.update(j, '#')) + 1 == row_open_count(row),
    decreases row.len(),
{
    if j < row.len() - 1 {
        assert(row.update(j, '#').drop_last() =~= row.drop_last().update(j, '#'));
        lemma_row_open_update(row.drop_last(), j);
    } else {
        assert(row.update(j, '#').drop_last() =~= row.drop_last());
    }
}

proof fn lemma_mark_count(maze: Seq<Seq<char>>, c: (usize, usize))
    requires
        c.0 < maze.len(),
        c.1 < maze[c.0 as int].len(),
        maze[c.0 as int][c.1 as int] != '#',
    ensures
        open_count(mark(maze, c)) + 1 == open_count(maze),
    decreases maze.len(),
{
    let m2 = mark(maze, c);
    if c.0 < maze.len() - 1 {
        assert(m2.drop_last() =~= mark(maze.drop_last(), c));
        lemma_mark_count(maze.drop_last(), c);
    } else {
        assert(m2.drop_last() =~= maze.drop_last());
        lemma_row_open_update(maze[c.0 as int], c.1 as int);
    }
}

proof fn lemma_discover_ok(st: BfsState, start: (usize, usize), from: (usize, usize), c: (usize, usize), e: u32)
    requires
        bfs_ok(st, start),
        st.parents.dom().contains(from),
        in_square(c, st.maze.len() as int, width(st.maze)),
        open_cell(st.maze, c),
        adjacent(from, c),
    ensures
        bfs_ok(discover(st, from, c, e), start),
        open_count(discover(st, from, c, e).maze) + 1 == open_count(st.maze),
        !st.parents.dom().contains(c),
        forall|d: (usize, usize)| d != c && in_square(d, st.maze.len() as int, width(st.maze)) ==> #[trigger] discover(st, from, c, e).maze[d.0 as int][d.1 as int] == st.maze[d.0 as int][d.1 as int],
        discover(st, from, c, e).maze.len() == st.maze.len(),
        width(discover(st, from, c, e).maze) == width(st.maze),
{
    let st2 = discover(st, from, c, e);
    let n = st.maze.len() as int;
    let w = width(st.maze);
    assert(st.maze[c.0 as int].len() == w);
    lemma_mark_count(st.maze, c);
    if st.parents.dom().contains(c) {
        assert(st.maze[c.0 as int][c.1 as int] == '#');
    }
    assert(width(st2.maze) == w) by {
        if c.0 == 0 {
        }
        assert(st2.maze[0].len() == st.maze[0].len());
    }
    assert forall|i: int| 0 <= i < st2.maze.len() implies #[trigger] st2.maze[i].len() == width(st2.maze) by {
        assert(st.maze[i].len() == w);
    }
    assert forall|d: (usize, usize)| #[trigger] st2.parents.dom().contains(d) implies in_square(d, n, w)
        && st2.maze[d.0 as int][d.1 as int] == '#' by {
        if d != c {
            assert(st.parents.dom().contains(d));
        }
    }
    assert forall|d: (usize, usize)| #[trigger] st2.parents.dom().contains(d) && d != start implies st2.parents.dom().contains(
        st2.parents[d],
    ) && st2.depth[st2.parents[d]] + 1 == st2.depth[d] && adjacent(st2.parents[d], d) by {
        if d != c {
            assert(st.parents.dom().contains(d));
            assert(st.parents[d] != c);
        } else {
            assert(from != c);
        }
    }
    assert forall|k: int| 0 <= k < st2.queue.len() implies st2.parents.dom().contains(#[trigger] st2.queue[k].0) by {
        if k < st.queue.len() {
            assert(st2.queue[k] == st.queue[k]);
        }
    }
    assert(st2.parents.dom() =~= st2.depth.dom());
    assert forall|d: (usize, usize)| d != c && in_square(d, n, w) implies #[trigger] st2.maze[d.0 as int][d.1 as int] == st.maze[d.0 as int][d.1 as int] by {
        assert(st.maze[d.0 as int].len() == w);
    }
}

fn set_cell(maze: &mut Vec<Vec<char>>, x: usize, y: usize, c: char)
    requires
        x < old(maze).len(),
        y < old(maze)@[x as int].len(),
    ensures
        char_rows(final(maze)) == char_rows(old(maze)).update(
            x as int,
            char_rows(old(maze))[x as int].update(y as int, c),
        ),
{
    let mut row: Vec<char> = Vec::new();
    let mut k: usize = 0;
    while k < maze[x].len()
        invariant
            x < maze.len(),
            k <= maze@[x as int].len(),
            row@ == maze@[x as int]@.subrange(0, k as int),
        decreases maze@[x as int].len() - k,
    {
        row.push(maze[x][k]);
        assert(row@ =~= maze@[x as int]@.subrange(0, k + 1));
        k = k + 1;
    }
    assert(row@ =~= maze@[x as int]@);
    row.set(y, c);
    let ghost before = char_rows(maze);
    maze.set(x, row);
    assert(char_rows(maze) =~= before.update(x as int, before[x as int].update(y as int, c)));
}

fn set_parent(par: &mut Vec<Vec<(usize, usize)>>, x: usize, y: usize, p: (usize, usize))
    requires
        x < old(par).len(),
        y < old(par)@[x as int].len(),
    ensures
        final(par).len() == old(par).len(),
        forall|i: int| 0 <= i < final(par).len() ==> #[trigger] final(par)@[i]@ == if i == x {
            old(par)@[i]@.update(y as int, p)
        } else {
            old(par)@[i]@
        },
{
    let mut row: Vec<(usize, usize)> = Vec::new();
    let mut k: usize = 0;
    while k < par[x].len()
        invariant
            x < par.len(),
            k <= par@[x as int].len(),
            row@ == par@[x as int]@.subrange(0, k as int),
        decreases par@[x as int].len() - k,
    {
        row.push(par[x][k]);
        assert(row@ =~= par@[x as int]@.subrange(0, k + 1));
        k = k + 1;
    }
    assert(row@ =~= par@[x as int]@);
    row.set(y, p);
    par.set(x, row);
}

/// The parents grid as nested sequences.
pub open spec fn parent_rows(v: &Vec<Vec<(usize, usize)>>) -> Seq<Seq<(usize, usize)>> {
    Seq::new(v.len() as nat, |i: int| v@[i]@)
}

fn push_move_char(path: &mut Vec<char>, from: (usize, usize), to: (usize, usize))
    ensures
        final(path)@ == old(path)@ + move_char(from, to),
{
    if from.0 < to.0 {
        path.push('v');
    } else if from.0 > to.0 {
        path.push('^');
    } else if from.1 < to.1 {
        path.push('>');
    } else if from.1 > to.1 {
        path.push('<');
    } else {
        assert(old(path)@ + move_char(from, to) =~= old(path)@);
    }
}

proof fn lemma_backwards_index(s: Seq<char>, i: int)
    requires
        0 <= i < s.len(),
    ensures
        backwards(s).len() == s.len(),
        backwards(s)[i] == s[s.len() - 1 - i],
    decreases s.len(),
{
    if i > 0 {
        lemma_backwards_index(s.drop_last(), i - 1);
    } else {
        if s.len() > 1 {
            lemma_backwards_len(s.drop_last());
        }
    }
    lemma_backwards_len(s);
}

proof fn lemma_backwards_len(s: Seq<char>)
    ensures
        backwards(s).len() == s.len(),
    decreases s.len(),
{
    if s.len() > 0 {
        lemma_backwards_len(s.drop_last());
    }
}


proof fn lemma_start_ok(maze: Seq<Seq<char>>, start: (usize, usize), endurance: u32)
    requires
        rows_wide(maze),
        width(maze) <= usize::MAX,
        in_square(start, maze.len() as int, width(maze)),
    ensures
        bfs_ok(bfs_start(maze, start, endurance), start),
        bfs_start(maze, start, endurance).maze.len() == maze.len(),
        width(bfs_start(maze, start, endurance).maze) == width(maze),
{
    let st = bfs_start(maze, start, endurance);
    let w = width(maze);
    assert(maze[start.0 as int].len() == w);
    assert(width(st.maze) == w) by {
        assert(st.maze[0].len() == maze[0].len());
    }
    assert forall|i: int| 0 <= i < st.maze.len() implies #[trigger] st.maze[i].len() == width(st.maze) by {
        assert(maze[i].len() == w);
    }
    assert(st.parents.dom() =~= st.depth.dom());
    assert forall|c: (usize, usize)| #[trigger] st.parents.dom().contains(c) implies in_square(c, maze.len() as int, w)
        && st.maze[c.0 as int][c.1 as int] == '#' by {
        assert(c == start);
    }
}

/// A row of `w` cells, each `(0, 0)`.
fn parent_row(w: usize) -> (row: Vec<(usize, usize)>)
    ensures
        row.len() == w,
{
    let mut row: Vec<(usize, usize)> = Vec::new();
    let mut j: usize = 0;
    while j < w
        invariant
            j <= w,
            row.len() == j,
        decreases w - j,
    {
        row.push((0, 0));
        j = j + 1;
    }
    row
}

/// A grid of `n` rows of `w` cells, each `(0, 0)`.
fn parent_grid(n: usize, w: usize) -> (grid: Vec<Vec<(usize, usize)>>)
    ensures
        grid.len() == n,
        forall|i: int| 0 <= i < n ==> #[trigger] grid@[i]@.len() == w,
{
    let mut grid: Vec<Vec<(usize, usize)>> = Vec::new();
    let mut i: usize = 0;
    while i < n
        invariant
            i <= n,
            grid.len() == i,
            forall|k: int| 0 <= k < i ==> #[trigger] grid@[k]@.len() == w,
        decreases n - i,
    {
        grid.push(parent_row(w));
        i = i + 1;
    }
    grid
}

/// The moves of `path` in the opposite order.
fn reversed(path: &Vec<char>) -> (r: Vec<char>)
    ensures
        r@ == backwards(path@),
{
    let mut r: Vec<char> = Vec::new();
    let mut i: usize = path.len();
    while i > 0
        invariant
            i <= path.len(),
            r.len() == path.len() - i,
            forall|k: int| 0 <= k < r.len() ==> #[trigger] r@[k] == path@[path.len() - 1 - k],
        decreases i,
    {
        r.push(path[i - 1]);
        i = i - 1;
    }
    proof {
        lemma_backwards_len(path@);
        assert forall|k: int| 0 <= k < r.len() implies #[trigger] r@[k] == backwards(path@)[k] by {
            lemma_backwards_index(path@, k);
        }
    }
    assert(r@ =~= backwards(path@));
    r
}


proof fn lemma_backwards_short(s: Seq<char>, t: Seq<char>)
    requires
        t.len() <= 1,
    ensures
        backwards(s + t) == t + backwards(s),
{
    if t.len() == 0 {
        assert(s + t =~= s);
        assert(t + backwards(s) =~= backwards(s));
    } else {
        assert((s + t).drop_last() =~= s);
        assert(seq![(s + t).last()] =~= t);
    }
}

/// The moves from `start` to `end` along the parents recorded in `par`.
fn trace_back(par: &Vec<Vec<(usize, usize)>>, Ghost(st): Ghost<BfsState>, start: (usize, usize), end: (usize, usize)) -> (path: Vec<char>)
    requires
        bfs_ok(st, start),
        parents_agree(parent_rows(par), st),
        st.parents.dom().contains(end),
    ensures
        path@ == path_back(st.parents, end, start, st.depth[end]),
{
    let mut path: Vec<char> = Vec::new();
    let mut current = end;
    while current.0 != start.0 || current.1 != start.1
        invariant
            bfs_ok(st, start),
            parents_agree(parent_rows(par), st),
            st.parents.dom().contains(current),
            path_back(st.parents, end, start, st.depth[end]) == path_back(
                st.parents,
                current,
                start,
                st.depth[current],
            ) + backwards(path@),
        decreases st.depth[current],
    {
        let ghost rows = parent_rows(par);
        assert(in_square(current, st.maze.len() as int, width(st.maze)));
        assert(rows[current.0 as int].len() == width(st.maze));
        let parent = par[current.0][current.1];
        assert(parent == st.parents[current]);
        let ghost old_path = path@;
        push_move_char(&mut path, parent, current);
        proof {
            lemma_backwards_short(old_path, move_char(parent, current));
            let p = st.parents;
            assert(path_back(p, current, start, st.depth[current]) == path_back(p, parent, start, st.depth[parent])
                + move_char(parent, current));
            assert(path_back(p, parent, start, st.depth[parent]) + backwards(path@) =~= path_back(
                p,
                current,
                start,
                st.depth[current],
            ) + backwards(old_path));
        }
        current = parent;
    }
    proof {
        assert(current == start);
        assert(path_back(st.parents, current, start, st.depth[current]) + backwards(path@) =~= backwards(path@));
    }
    reversed(&path)
}


/// Discovers cell `c` from `from`: queues it with endurance `e`, records
/// its parent and walls it up.
fn discover_cell(
    maze: &mut Vec<Vec<char>>,
    queue: &mut VecDeque<((usize, usize), u32)>,
    par: &mut Vec<Vec<(usize, usize)>>,
    Ghost(st): Ghost<BfsState>,
    Ghost(start): Ghost<(usize, usize)>,
    from: (usize, usize),
    c: (usize, usize),
    e: u32,
)
    requires
        char_rows(old(maze)) == st.maze,
        old(queue)@ == st.queue,
        parents_agree(parent_rows(old(par)), st),
        bfs_ok(st, start),
        in_square(c, st.maze.len() as int, width(st.maze)),
    ensures
        char_rows(final(maze)) == discover(st, from, c, e).maze,
        final(queue)@ == discover(st, from, c, e).queue,
        parents_agree(parent_rows(final(par)), discover(st, from, c, e)),
{
    let ghost st2 = discover(st, from, c, e);
    let ghost w = width(st.maze);
    queue.push_back((c, e));
    proof {
        assert(st.maze[c.0 as int].len() == w);
        assert(parent_rows(par)[c.0 as int].len() == w);
    }
    let ghost old_par = parent_rows(par);
    set_parent(par, c.0, c.1, from);
    set_cell(maze, c.0, c.1, '#');
    proof {
        let rows = parent_rows(par);
        assert forall|i: int| 0 <= i < rows.len() implies #[trigger] rows[i].len() == width(st2.maze) by {
            assert(old_par[i].len() == w);
            assert(st2.maze[0].len() == st.maze[0].len());
        }
        assert forall|d: (usize, usize)| #[trigger] st2.parents.dom().contains(d) implies rows[d.0 as int][d.1 as int]
            == st2.parents[d] by {
            if d != c {
                assert(st.parents.dom().contains(d));
                assert(in_square(d, st.maze.len() as int, w));
                assert(old_par[d.0 as int][d.1 as int] == st.parents[d]);
            }
        }
    }
}


/// The facts the search keeps between its steps, over its exec state.
pub open spec fn bfs_holds(
    maze: Seq<Seq<char>>,
    queue: Seq<((usize, usize), u32)>,
    par: Seq<Seq<(usize, usize)>>,
    st: BfsState,
    start: (usize, usize),
) -> bool {
    &&& maze == st.maze
    &&& queue == st.queue
    &&& parents_agree(par, st)
    &&& bfs_ok(st, start)
}

/// One neighbour of the visited cell: discovered when `inside` and open.
pub open spec fn visit(st: BfsState, from: (usize, usize), c: (usize, usize), inside: bool, e: u32) -> BfsState {
    if inside && open_cell(st.maze, c) {
        discover(st, from, c, e)
    } else {
        st
    }
}

proof fn lemma_expand_steps(st: BfsState, cur: (usize, usize), e: u32)
    requires
        st.maze[cur.0 as int][cur.1 as int] == '#',
        ({
            let n = st.maze.len() as int;
            let (x, y) = (cur.0, cur.1);
            let s4 = visit(
                visit(visit(visit(st, cur, (sub1(x), y), x > 0, e), cur, (add1(x), y), x < n - 1, e), cur, (x, sub1(y)), y > 0, e),
                cur,
                (x, add1(y)),
                y < n - 1,
                e,
            );
            s4.maze[x as int][y as int] == '#'
        }),
    ensures
        ({
            let n = st.maze.len() as int;
            let (x, y) = (cur.0, cur.1);
            bfs_expand(st, cur, e) == visit(
                visit(visit(visit(st, cur, (sub1(x), y), x > 0, e), cur, (add1(x), y), x < n - 1, e), cur, (x, sub1(y)), y > 0, e),
                cur,
                (x, add1(y)),
                y < n - 1,
                e,
            )
        }),
{
}

/// Visits one neighbour `c` of `cur`, when `inside` (the caller's bounds
/// check, which keeps `c` in the maze) holds and the cell is open.
fn visit_cell(
    maze: &mut Vec<Vec<char>>,
    queue: &mut VecDeque<((usize, usize), u32)>,
    par: &mut Vec<Vec<(usize, usize)>>,
    Ghost(st): Ghost<BfsState>,
    Ghost(start): Ghost<(usize, usize)>,
    cur: (usize, usize),
    c: (usize, usize),
    e: u32,
)
    requires
        bfs_holds(char_rows(old(maze)), old(queue)@, parent_rows(old(par)), st, start),
        st.parents.dom().contains(cur),
        in_square(c, st.maze.len() as int, width(st.maze)),
        adjacent(cur, c),
    ensures
        bfs_holds(char_rows(final(maze)), final(queue)@, parent_rows(final(par)), visit(st, cur, c, true, e), start),
        visit(st, cur, c, true, e).parents.dom().contains(cur),
        visit(st, cur, c, true, e).maze.len() == st.maze.len(),
        width(visit(st, cur, c, true, e).maze) == width(st.maze),
        visit(st, cur, c, true, e).maze[cur.0 as int][cur.1 as int] == '#',
        2 * open_count(visit(st, cur, c, true, e).maze) + visit(st, cur, c, true, e).queue.len() <= 2 * open_count(
            st.maze,
        ) + st.queue.len(),
{
    assert(st.maze[c.0 as int].len() == width(st.maze));
    assert(char_rows(maze)[c.0 as int] == maze@[c.0 as int]@);
    if maze[c.0][c.1] != '#' && maze[c.0][c.1] != 'M' {
        discover_cell(maze, queue, par, Ghost(st), Ghost(start), cur, c, e);
        proof {
            lemma_discover_ok(st, start, cur, c, e);
        }
    }
}

/// The visit of `cur`, already taken from the queue (see `bfs_expand`).
fn expand(
    maze: &mut Vec<Vec<char>>,
    queue: &mut VecDeque<((usize, usize), u32)>,
    par: &mut Vec<Vec<(usize, usize)>>,
    Ghost(st): Ghost<BfsState>,
    Ghost(start): Ghost<(usize, usize)>,
    cur: (usize, usize),
    e: u32,
)
    requires
        bfs_holds(char_rows(old(maze)), old(queue)@, parent_rows(old(par)), st, start),
        st.parents.dom().contains(cur),
    ensures
        bfs_holds(char_rows(final(maze)), final(queue)@, parent_rows(final(par)), bfs_expand(st, cur, e), start),
        bfs_expand(st, cur, e).maze.len() == st.maze.len(),
        2 * open_count(bfs_expand(st, cur, e).maze) + bfs_expand(st, cur, e).queue.len() <= 2 * open_count(st.maze)
            + st.queue.len(),
{
    let x = cur.0;
    let y = cur.1;
    let n = maze.len();
    let ghost w = width(st.maze);
    assert(in_square(cur, n as int, w));
    let ghost s0 = st;
    let ghost mut t = st;
    if x > 0 {
        visit_cell(maze, queue, par, Ghost(t), Ghost(start), cur, (x - 1, y), e);
        proof {
            t = visit(t, cur, (sub1(x), y), true, e);
        }
    }
    assert(t == visit(s0, cur, (sub1(x), y), x > 0, e));
    let ghost s1 = t;
    if x < n - 1 {
        visit_cell(maze, queue, par, Ghost(t), Ghost(start), cur, (x + 1, y), e);
        proof {
            t = visit(t, cur, (add1(x), y), true, e);
        }
    }
    assert(t == visit(s1, cur, (add1(x), y), x < n - 1, e));
    let ghost s2 = t;
    if y > 0 {
        visit_cell(maze, queue, par, Ghost(t), Ghost(start), cur, (x, y - 1), e);
        proof {
            t = visit(t, cur, (x, sub1(y)), true, e);
        }
    }
    assert(t == visit(s2, cur, (x, sub1(y)), y > 0, e));
    let ghost s3 = t;
    if y < n - 1 {
        visit_cell(maze, queue, par, Ghost(t), Ghost(start), cur, (x, y + 1), e);
        proof {
            t = visit(t, cur, (x, add1(y)), true, e);
        }
    }
    assert(t == visit(s3, cur, (x, add1(y)), y < n - 1, e));
    assert(char_rows(maze)[x as int] == maze@[x as int]@);
    if maze[x][y] == 'M' {
        let new_endurance = e - 1;
        if new_endurance > 0 {
            queue.push_back((cur, new_endurance));
            set_parent(par, x, y, cur);
            set_cell(maze, x, y, '#');
        }
    }
    proof {
        lemma_expand_steps(s0, cur, e);
    }
}

impl MonstrousMaze {
    /// The breadth-first search from `start` to `end` (see `bfs_spec`): it
    /// walls up every cell it discovers, and returns the moves of the path
    /// it finds, empty when there is none.
    pub fn bfs(maze: &mut Vec<Vec<char>>, start: (usize, usize), end: (usize, usize), endurance: u32) -> (path: Vec<char>)
        requires
            rows_wide(char_rows(old(maze))),
            in_square(start, old(maze).len() as int, width(char_rows(old(maze)))),
        ensures
            (path@, char_rows(final(maze))) == bfs_spec(char_rows(old(maze)), start, end, endurance),
    {
        let ghost m0 = char_rows(maze);
        let n = maze.len();
        let w = maze[0].len();
        assert(width(m0) == w);
        let mut queue: VecDeque<((usize, usize), u32)> = VecDeque::new();
        queue.push_back((start, endurance));
        let mut par = parent_grid(n, w);
        let ghost g0 = parent_rows(&par);
        set_parent(&mut par, start.0, start.1, start);
        proof {
            assert(m0[start.0 as int].len() == w);
        }
        set_cell(maze, start.0, start.1, '#');
        let ghost mut st = bfs_start(m0, start, endurance);
        let ghost mut fuel: nat = 5 * open_count(st.maze) + 2;
        proof {
            lemma_start_ok(m0, start, endurance);
            assert(queue@ =~= st.queue);
            let rows = parent_rows(&par);
            assert forall|i: int| 0 <= i < rows.len() implies #[trigger] rows[i].len() == width(st.maze) by {
                assert(g0[i].len() == w);
            }
            assert forall|d: (usize, usize)| #[trigger] st.parents.dom().contains(d) implies rows[d.0 as int][d.1 as int]
                == st.parents[d] by {
                assert(d == start);
            }
        }
        loop
            invariant
                m0 == char_rows(old(maze)),
                n == maze.len(),
                n == st.maze.len(),
                char_rows(maze) == st.maze,
                queue@ == st.queue,
                parents_agree(parent_rows(&par), st),
                bfs_ok(st, start),
                bfs_spec(m0, start, end, endurance) == bfs_loop(st, start, end, fuel),
                fuel >= 2 * open_count(st.maze) + st.queue.len() + 1,
            decreases 2 * open_count(st.maze) + st.queue.len(),
        {
            match queue.pop_front() {
                None => {
                    let none: Vec<char> = Vec::new();
                    assert(none@ =~= seq![]);
                    assert(bfs_loop(st, start, end, fuel) == (none@, st.maze));
                    return none;
                },
                Some(item) => {
                    let (cur, e) = item;
                    assert(st.parents.dom().contains(st.queue[0].0));
                    if cur.0 == end.0 && cur.1 == end.1 {
                        assert(cur == end);
                        let found = trace_back(&par, Ghost(st), start, end);
                        assert(bfs_loop(st, start, end, fuel) == (found@, st.maze));
                        return found;
                    }
                    let ghost before = st;
                    let ghost popped = BfsState { queue: st.queue.drop_first(), ..st };
                    proof {
                        st = popped;
                        assert(queue@ =~= st.queue);
                        assert forall|k: int| 0 <= k < popped.queue.len() implies popped.parents.dom().contains(
                            #[trigger] popped.queue[k].0,
                        ) by {
                            assert(popped.queue[k] == before.queue[k + 1]);
                        }
                        assert(before.queue[0] == (cur, e));
                    }
                    expand(maze, &mut queue, &mut par, Ghost(popped), Ghost(start), cur, e);
                    proof {
                        st = bfs_expand(popped, cur, e);
                        fuel = (fuel - 1) as nat;
                    }
                }
            }
        }
    }
}


/// One move from a cell: 'v' down, '^' up, '>' right, '<' left.
pub open spec fn step(q: (int, int), m: char) -> (int, int) {
    if m == 'v' {
        (q.0 + 1, q.1)
    } else if m == '^' {
        (q.0 - 1, q.1)
    } else if m == '>' {
        (q.0, q.1 + 1)
    } else if m == '<' {
        (q.0, q.1 - 1)
    } else {
        q
    }
}

/// The cell reached from `q` by the moves, one after the other.
pub open spec fn follow(q: (int, int), ms: Seq<char>) -> (int, int)
    decreases ms.len(),
{
    if ms.len() == 0 {
        q
    } else {
        step(follow(q, ms.drop_last()), ms.last())
    }
}

/// A cell as a pair of integers.
pub open spec fn pos(c: (usize, usize)) -> (int, int) {
    (c.0 as int, c.1 as int)
}

/// Every discovered cell other than the start was open in the maze `m0`
/// the search began on, and every undiscovered cell is as it was there.
pub open spec fn bfs_open(st: BfsState, m0: Seq<Seq<char>>, start: (usize, usize)) -> bool {
    let n = st.maze.len() as int;
    let w = width(st.maze);
    &&& m0.len() == n
    &&& forall|i: int| 0 <= i < n ==> #[trigger] m0[i].len() == w
    &&& forall|c: (usize, usize)|
        in_square(c, n, w) && !st.parents.dom().contains(c) ==> #[trigger] st.maze[c.0 as int][c.1 as int]
            == m0[c.0 as int][c.1 as int]
    &&& forall|c: (usize, usize)| #[trigger] st.parents.dom().contains(c) && c != start ==> open_cell(m0, c)
}

/// Each move of `ms`, from `q`, reaches a cell of `m0` that is neither a
/// wall nor a monster.
pub open spec fn open_walk(q: (int, int), ms: Seq<char>, m0: Seq<Seq<char>>) -> bool {
    forall|k: int|
        1 <= k <= ms.len() ==> {
            let r = #[trigger] follow(q, ms.take(k));
            &&& 0 <= r.0 < m0.len()
            &&& 0 <= r.1 < m0[r.0].len()
            &&& m0[r.0][r.1] != '#'
            &&& m0[r.0][r.1] != 'M'
        }
}

proof fn lemma_open_walk_push(q: (int, int), x: Seq<char>, t: Seq<char>, m0: Seq<Seq<char>>)
    requires
        open_walk(q, x, m0),
        t.len() == 1,
        ({
            let r = follow(q, x + t);
            &&& 0 <= r.0 < m0.len()
            &&& 0 <= r.1 < m0[r.0].len()
            &&& m0[r.0][r.1] != '#'
            &&& m0[r.0][r.1] != 'M'
        }),
    ensures
        open_walk(q, x + t, m0),
{
    let xt = x + t;
    assert forall|k: int| 1 <= k <= xt.len() implies {
        let r = #[trigger] follow(q, xt.take(k));
        &&& 0 <= r.0 < m0.len()
        &&& 0 <= r.1 < m0[r.0].len()
        &&& m0[r.0][r.1] != '#'
        &&& m0[r.0][r.1] != 'M'
    } by {
        if k < xt.len() {
            assert(xt.take(k) =~= x.take(k));
        } else {
            assert(xt.take(k) =~= xt);
        }
    }
}

proof fn lemma_step_adjacent(p: (usize, usize), c: (usize, usize))
    requires
        adjacent(p, c),
    ensures
        move_char(p, c).len() == 1,
        step(pos(p), move_char(p, c)[0]) == pos(c),
{
}

proof fn lemma_follow_push(q: (int, int), x: Seq<char>, t: Seq<char>)
    requires
        t.len() == 1,
    ensures
        follow(q, x + t) == step(follow(q, x), t[0]),
{
    assert((x + t).drop_last() =~= x);
}

/// The facts the search keeps of one discovered cell other than the start.
proof fn lemma_parent_facts(st: BfsState, m0: Seq<Seq<char>>, start: (usize, usize), c: (usize, usize))
    requires
        bfs_ok(st, start),
        bfs_open(st, m0, start),
        st.parents.dom().contains(c),
        c != start,
    ensures
        st.parents.dom().contains(st.parents[c]),
        st.depth[st.parents[c]] + 1 == st.depth[c],
        adjacent(st.parents[c], c),
        c.0 < m0.len(),
        c.1 < m0[c.0 as int].len(),
        open_cell(m0, c),
{
    assert(in_square(c, st.maze.len() as int, width(st.maze)));
}

#[verifier::spinoff_prover]
proof fn lemma_path_back_follow(st: BfsState, m0: Seq<Seq<char>>, start: (usize, usize), c: (usize, usize))
    requires
        bfs_ok(st, start),
        bfs_open(st, m0, start),
        st.parents.dom().contains(c),
    ensures
        follow(pos(start), path_back(st.parents, c, start, st.depth[c])) == pos(c),
        open_walk(pos(start), path_back(st.parents, c, start, st.depth[c]), m0),
    decreases st.depth[c],
{
    let pb = path_back(st.parents, c, start, st.depth[c]);
    if c != start {
        let p = st.parents[c];
        lemma_parent_facts(st, m0, start, c);
        lemma_path_back_follow(st, m0, start, p);
        let x = path_back(st.parents, p, start, st.depth[p]);
        assert(pb == x + move_char(p, c));
        lemma_step_adjacent(p, c);
        lemma_follow_push(pos(start), x, move_char(p, c));
        lemma_open_walk_push(pos(start), x, move_char(p, c), m0);
    }
}

proof fn lemma_discover_open(
    st: BfsState,
    m0: Seq<Seq<char>>,
    start: (usize, usize),
    from: (usize, usize),
    c: (usize, usize),
    e: u32,
)
    requires
        bfs_ok(st, start),
        bfs_open(st, m0, start),
        st.parents.dom().contains(from),
        in_square(c, st.maze.len() as int, width(st.maze)),
        open_cell(st.maze, c),
        adjacent(from, c),
    ensures
        bfs_open(discover(st, from, c, e), m0, start),
{
    let st2 = discover(st, from, c, e);
    let n = st.maze.len() as int;
    let w = width(st.maze);
    lemma_discover_ok(st, start, from, c, e);
    assert(!st.parents.dom().contains(c));
    assert forall|i: int| 0 <= i < n implies #[trigger] m0[i].len() == width(st2.maze) by {
        assert(m0[i].len() == w);
    }
    assert forall|d: (usize, usize)| in_square(d, n, w) && !st2.parents.dom().contains(d) implies #[trigger] st2.maze[d.0 as int][d.1 as int]
        == m0[d.0 as int][d.1 as int] by {
        assert(d != c);
        assert(st.maze[d.0 as int][d.1 as int] == m0[d.0 as int][d.1 as int]);
    }
    assert forall|d: (usize, usize)| #[trigger] st2.parents.dom().contains(d) && d != start implies open_cell(m0, d) by {
        if d == c {
            assert(st.maze[c.0 as int][c.1 as int] == m0[c.0 as int][c.1 as int]);
        } else {
            assert(st.parents.dom().contains(d));
        }
    }
}

proof fn lemma_visit_ok(
    st: BfsState,
    m0: Seq<Seq<char>>,
    start: (usize, usize),
    cur: (usize, usize),
    c: (usize, usize),
    inside: bool,
    e: u32,
)
    requires
        bfs_ok(st, start),
        st.parents.dom().contains(cur),
        inside ==> in_square(c, st.maze.len() as int, width(st.maze)) && adjacent(cur, c),
    ensures
        bfs_ok(visit(st, cur, c, inside, e), start),
        bfs_open(st, m0, start) ==> bfs_open(visit(st, cur, c, inside, e), m0, start),
        visit(st, cur, c, inside, e).parents.dom().contains(cur),
        visit(st, cur, c, inside, e).maze.len() == st.maze.len(),
        width(visit(st, cur, c, inside, e).maze) == width(st.maze),
        visit(st, cur, c, inside, e).maze[cur.0 as int][cur.1 as int] == '#',
{
    if inside && open_cell(st.maze, c) {
        lemma_discover_ok(st, start, cur, c, e);
        if bfs_open(st, m0, start) {
            lemma_discover_open(st, m0, start, cur, c, e);
        }
    }
}

proof fn lemma_expand_ok(st: BfsState, m0: Seq<Seq<char>>, start: (usize, usize), cur: (usize, usize), e: u32)
    requires
        bfs_ok(st, start),
        st.parents.dom().contains(cur),
    ensures
        bfs_ok(bfs_expand(st, cur, e), start),
        bfs_open(st, m0, start) ==> bfs_open(bfs_expand(st, cur, e), m0, start),
{
    let n = st.maze.len() as int;
    let w = width(st.maze);
    let (x, y) = (cur.0, cur.1);
    assert(in_square(cur, n, w));
    let s1 = visit(st, cur, (sub1(x), y), x > 0, e);
    lemma_visit_ok(st, m0, start, cur, (sub1(x), y), x > 0, e);
    let s2 = visit(s1, cur, (add1(x), y), x < n - 1, e);
    lemma_visit_ok(s1, m0, start, cur, (add1(x), y), x < n - 1, e);
    let s3 = visit(s2, cur, (x, sub1(y)), y > 0, e);
    lemma_visit_ok(s2, m0, start, cur, (x, sub1(y)), y > 0, e);
    lemma_visit_ok(s3, m0, start, cur, (x, add1(y)), y < n - 1, e);
    lemma_expand_steps(st, cur, e);
}

proof fn lemma_bfs_loop_path(st: BfsState, m0: Seq<Seq<char>>, start: (usize, usize), end: (usize, usize), fuel: nat)
    requires
        bfs_ok(st, start),
        bfs_open(st, m0, start),
    ensures
        bfs_loop(st, start, end, fuel).0.len() > 0 ==> follow(pos(start), bfs_loop(st, start, end, fuel).0)
            == pos(end),
        open_walk(pos(start), bfs_loop(st, start, end, fuel).0, m0),
    decreases fuel,
{
    if fuel > 0 && st.queue.len() > 0 {
        let cur = st.queue[0].0;
        let e = st.queue[0].1;
        assert(st.parents.dom().contains(cur));
        if cur == end {
            lemma_path_back_follow(st, m0, start, end);
        } else {
            let popped = BfsState { queue: st.queue.drop_first(), ..st };
            assert forall|k: int| 0 <= k < popped.queue.len() implies popped.parents.dom().contains(
                #[trigger] popped.queue[k].0,
            ) by {
                assert(popped.queue[k] == st.queue[k + 1]);
            }
            lemma_expand_ok(popped, m0, start, cur, e);
            lemma_bfs_loop_path(bfs_expand(popped, cur, e), m0, start, end, (fuel - 1) as nat);
        }
    }
}

/// The moves the breadth-first search finds, when it finds any, lead from
/// the start to the end, and each of them enters a cell of the given maze
/// that is neither a wall nor a monster.
pub proof fn lemma_bfs_reaches_end(maze: Seq<Seq<char>>, start: (usize, usize), end: (usize, usize), endurance: u32)
    requires
        rows_wide(maze),
        width(maze) <= usize::MAX,
        in_square(start, maze.len() as int, width(maze)),
    ensures
        bfs_spec(maze, start, end, endurance).0.len() > 0 ==> follow(
            pos(start),
            bfs_spec(maze, start, end, endurance).0,
        ) == pos(end),
        open_walk(pos(start), bfs_spec(maze, start, end, endurance).0, maze),
{
    lemma_start_ok(maze, start, endurance);
    let st = bfs_start(maze, start, endurance);
    let n = maze.len() as int;
    let w = width(maze);
    assert(maze[start.0 as int].len() == w);
    assert forall|c: (usize, usize)| in_square(c, n, w) && !st.parents.dom().contains(c) implies #[trigger] st.maze[c.0 as int][c.1 as int]
        == maze[c.0 as int][c.1 as int] by {
        assert(c != start);
        assert(maze[c.0 as int].len() == w);
    }
    lemma_bfs_loop_path(st, maze, start, end, 5 * open_count(st.maze) + 2);
}


/// The two states differ at most in the endurance queued with each cell.
pub open spec fn same_but_endurance(a: BfsState, b: BfsState) -> bool {
    &&& a.maze == b.maze
    &&& a.parents == b.parents
    &&& a.depth == b.depth
    &&& a.queue.len() == b.queue.len()
    &&& forall|k: int| 0 <= k < a.queue.len() ==> #[trigger] a.queue[k].0 == b.queue[k].0
}

proof fn lemma_visit_same(a: BfsState, b: BfsState, cur: (usize, usize), c: (usize, usize), inside: bool, e1: u32, e2: u32)
    requires
        same_but_endurance(a, b),
    ensures
        same_but_endurance(visit(a, cur, c, inside, e1), visit(b, cur, c, inside, e2)),
{
    if inside && open_cell(a.maze, c) {
        let a2 = visit(a, cur, c, inside, e1);
        let b2 = visit(b, cur, c, inside, e2);
        assert forall|k: int| 0 <= k < a2.queue.len() implies #[trigger] a2.queue[k].0 == b2.queue[k].0 by {
            if k < a.queue.len() {
                assert(a2.queue[k] == a.queue[k]);
                assert(b2.queue[k] == b.queue[k]);
            }
        }
    }
}

proof fn lemma_expand_same(a: BfsState, b: BfsState, start: (usize, usize), cur: (usize, usize), e1: u32, e2: u32)
    requires
        bfs_ok(a, start),
        a.parents.dom().contains(cur),
        same_but_endurance(a, b),
    ensures
        same_but_endurance(bfs_expand(a, cur, e1), bfs_expand(b, cur, e2)),
{
    let n = a.maze.len() as int;
    let (x, y) = (cur.0, cur.1);
    let a1 = visit(a, cur, (sub1(x), y), x > 0, e1);
    let b1 = visit(b, cur, (sub1(x), y), x > 0, e2);
    lemma_visit_ok(a, a.maze, start, cur, (sub1(x), y), x > 0, e1);
    lemma_visit_same(a, b, cur, (sub1(x), y), x > 0, e1, e2);
    let a2 = visit(a1, cur, (add1(x), y), x < n - 1, e1);
    let b2 = visit(b1, cur, (add1(x), y), x < n - 1, e2);
    lemma_visit_ok(a1, a.maze, start, cur, (add1(x), y), x < n - 1, e1);
    lemma_visit_same(a1, b1, cur, (add1(x), y), x < n - 1, e1, e2);
    let a3 = visit(a2, cur, (x, sub1(y)), y > 0, e1);
    let b3 = visit(b2, cur, (x, sub1(y)), y > 0, e2);
    lemma_visit_ok(a2, a.maze, start, cur, (x, sub1(y)), y > 0, e1);
    lemma_visit_same(a2, b2, cur, (x, sub1(y)), y > 0, e1, e2);
    lemma_visit_ok(a3, a.maze, start, cur, (x, add1(y)), y < n - 1, e1);
    lemma_visit_same(a3, b3, cur, (x, add1(y)), y < n - 1, e1, e2);
    assert(in_square(cur, n, width(a.maze)));
    lemma_expand_steps(a, cur, e1);
    lemma_expand_steps(b, cur, e2);
}

proof fn lemma_loop_same(a: BfsState, b: BfsState, start: (usize, usize), end: (usize, usize), fuel: nat)
    requires
        bfs_ok(a, start),
        same_but_endurance(a, b),
    ensures
        bfs_loop(a, start, end, fuel) == bfs_loop(b, start, end, fuel),
    decreases fuel,
{
    if fuel > 0 && a.queue.len() > 0 {
        let cur = a.queue[0].0;
        assert(cur == b.queue[0].0);
        assert(a.parents.dom().contains(cur));
        if cur != end {
            let pa = BfsState { queue: a.queue.drop_first(), ..a };
            let pb = BfsState { queue: b.queue.drop_first(), ..b };
            assert forall|k: int| 0 <= k < pa.queue.len() implies pa.parents.dom().contains(#[trigger] pa.queue[k].0) by {
                assert(pa.queue[k] == a.queue[k + 1]);
            }
            assert forall|k: int| 0 <= k < pa.queue.len() implies #[trigger] pa.queue[k].0 == pb.queue[k].0 by {
                assert(pa.queue[k] == a.queue[k + 1]);
                assert(pb.queue[k] == b.queue[k + 1]);
            }
            lemma_expand_ok(pa, pa.maze, start, cur, a.queue[0].1);
            lemma_expand_same(pa, pb, start, cur, a.queue[0].1, b.queue[0].1);
            lemma_loop_same(
                bfs_expand(pa, cur, a.queue[0].1),
                bfs_expand(pb, cur, b.queue[0].1),
                start,
                end,
                (fuel - 1) as nat,
            );
        }
    }
}

/// The endurance given to the breadth-first search changes neither the
/// path it finds nor the cells it walls up: it never enters a monster.
pub proof fn lemma_bfs_endurance(
    maze: Seq<Seq<char>>,
    start: (usize, usize),
    end: (usize, usize),
    e1: u32,
    e2: u32,
)
    requires
        rows_wide(maze),
        width(maze) <= usize::MAX,
        in_square(start, maze.len() as int, width(maze)),
    ensures
        bfs_spec(maze, start, end, e1) == bfs_spec(maze, start, end, e2),
{
    lemma_start_ok(maze, start, e1);
    let a = bfs_start(maze, start, e1);
    let b = bfs_start(maze, start, e2);
    assert(same_but_endurance(a, b));
    lemma_loop_same(a, b, start, end, 5 * open_count(a.maze) + 2);
}

} // verus!
