use vstd::prelude::*;

use crate::cell::Cell;
use crate::cell::is_pow2;
use crate::line::BoardCell;
use crate::line::lemma_merge_pass_cons;
use crate::line::lemma_merge_pass_fits_cons;
use crate::line::line_fits;
use crate::line::line_values;
use crate::line::line_values_from;
use crate::line::line_wf;
use crate::line::merge_pairs;
use crate::line::merge_pass;
use crate::line::merge_pass_fits;
use crate::line::mergeable_pairs;
use crate::line::merged_values;
use crate::line::reduced;
use crate::line::slot_wf;
use crate::cell::decimal_digits;
use crate::movement::Direction;
use crate::movement::Move;
use crate::rng;
use vstd::string::StringExecFns;

verus! {

/// Defines the number of columns in the board.
pub const BOARD_COLS: usize = 4;

/// Defines the number or rows in the board.
pub const BOARD_ROWS: usize = 4;

/// Defines the maximum number of undos the player can perform.
pub const HISTORY_SIZE: usize = 1;

/// Represents a row and column on the game board.
#[derive(Copy, Clone, Debug, PartialEq, Eq, Structural)]
pub struct Coord(pub usize, pub usize);

/// Type representing the grid of cells on the board.
pub type BoardGrid = Vec<Vec<BoardCell>>;

/// The mathematical value of a grid: its rows as sequences.
pub open spec fn grid_view(g: BoardGrid) -> Seq<Seq<BoardCell>> {
    Seq::new(g@.len() as nat, |r: int| g@[r]@)
}

/// The grid has exactly `BOARD_ROWS` rows of `BOARD_COLS` slots each.
pub open spec fn grid_dims_ok(g: Seq<Seq<BoardCell>>) -> bool {
    g.len() == BOARD_ROWS && forall|r: int|
        0 <= r < g.len() ==> (#[trigger] g[r]).len() == BOARD_COLS
}

/// A well-formed grid: right dimensions, every slot empty or a valid tile.
pub open spec fn grid_wf(g: Seq<Seq<BoardCell>>) -> bool {
    grid_dims_ok(g) && forall|r: int| 0 <= r < g.len() ==> line_wf(#[trigger] g[r])
}

/// The grid with no tile in any slot.
pub open spec fn empty_grid() -> Seq<Seq<BoardCell>> {
    Seq::new(
        BOARD_ROWS as nat,
        |r: int| Seq::new(BOARD_COLS as nat, |c: int| None::<Cell>),
    )
}

/// Column `c` of the grid, top to bottom.
pub open spec fn column(g: Seq<Seq<BoardCell>>, c: int) -> Seq<BoardCell> {
    Seq::new(g.len(), |r: int| g[r][c])
}

/// The grid with slot `(r, c)` replaced by `v`.
pub open spec fn grid_update(
    g: Seq<Seq<BoardCell>>,
    r: int,
    c: int,
    v: BoardCell,
) -> Seq<Seq<BoardCell>> {
    g.update(r, g[r].update(c, v))
}

/// No slot of the grid is empty.
pub open spec fn grid_full(g: Seq<Seq<BoardCell>>) -> bool {
    forall|r: int, c: int|
        0 <= r < g.len() && 0 <= c < g[r].len() ==> !((#[trigger] g[r][c]) is None)
}

/// A spawned tile: a tile of value two or four.
pub open spec fn spawn_cell_ok(s: BoardCell) -> bool {
    match s {
        Some(c) => c.0 == 2 || c.0 == 4,
        None => false,
    }
}

/// `g2` is `g1` with one formerly empty slot, `(r, c)`, now holding a
/// freshly spawned tile.
pub open spec fn spawned_at(
    g1: Seq<Seq<BoardCell>>,
    g2: Seq<Seq<BoardCell>>,
    r: int,
    c: int,
) -> bool {
    &&& 0 <= r < g1.len()
    &&& 0 <= c < g1[r].len()
    &&& g1[r][c] is None
    &&& spawn_cell_ok(g2[r][c])
    &&& g2 == grid_update(g1, r, c, g2[r][c])
}

/// What spawning a random tile does to a grid: a full grid stays as it is,
/// otherwise exactly one formerly empty slot now holds a spawned tile.
pub open spec fn spawn_outcome(g1: Seq<Seq<BoardCell>>, g2: Seq<Seq<BoardCell>>) -> bool {
    if grid_full(g1) {
        g2 == g1
    } else {
        exists|r: int, c: int| spawned_at(g1, g2, r, c)
    }
}

/// The history after recording `g`: the oldest entry is evicted first when
/// the history is at capacity.
pub open spec fn push_bounded(
    h: Seq<Seq<Seq<BoardCell>>>,
    g: Seq<Seq<BoardCell>>,
) -> Seq<Seq<Seq<BoardCell>>> {
    if h.len() >= HISTORY_SIZE {
        h.skip(1).push(g)
    } else {
        h.push(g)
    }
}

/// What spawning at each coordinate in turn does to a grid: each empty
/// target slot receives a spawned tile, and the first occupied target stops
/// the run with a failure, the earlier spawns keeping their effect.  `ok`
/// tells whether the whole run succeeded.
pub open spec fn spawn_many_trace(
    g1: Seq<Seq<BoardCell>>,
    g2: Seq<Seq<BoardCell>>,
    coords: Seq<Coord>,
    ok: bool,
) -> bool
    decreases coords.len(),
{
    if coords.len() == 0 {
        g2 == g1 && ok
    } else if g1[coords[0].0 as int][coords[0].1 as int] is Some {
        g2 == g1 && !ok
    } else {
        spawn_cell_ok(g2[coords[0].0 as int][coords[0].1 as int]) && spawn_many_trace(
            grid_update(
                g1,
                coords[0].0 as int,
                coords[0].1 as int,
                g2[coords[0].0 as int][coords[0].1 as int],
            ),
            g2,
            coords.skip(1),
            ok,
        )
    }
}

/// A run of spawns never disturbs a slot that is already occupied.
pub proof fn lemma_trace_preserves(
    a: Seq<Seq<BoardCell>>,
    b: Seq<Seq<BoardCell>>,
    cs: Seq<Coord>,
    ok: bool,
    r: int,
    c: int,
)
    requires
        grid_dims_ok(a),
        forall|k: int|
            0 <= k < cs.len() ==> (#[trigger] cs[k]).0 < BOARD_ROWS && cs[k].1 < BOARD_COLS,
        spawn_many_trace(a, b, cs, ok),
        0 <= r < BOARD_ROWS,
        0 <= c < BOARD_COLS,
        a[r][c] is Some,
    ensures
        b[r][c] == a[r][c],
    decreases cs.len(),
{
    if cs.len() == 0 {
    } else if a[cs[0].0 as int][cs[0].1 as int] is Some {
    } else {
        let r0 = cs[0].0 as int;
        let c0 = cs[0].1 as int;
        let mid = grid_update(a, r0, c0, b[r0][c0]);
        assert(mid[r][c] == a[r][c]);
        assert(grid_dims_ok(mid)) by {
            assert(forall|rr: int|
                0 <= rr < mid.len() ==> (#[trigger] mid[rr]).len() == a[rr].len());
        }
        assert(forall|k: int|
            0 <= k < cs.skip(1).len() ==> (#[trigger] cs.skip(1)[k]).0 < BOARD_ROWS && cs.skip(
                1,
            )[k].1 < BOARD_COLS);
        lemma_trace_preserves(mid, b, cs.skip(1), ok, r, c);
    }
}

/// Prepending one successful spawn to a spawn run extends its trace.
pub proof fn lemma_spawn_many_step(
    g1: Seq<Seq<BoardCell>>,
    mid: Seq<Seq<BoardCell>>,
    g2: Seq<Seq<BoardCell>>,
    coords: Seq<Coord>,
    ok: bool,
)
    requires
        grid_dims_ok(g1),
        coords.len() > 0,
        forall|k: int|
            0 <= k < coords.len() ==> (#[trigger] coords[k]).0 < BOARD_ROWS && coords[k].1
                < BOARD_COLS,
        spawned_at(g1, mid, coords[0].0 as int, coords[0].1 as int),
        spawn_many_trace(mid, g2, coords.skip(1), ok),
    ensures
        spawn_many_trace(g1, g2, coords, ok),
{
    let r0 = coords[0].0 as int;
    let c0 = coords[0].1 as int;
    assert(g1[r0][c0] is None);
    assert(mid[r0][c0] is Some);
    assert(grid_dims_ok(mid)) by {
        assert(forall|rr: int| 0 <= rr < mid.len() ==> (#[trigger] mid[rr]).len() == g1[rr].len());
    }
    assert(forall|k: int|
        0 <= k < coords.skip(1).len() ==> (#[trigger] coords.skip(1)[k]).0 < BOARD_ROWS
            && coords.skip(1)[k].1 < BOARD_COLS);
    lemma_trace_preserves(mid, g2, coords.skip(1), ok, r0, c0);
    assert(g2[r0][c0] == mid[r0][c0]);
    assert(mid == grid_update(g1, r0, c0, g2[r0][c0]));
    assert(spawn_cell_ok(g2[r0][c0]));
}

/// What a successful shift toward `dir` does to a board: the reduced grid
/// differs from the old one, the old grid is recorded in the bounded
/// history, and one random tile is spawned into the reduced grid.
pub open spec fn shift_ok(pre: Board, post: Board, dir: Direction) -> bool {
    &&& shifted(pre.grid_v(), dir) != pre.grid_v()
    &&& spawn_outcome(shifted(pre.grid_v(), dir), post.grid_v())
    &&& post.hist_v() == push_bounded(pre.hist_v(), pre.grid_v())
}

/// What a successful undo does to a board: the most recent recorded grid
/// becomes current and leaves the history.
pub open spec fn undo_ok(pre: Board, post: Board) -> bool {
    &&& pre.hist_v().len() > 0
    &&& post.grid_v() == pre.hist_v().last()
    &&& post.hist_v() == pre.hist_v().drop_last()
}

/// The mathematical value of the history: its grids as sequences, oldest
/// first.
pub open spec fn hist_view(h: Vec<BoardGrid>) -> Seq<Seq<Seq<BoardCell>>> {
    Seq::new(h@.len() as nat, |i: int| grid_view(h@[i]))
}

/// Copies one line of slots.
fn clone_line(v: &Vec<BoardCell>) -> (r: Vec<BoardCell>)
    ensures
        r@ == v@,
{
    let mut r: Vec<BoardCell> = Vec::new();
    let mut i: usize = 0;
    while i < v.len()
        invariant
            i <= v.len(),
            r@ == v@.take(i as int),
        decreases v.len() - i,
    {
        r.push(v[i]);
        assert(v@.take(i + 1 as int) =~= v@.take(i as int).push(v@[i as int]));
        i = i + 1;
    }
    assert(v@.take(v@.len() as int) =~= v@);
    r
}

/// Copies a whole grid.
fn clone_grid(g: &BoardGrid) -> (r: BoardGrid)
    ensures
        grid_view(r) == grid_view(*g),
        r@.len() == g@.len(),
{
    let mut r: BoardGrid = Vec::new();
    let mut i: usize = 0;
    while i < g.len()
        invariant
            i <= g.len(),
            r@.len() == i,
            forall|k: int| 0 <= k < i ==> r@[k]@ == #[trigger] g@[k]@,
        decreases g.len() - i,
    {
        r.push(clone_line(&g[i]));
        i = i + 1;
    }
    assert(grid_view(r) =~= grid_view(*g));
    r
}

/// Replaces slot `(r, c)` of the grid.
fn set_cell(g: &mut BoardGrid, r: usize, c: usize, v: BoardCell)
    requires
        r < old(g)@.len(),
        c < old(g)@[r as int]@.len(),
    ensures
        grid_view(*final(g)) == grid_update(grid_view(*old(g)), r as int, c as int, v),
        final(g)@.len() == old(g)@.len(),
{
    let mut row = clone_line(&g[r]);
    row[c] = v;
    g[r] = row;
    assert(grid_view(*g) =~= grid_update(grid_view(*old(g)), r as int, c as int, v));
}

/// The coordinates in row `r`, from column `c` on, whose slot emptiness
/// matches `is_empty`, in column order.
pub open spec fn row_matches_from(
    g: Seq<Seq<BoardCell>>,
    is_empty: bool,
    r: int,
    c: int,
) -> Seq<Coord>
    decreases g[r].len() - c,
{
    if c < 0 || c >= g[r].len() {
        Seq::empty()
    } else {
        let rest = row_matches_from(g, is_empty, r, c + 1);
        if (g[r][c] is None) == is_empty {
            seq![Coord(r as usize, c as usize)] + rest
        } else {
            rest
        }
    }
}

/// The coordinates in column `c`, from row `r` on, whose slot emptiness
/// matches `is_empty`, in row order.
pub open spec fn col_matches_from(
    g: Seq<Seq<BoardCell>>,
    is_empty: bool,
    c: int,
    r: int,
) -> Seq<Coord>
    decreases g.len() - r,
{
    if r < 0 || r >= g.len() {
        Seq::empty()
    } else {
        let rest = col_matches_from(g, is_empty, c, r + 1);
        if (g[r][c] is None) == is_empty {
            seq![Coord(r as usize, c as usize)] + rest
        } else {
            rest
        }
    }
}

/// The matching coordinates of the first `r` rows, in row-major order.
pub open spec fn all_matches_upto(g: Seq<Seq<BoardCell>>, is_empty: bool, r: int) -> Seq<Coord>
    decreases r,
{
    if r <= 0 {
        Seq::empty()
    } else {
        all_matches_upto(g, is_empty, r - 1) + row_matches_from(g, is_empty, r - 1, 0)
    }
}

/// The matching coordinates of the whole grid, in row-major order.
pub open spec fn all_matches(g: Seq<Seq<BoardCell>>, is_empty: bool) -> Seq<Coord> {
    all_matches_upto(g, is_empty, g.len() as int)
}

/// Every coordinate that `row_matches_from` reports lies in row `r`, at a
/// column at least `c`, and matches the requested emptiness.
pub proof fn lemma_row_matches_props(g: Seq<Seq<BoardCell>>, is_empty: bool, r: int, c: int)
    requires
        grid_dims_ok(g),
        0 <= r < g.len(),
        0 <= c,
    ensures
        forall|k: int|
            0 <= k < row_matches_from(g, is_empty, r, c).len() ==> (#[trigger] row_matches_from(
                g,
                is_empty,
                r,
                c,
            )[k]).0 == r && c <= row_matches_from(g, is_empty, r, c)[k].1 < g[r].len() && (g[r][row_matches_from(
                g,
                is_empty,
                r,
                c,
            )[k].1 as int] is None) == is_empty,
    decreases g[r].len() - c,
{
    if c < g[r].len() {
        lemma_row_matches_props(g, is_empty, r, c + 1);
        let s = row_matches_from(g, is_empty, r, c);
        let rest = row_matches_from(g, is_empty, r, c + 1);
        if (g[r][c] is None) == is_empty {
            assert(s == seq![Coord(r as usize, c as usize)] + rest);
        } else {
            assert(s == rest);
        }
        assert forall|k: int| 0 <= k < s.len() implies (#[trigger] s[k]).0 == r && c <= s[k].1
            < g[r].len() && (g[r][s[k].1 as int] is None) == is_empty by {
            if (g[r][c] is None) == is_empty {
                if k == 0 {
                    assert(s[k] == Coord(r as usize, c as usize));
                } else {
                    assert(s[k] == rest[k - 1]);
                }
            } else {
                assert(s[k] == rest[k]);
            }
        }
    }
}

/// Every matching slot of row `r` at a column at least `c` is reported.
pub proof fn lemma_row_matches_complete(
    g: Seq<Seq<BoardCell>>,
    is_empty: bool,
    r: int,
    c: int,
    j: int,
)
    requires
        grid_dims_ok(g),
        0 <= r < g.len(),
        0 <= c <= j < g[r].len(),
        (g[r][j] is None) == is_empty,
    ensures
        row_matches_from(g, is_empty, r, c).contains(Coord(r as usize, j as usize)),
    decreases g[r].len() - c,
{
    let s = row_matches_from(g, is_empty, r, c);
    if c == j {
        assert(s[0] == Coord(r as usize, j as usize));
    } else {
        lemma_row_matches_complete(g, is_empty, r, c + 1, j);
        let rest = row_matches_from(g, is_empty, r, c + 1);
        let k = choose|k: int| 0 <= k < rest.len() && rest[k] == Coord(r as usize, j as usize);
        if (g[r][c] is None) == is_empty {
            assert(s[k + 1] == Coord(r as usize, j as usize));
        } else {
            assert(s[k] == Coord(r as usize, j as usize));
        }
    }
}

/// Every coordinate that `col_matches_from` reports lies in column `c`, at a
/// row at least `r`, and matches the requested emptiness.
pub proof fn lemma_col_matches_props(g: Seq<Seq<BoardCell>>, is_empty: bool, c: int, r: int)
    requires
        grid_dims_ok(g),
        0 <= c < BOARD_COLS,
        0 <= r,
    ensures
        forall|k: int|
            0 <= k < col_matches_from(g, is_empty, c, r).len() ==> (#[trigger] col_matches_from(
                g,
                is_empty,
                c,
                r,
            )[k]).1 == c && r <= col_matches_from(g, is_empty, c, r)[k].0 < g.len() && (g[col_matches_from(
                g,
                is_empty,
                c,
                r,
            )[k].0 as int][c] is None) == is_empty,
    decreases g.len() - r,
{
    if r < g.len() {
        lemma_col_matches_props(g, is_empty, c, r + 1);
        let s = col_matches_from(g, is_empty, c, r);
        let rest = col_matches_from(g, is_empty, c, r + 1);
        if (g[r][c] is None) == is_empty {
            assert(s == seq![Coord(r as usize, c as usize)] + rest);
        } else {
            assert(s == rest);
        }
        assert forall|k: int| 0 <= k < s.len() implies (#[trigger] s[k]).1 == c && r <= s[k].0
            < g.len() && (g[s[k].0 as int][c] is None) == is_empty by {
            if (g[r][c] is None) == is_empty {
                if k == 0 {
                    assert(s[k] == Coord(r as usize, c as usize));
                } else {
                    assert(s[k] == rest[k - 1]);
                }
            } else {
                assert(s[k] == rest[k]);
            }
        }
    }
}

/// Every coordinate that `all_matches_upto` reports lies in the first `r`
/// rows and matches the requested emptiness.
pub proof fn lemma_all_matches_props(g: Seq<Seq<BoardCell>>, is_empty: bool, r: int)
    requires
        grid_dims_ok(g),
        r <= g.len(),
    ensures
        forall|k: int|
            0 <= k < all_matches_upto(g, is_empty, r).len() ==> 0 <= (#[trigger] all_matches_upto(
                g,
                is_empty,
                r,
            )[k]).0 < r && 0 <= all_matches_upto(g, is_empty, r)[k].1 < g[all_matches_upto(
                g,
                is_empty,
                r,
            )[k].0 as int].len() && (g[all_matches_upto(g, is_empty, r)[k].0 as int][all_matches_upto(
                g,
                is_empty,
                r,
            )[k].1 as int] is None) == is_empty,
    decreases r,
{
    if r > 0 {
        lemma_all_matches_props(g, is_empty, r - 1);
        lemma_row_matches_props(g, is_empty, r - 1, 0);
        let s = all_matches_upto(g, is_empty, r);
        let head = all_matches_upto(g, is_empty, r - 1);
        let tail = row_matches_from(g, is_empty, r - 1, 0);
        assert(s == head + tail);
        assert forall|k: int| 0 <= k < s.len() implies 0 <= (#[trigger] s[k]).0 < r && 0 <= s[k].1
            < g[s[k].0 as int].len() && (g[s[k].0 as int][s[k].1 as int] is None) == is_empty by {
            if k < head.len() {
                assert(s[k] == head[k]);
            } else {
                assert(s[k] == tail[k - head.len()]);
            }
        }
    }
}

/// Every matching slot of the first `r` rows is reported.
pub proof fn lemma_all_matches_complete(
    g: Seq<Seq<BoardCell>>,
    is_empty: bool,
    r: int,
    jr: int,
    jc: int,
)
    requires
        grid_dims_ok(g),
        r <= g.len(),
        0 <= jr < r,
        0 <= jc < g[jr].len(),
        (g[jr][jc] is None) == is_empty,
    ensures
        all_matches_upto(g, is_empty, r).contains(Coord(jr as usize, jc as usize)),
    decreases r,
{
    let q = Coord(jr as usize, jc as usize);
    let s = all_matches_upto(g, is_empty, r);
    let head = all_matches_upto(g, is_empty, r - 1);
    let tail = row_matches_from(g, is_empty, r - 1, 0);
    if jr == r - 1 {
        lemma_row_matches_complete(g, is_empty, jr, 0, jc);
        let k = choose|k: int| 0 <= k < tail.len() && tail[k] == q;
        assert(s[head.len() + k] == q);
    } else {
        lemma_all_matches_complete(g, is_empty, r - 1, jr, jc);
        let k = choose|k: int| 0 <= k < head.len() && head[k] == q;
        assert(s[k] == q);
    }
}

/// How many lines a shift toward `dir` reduces: one per row for a
/// horizontal shift, one per column for a vertical one.
pub open spec fn line_count(dir: Direction) -> int {
    match dir {
        Direction::Left | Direction::Right => BOARD_ROWS as int,
        Direction::Up | Direction::Down => BOARD_COLS as int,
    }
}

/// Line `idx` of the grid as a shift toward `dir` sees it, oriented so that
/// index 0 is the edge the tiles are compacted toward.
pub open spec fn line_of(g: Seq<Seq<BoardCell>>, dir: Direction, idx: int) -> Seq<BoardCell> {
    match dir {
        Direction::Left => g[idx],
        Direction::Right => g[idx].reverse(),
        Direction::Up => column(g, idx),
        Direction::Down => column(g, idx).reverse(),
    }
}

/// The grid with oriented line `idx` replaced by `l`.
pub open spec fn with_line(
    g: Seq<Seq<BoardCell>>,
    dir: Direction,
    idx: int,
    l: Seq<BoardCell>,
) -> Seq<Seq<BoardCell>> {
    match dir {
        Direction::Left => g.update(idx, l),
        Direction::Right => g.update(idx, l.reverse()),
        Direction::Up => Seq::new(g.len(), |r: int| g[r].update(idx, l[r])),
        Direction::Down => Seq::new(g.len(), |r: int| g[r].update(idx, l.reverse()[r])),
    }
}

/// The grid after the first `n` lines of a shift toward `dir` have been
/// reduced; each line is read from the original grid, the lines being
/// disjoint.
pub open spec fn shift_lines_upto(g: Seq<Seq<BoardCell>>, dir: Direction, n: int) -> Seq<
    Seq<BoardCell>,
>
    decreases n,
{
    if n <= 0 {
        g
    } else {
        with_line(shift_lines_upto(g, dir, n - 1), dir, n - 1, reduced(line_of(g, dir, n - 1)))
    }
}

/// The grid after a shift toward `dir`, before any tile is spawned: every
/// row or column reduced toward the commanded edge.
pub open spec fn shifted(g: Seq<Seq<BoardCell>>, dir: Direction) -> Seq<Seq<BoardCell>> {
    shift_lines_upto(g, dir, line_count(dir))
}

/// Replacing an oriented line of the right length keeps the dimensions.
pub proof fn lemma_with_line_dims(g: Seq<Seq<BoardCell>>, dir: Direction, idx: int, l: Seq<
    BoardCell,
>)
    requires
        grid_dims_ok(g),
        0 <= idx < line_count(dir),
        l.len() == 4,
    ensures
        grid_dims_ok(with_line(g, dir, idx, l)),
{
    let g2 = with_line(g, dir, idx, l);
    assert forall|r: int| 0 <= r < g2.len() implies (#[trigger] g2[r]).len() == BOARD_COLS by {
        match dir {
            Direction::Left | Direction::Right => {
                if r != idx {
                    assert(g2[r] == g[r]);
                }
            },
            Direction::Up | Direction::Down => {
                assert(g2[r].len() == g[r].update(idx, g2[r][idx]).len());
            },
        }
    }
}

/// Reading back the line just written yields that line.
pub proof fn lemma_with_line_read(g: Seq<Seq<BoardCell>>, dir: Direction, idx: int, l: Seq<
    BoardCell,
>)
    requires
        grid_dims_ok(g),
        0 <= idx < line_count(dir),
        l.len() == 4,
    ensures
        line_of(with_line(g, dir, idx, l), dir, idx) == l,
{
    let g2 = with_line(g, dir, idx, l);
    match dir {
        Direction::Left => {
            assert(line_of(g2, dir, idx) == l);
        },
        Direction::Right => {
            assert(l.reverse().reverse() =~= l);
        },
        Direction::Up => {
            assert(column(g2, idx) =~= l);
        },
        Direction::Down => {
            assert(column(g2, idx) =~= l.reverse());
            assert(l.reverse().reverse() =~= l);
        },
    }
}

/// Writing one oriented line leaves every other line of the same
/// orientation as it was.
pub proof fn lemma_with_line_other(
    g: Seq<Seq<BoardCell>>,
    dir: Direction,
    idx: int,
    l: Seq<BoardCell>,
    j: int,
)
    requires
        grid_dims_ok(g),
        0 <= idx < line_count(dir),
        0 <= j < line_count(dir),
        j != idx,
        l.len() == 4,
    ensures
        line_of(with_line(g, dir, idx, l), dir, j) == line_of(g, dir, j),
{
    let g2 = with_line(g, dir, idx, l);
    match dir {
        Direction::Left => {
            assert(g2[j] == g[j]);
        },
        Direction::Right => {
            assert(g2[j] == g[j]);
        },
        Direction::Up => {
            assert(column(g2, j) =~= column(g, j));
        },
        Direction::Down => {
            assert(column(g2, j) =~= column(g, j));
        },
    }
}

/// Writing back the line a grid already holds changes nothing.
pub proof fn lemma_with_line_same(g: Seq<Seq<BoardCell>>, dir: Direction, idx: int)
    requires
        grid_dims_ok(g),
        0 <= idx < line_count(dir),
    ensures
        with_line(g, dir, idx, line_of(g, dir, idx)) == g,
{
    let g2 = with_line(g, dir, idx, line_of(g, dir, idx));
    match dir {
        Direction::Left => {
            assert(g2 =~= g);
        },
        Direction::Right => {
            assert(g[idx].reverse().reverse() =~= g[idx]);
            assert(g2 =~= g);
        },
        Direction::Up => {
            assert forall|r: int| 0 <= r < g.len() implies #[trigger] g2[r] =~= g[r] by {
                assert(column(g, idx)[r] == g[r][idx]);
            }
            assert(g2 =~= g);
        },
        Direction::Down => {
            assert forall|r: int| 0 <= r < g.len() implies #[trigger] g2[r] =~= g[r] by {
                assert(column(g, idx).reverse().reverse() =~= column(g, idx));
                assert(column(g, idx)[r] == g[r][idx]);
            }
            assert(g2 =~= g);
        },
    }
}

/// An oriented line of a well-formed grid is well formed and four slots
/// long.
pub proof fn lemma_line_of_wf(g: Seq<Seq<BoardCell>>, dir: Direction, idx: int)
    requires
        grid_wf(g),
        0 <= idx < line_count(dir),
    ensures
        line_wf(line_of(g, dir, idx)),
        line_of(g, dir, idx).len() == 4,
{
    let l = line_of(g, dir, idx);
    assert forall|i: int| 0 <= i < l.len() implies slot_wf(#[trigger] l[i]) by {
        match dir {
            Direction::Left => {
                assert(slot_wf(g[idx][i]));
            },
            Direction::Right => {
                assert(l[i] == g[idx][l.len() - 1 - i]);
                assert(slot_wf(g[idx][l.len() - 1 - i]));
            },
            Direction::Up => {
                assert(l[i] == g[i][idx]);
                assert(slot_wf(g[i][idx]));
            },
            Direction::Down => {
                let n = column(g, idx).len();
                assert(l[i] == column(g, idx)[n - 1 - i]);
                assert(l[i] == g[n - 1 - i][idx]);
                assert(slot_wf(g[n - 1 - i][idx]));
            },
        }
    }
}

/// Replacing an oriented line by a well-formed one keeps the grid well
/// formed.
pub proof fn lemma_with_line_wf(g: Seq<Seq<BoardCell>>, dir: Direction, idx: int, l: Seq<
    BoardCell,
>)
    requires
        grid_wf(g),
        0 <= idx < line_count(dir),
        line_wf(l),
        l.len() == 4,
    ensures
        grid_wf(with_line(g, dir, idx, l)),
{
    let g2 = with_line(g, dir, idx, l);
    lemma_with_line_dims(g, dir, idx, l);
    assert forall|r: int| 0 <= r < g2.len() implies line_wf(#[trigger] g2[r]) by {
        match dir {
            Direction::Left => {
                if r != idx {
                    assert(g2[r] == g[r]);
                } else {
                    assert(g2[r] == l);
                }
            },
            Direction::Right => {
                if r != idx {
                    assert(g2[r] == g[r]);
                } else {
                    assert(g2[r] == l.reverse());
                    assert forall|i: int| 0 <= i < l.reverse().len() implies slot_wf(
                        #[trigger] l.reverse()[i],
                    ) by {
                        assert(l.reverse()[i] == l[l.len() - 1 - i]);
                    }
                }
            },
            Direction::Up => {
                assert(g2[r] == g[r].update(idx, l[r]));
                assert(slot_wf(l[r]));
                assert(forall|i: int| 0 <= i < g2[r].len() ==> slot_wf(#[trigger] g2[r][i]));
            },
            Direction::Down => {
                assert(g2[r] == g[r].update(idx, l.reverse()[r]));
                assert(l.reverse()[r] == l[l.len() - 1 - r]);
                assert(slot_wf(l.reverse()[r]));
                assert(forall|i: int| 0 <= i < g2[r].len() ==> slot_wf(#[trigger] g2[r][i]));
            },
        }
    }
}

/// A partly shifted grid keeps the dimensions.
pub proof fn lemma_shift_upto_dims(g: Seq<Seq<BoardCell>>, dir: Direction, n: int)
    requires
        grid_dims_ok(g),
        n <= line_count(dir),
    ensures
        grid_dims_ok(shift_lines_upto(g, dir, n)),
    decreases n,
{
    if n > 0 {
        lemma_shift_upto_dims(g, dir, n - 1);
        let prev = shift_lines_upto(g, dir, n - 1);
        let l = reduced(line_of(g, dir, n - 1));
        assert(l.len() == line_of(g, dir, n - 1).len());
        match dir {
            Direction::Left => {
                assert(l.len() == 4);
            },
            Direction::Right => {
                assert(l.len() == 4);
            },
            Direction::Up => {
                assert(l.len() == column(g, n - 1).len());
            },
            Direction::Down => {
                assert(l.len() == column(g, n - 1).len());
            },
        }
        lemma_with_line_dims(prev, dir, n - 1, l);
    }
}

/// Lines not yet reduced by a partial shift read as they do in the original
/// grid.
pub proof fn lemma_shift_upto_untouched(g: Seq<Seq<BoardCell>>, dir: Direction, n: int, j: int)
    requires
        grid_dims_ok(g),
        0 <= n <= j < line_count(dir),
    ensures
        line_of(shift_lines_upto(g, dir, n), dir, j) == line_of(g, dir, j),
    decreases n,
{
    if n > 0 {
        lemma_shift_upto_untouched(g, dir, n - 1, j);
        lemma_shift_upto_dims(g, dir, n - 1);
        let prev = shift_lines_upto(g, dir, n - 1);
        let l = reduced(line_of(g, dir, n - 1));
        assert(l.len() == line_of(g, dir, n - 1).len());
        lemma_line_of_len(g, dir, n - 1);
        lemma_with_line_other(prev, dir, n - 1, l, j);
    }
}

/// An oriented line of a grid with the right dimensions is four slots long.
pub proof fn lemma_line_of_len(g: Seq<Seq<BoardCell>>, dir: Direction, idx: int)
    requires
        grid_dims_ok(g),
        0 <= idx < line_count(dir),
    ensures
        line_of(g, dir, idx).len() == 4,
{
}

/// A partly shifted well-formed grid stays well formed when every reduced
/// line fits.
pub proof fn lemma_shift_upto_wf(g: Seq<Seq<BoardCell>>, dir: Direction, n: int)
    requires
        grid_wf(g),
        n <= line_count(dir),
        forall|idx: int| 0 <= idx < line_count(dir) ==> line_fits(#[trigger] line_of(g, dir, idx)),
    ensures
        grid_wf(shift_lines_upto(g, dir, n)),
    decreases n,
{
    if n > 0 {
        lemma_shift_upto_wf(g, dir, n - 1);
        let prev = shift_lines_upto(g, dir, n - 1);
        let src = line_of(g, dir, n - 1);
        lemma_line_of_wf(g, dir, n - 1);
        crate::line::lemma_reduced_wf(src);
        lemma_with_line_wf(prev, dir, n - 1, reduced(src));
    }
}

/// A single slot update by a well-formed slot keeps the grid well formed.
pub proof fn lemma_grid_update_wf(g: Seq<Seq<BoardCell>>, r: int, c: int, v: BoardCell)
    requires
        grid_wf(g),
        0 <= r < g.len(),
        0 <= c < g[r].len(),
        slot_wf(v),
    ensures
        grid_wf(grid_update(g, r, c, v)),
{
    let g2 = grid_update(g, r, c, v);
    assert forall|i: int| 0 <= i < g2.len() implies line_wf(#[trigger] g2[i]) by {
        if i == r {
            assert(forall|j: int| 0 <= j < g2[i].len() ==> slot_wf(#[trigger] g2[i][j]));
        }
    }
}

/// The characters that one slot prints as: `0` for an empty slot, the
/// decimal value otherwise.
pub open spec fn slot_chars(s: BoardCell) -> Seq<char> {
    match s {
        Some(c) => decimal_digits(c.0 as nat),
        None => seq!['0'],
    }
}

/// The characters of the first `n` slots of a row, space separated.
pub open spec fn row_chars_upto(row: Seq<BoardCell>, n: int) -> Seq<char>
    decreases n,
{
    if n <= 0 {
        Seq::empty()
    } else if n == 1 {
        slot_chars(row[0])
    } else {
        row_chars_upto(row, n - 1) + seq![' '] + slot_chars(row[n - 1])
    }
}

/// The characters of the first `n` rows of a grid, newline separated.
pub open spec fn grid_chars_upto(g: Seq<Seq<BoardCell>>, n: int) -> Seq<char>
    decreases n,
{
    if n <= 0 {
        Seq::empty()
    } else if n == 1 {
        row_chars_upto(g[0], g[0].len() as int)
    } else {
        grid_chars_upto(g, n - 1) + seq!['\n'] + row_chars_upto(g[n - 1], g[n - 1].len() as int)
    }
}

/// The printable form of a grid: rows separated by newlines, slots by
/// spaces, each slot its value in decimal, 0 when empty.
pub open spec fn rendered(g: Seq<Seq<BoardCell>>) -> Seq<char> {
    grid_chars_upto(g, g.len() as int)
}

/// How many empty slots the grid has.
pub open spec fn empty_count(g: Seq<Seq<BoardCell>>) -> nat {
    all_matches(g, true).len()
}

/// The matching coordinates of a row depend on that row alone.
pub proof fn lemma_row_matches_same(
    g1: Seq<Seq<BoardCell>>,
    g2: Seq<Seq<BoardCell>>,
    is_empty: bool,
    r: int,
    c: int,
)
    requires
        0 <= r < g1.len(),
        0 <= r < g2.len(),
        g1[r] == g2[r],
    ensures
        row_matches_from(g1, is_empty, r, c) == row_matches_from(g2, is_empty, r, c),
    decreases g1[r].len() - c,
{
    if 0 <= c < g1[r].len() {
        lemma_row_matches_same(g1, g2, is_empty, r, c + 1);
    }
}

/// Filling one empty slot of a row removes exactly that slot from the
/// row's empty-slot report.
pub proof fn lemma_row_fill_count(
    g1: Seq<Seq<BoardCell>>,
    g2: Seq<Seq<BoardCell>>,
    r: int,
    c: int,
    cc: int,
)
    requires
        0 <= r < g1.len(),
        0 <= r < g2.len(),
        0 <= c < g1[r].len(),
        0 <= cc,
        g1[r][c] is None,
        g2[r] == g1[r].update(c, g2[r][c]),
        g2[r][c] is Some,
    ensures
        row_matches_from(g2, true, r, cc).len() == row_matches_from(g1, true, r, cc).len() - (
        if cc <= c {
            1int
        } else {
            0int
        }),
    decreases g1[r].len() - cc,
{
    if 0 <= cc < g1[r].len() {
        lemma_row_fill_count(g1, g2, r, c, cc + 1);
        assert(g2[r].len() == g1[r].len());
        if cc != c {
            assert(g2[r][cc] == g1[r][cc]);
        }
    } else {
        assert(g2[r].len() == g1[r].len());
    }
}

/// Filling one empty slot lowers the grid-wide empty-slot report by one.
pub proof fn lemma_all_matches_fill_count(
    g1: Seq<Seq<BoardCell>>,
    g2: Seq<Seq<BoardCell>>,
    r: int,
    c: int,
    n: int,
)
    requires
        g1.len() == g2.len(),
        0 <= r < g1.len(),
        0 <= c < g1[r].len(),
        n <= g1.len(),
        g1[r][c] is None,
        g2[r] == g1[r].update(c, g2[r][c]),
        g2[r][c] is Some,
        forall|rr: int| 0 <= rr < g1.len() && rr != r ==> #[trigger] g2[rr] == g1[rr],
    ensures
        all_matches_upto(g2, true, n).len() == all_matches_upto(g1, true, n).len() - (if r < n {
            1int
        } else {
            0int
        }),
    decreases n,
{
    if n > 0 {
        lemma_all_matches_fill_count(g1, g2, r, c, n - 1);
        if n - 1 == r {
            lemma_row_fill_count(g1, g2, r, c, 0);
        } else {
            lemma_row_matches_same(g1, g2, true, n - 1, 0);
        }
    }
}

/// Spawning a tile fills exactly one empty slot: the number of empty slots
/// drops by one.
pub proof fn lemma_spawn_decreases_empties(
    g1: Seq<Seq<BoardCell>>,
    g2: Seq<Seq<BoardCell>>,
    r: int,
    c: int,
)
    requires
        grid_dims_ok(g1),
        spawned_at(g1, g2, r, c),
    ensures
        empty_count(g2) == empty_count(g1) - 1,
{
    assert(g2 == grid_update(g1, r, c, g2[r][c]));
    assert(g2.len() == g1.len());
    assert(g2[r] == g1[r].update(c, g2[r][c]));
    assert(forall|rr: int| 0 <= rr < g1.len() && rr != r ==> #[trigger] g2[rr] == g1[rr]);
    lemma_all_matches_fill_count(g1, g2, r, c, g1.len() as int);
}

/// A grid is full exactly when it has no empty slot.
pub proof fn lemma_full_iff_no_empties(g: Seq<Seq<BoardCell>>)
    requires
        grid_dims_ok(g),
    ensures
        grid_full(g) <==> empty_count(g) == 0,
{
    if empty_count(g) > 0 {
        lemma_all_matches_props(g, true, g.len() as int);
        let q = all_matches(g, true)[0];
        assert(g[q.0 as int][q.1 as int] is None);
        assert(!grid_full(g));
    }
    if !grid_full(g) {
        let (rr, cc) = choose|rr: int, cc: int|
            0 <= rr < g.len() && 0 <= cc < g[rr].len() && (#[trigger] g[rr][cc]) is None;
        lemma_all_matches_complete(g, true, g.len() as int, rr, cc);
        assert(empty_count(g) > 0);
    }
}

/// Undoing right after a successful shift restores exactly the grid from
/// before the shift: the shift records that grid as the newest history
/// entry, and the undo pops the newest entry.
pub proof fn lemma_undo_round_trip(pre: Board, mid: Board, post: Board, dir: Direction)
    requires
        shift_ok(pre, mid, dir),
        undo_ok(mid, post),
    ensures
        post.grid_v() == pre.grid_v(),
{
    assert(push_bounded(pre.hist_v(), pre.grid_v()).last() == pre.grid_v());
}

/// A successful shift always leaves at least one history entry, so the
/// undo that follows it cannot fail.
pub proof fn lemma_shift_enables_undo(pre: Board, mid: Board, dir: Direction)
    requires
        shift_ok(pre, mid, dir),
    ensures
        mid.hist_v().len() > 0,
{
}

/// The history of a well-formed board never holds more than `HISTORY_SIZE`
/// grids, however many moves were made: recording a grid in a full history
/// evicts the oldest entry first.
pub proof fn lemma_history_bounded(b: Board)
    requires
        b.wf(),
    ensures
        b.hist_v().len() <= HISTORY_SIZE,
        forall|g: Seq<Seq<BoardCell>>| #[trigger] push_bounded(b.hist_v(), g).len() <= HISTORY_SIZE,
{
}

/// Decides whether a grid has the right dimensions and only well-formed
/// slots.
fn grid_is_wf(g: &BoardGrid) -> (b: bool)
    ensures
        b == grid_wf(grid_view(*g)),
{
    let gv = g;
    if g.len() != BOARD_ROWS {
        return false;
    }
    let mut r: usize = 0;
    while r < BOARD_ROWS
        invariant
            r <= BOARD_ROWS,
            g@.len() == BOARD_ROWS,
            forall|rr: int|
                0 <= rr < r ==> (#[trigger] grid_view(*g)[rr]).len() == BOARD_COLS && line_wf(
                    grid_view(*g)[rr],
                ),
        decreases BOARD_ROWS - r,
    {
        proof {
            assert(grid_view(*g)[r as int] == g@[r as int]@);
        }
        if g[r].len() != BOARD_COLS {
            proof {
                assert(!grid_dims_ok(grid_view(*g)));
            }
            return false;
        }
        let mut c: usize = 0;
        while c < BOARD_COLS
            invariant
                c <= BOARD_COLS,
                r < BOARD_ROWS,
                g@.len() == BOARD_ROWS,
                g@[r as int]@.len() == BOARD_COLS,
                forall|cc: int| 0 <= cc < c ==> slot_wf(#[trigger] grid_view(*g)[r as int][cc]),
            decreases BOARD_COLS - c,
        {
            proof {
                assert(grid_view(*g)[r as int] == g@[r as int]@);
            }
            match g[r][c] {
                Some(cell) => {
                    if !crate::cell::is_valid_value(cell.value()) {
                        proof {
                            assert(!slot_wf(grid_view(*g)[r as int][c as int]));
                            assert(!line_wf(grid_view(*g)[r as int]));
                        }
                        return false;
                    }
                },
                None => {},
            }
            c = c + 1;
        }
        r = r + 1;
    }
    true
}

/// Decides whether reducing this line would keep every merged value within
/// `usize`.
fn line_fits_check(line: &Vec<BoardCell>) -> (b: bool)
    ensures
        b == line_fits(line@),
{
    let mut pending: Option<usize> = None;
    let mut i: usize = 0;
    while i < line.len()
        invariant
            i <= line.len(),
            line_fits(line@) == merge_pass_fits(pending, line_values_from(line@, i as int)),
        decreases line.len() - i,
    {
        let slot = line[i];
        match slot {
            Some(c) => {
                let v = c.value();
                proof {
                    let rest = line_values_from(line@, i + 1);
                    assert(line_values_from(line@, i as int) == seq![v] + rest);
                    lemma_merge_pass_fits_cons(pending, v, rest);
                }
                match pending {
                    Some(p) => {
                        if p == v {
                            if p > usize::MAX / 2 {
                                return false;
                            }
                            pending = None;
                        } else {
                            pending = Some(v);
                        }
                    },
                    None => {
                        pending = Some(v);
                    },
                }
            },
            None => {},
        }
        i = i + 1;
    }
    proof {
        assert(line_values_from(line@, line@.len() as int) == Seq::<usize>::empty());
    }
    true
}

/// Replaces oriented line `idx` of the grid by `line`.
fn put_line(g: &mut BoardGrid, dir: Direction, idx: usize, line: &Vec<BoardCell>)
    requires
        grid_dims_ok(grid_view(*old(g))),
        idx < line_count(dir),
        line@.len() == 4,
    ensures
        grid_view(*final(g)) == with_line(grid_view(*old(g)), dir, idx as int, line@),
{
    let ghost g0 = grid_view(*old(g));
    match dir {
        Direction::Left => {
            let row = clone_line(line);
            g[idx] = row;
            assert(grid_view(*g) =~= with_line(g0, dir, idx as int, line@));
        },
        Direction::Right => {
            let mut row: Vec<BoardCell> = Vec::new();
            let mut c: usize = 0;
            while c < BOARD_COLS
                invariant
                    c <= BOARD_COLS,
                    line@.len() == 4,
                    row@.len() == c,
                    forall|j: int| 0 <= j < c ==> row@[j] == line@[line@.len() - 1 - j],
                decreases BOARD_COLS - c,
            {
                row.push(line[BOARD_COLS - 1 - c]);
                c = c + 1;
            }
            assert(row@ =~= line@.reverse());
            g[idx] = row;
            assert(grid_view(*g) =~= with_line(g0, dir, idx as int, line@));
        },
        Direction::Up => {
            let mut r: usize = 0;
            while r < BOARD_ROWS
                invariant
                    r <= BOARD_ROWS,
                    line@.len() == 4,
                    idx < BOARD_COLS,
                    grid_dims_ok(g0),
                    grid_view(*g).len() == g0.len(),
                    forall|rr: int|
                        0 <= rr < g0.len() ==> #[trigger] grid_view(*g)[rr] == if rr < r {
                            g0[rr].update(idx as int, line@[rr])
                        } else {
                            g0[rr]
                        },
                decreases BOARD_ROWS - r,
            {
                proof {
                    assert(grid_view(*g)[r as int] == g@[r as int]@);
                    assert(grid_view(*g)[r as int] == g0[r as int]);
                }
                set_cell(g, r, idx, line[r]);
                r = r + 1;
            }
            assert(grid_view(*g) =~= with_line(g0, dir, idx as int, line@));
        },
        Direction::Down => {
            let mut r: usize = 0;
            while r < BOARD_ROWS
                invariant
                    r <= BOARD_ROWS,
                    line@.len() == 4,
                    idx < BOARD_COLS,
                    grid_dims_ok(g0),
                    grid_view(*g).len() == g0.len(),
                    forall|rr: int|
                        0 <= rr < g0.len() ==> #[trigger] grid_view(*g)[rr] == if rr < r {
                            g0[rr].update(idx as int, line@[line@.len() - 1 - rr])
                        } else {
                            g0[rr]
                        },
                decreases BOARD_ROWS - r,
            {
                proof {
                    assert(grid_view(*g)[r as int] == g@[r as int]@);
                    assert(grid_view(*g)[r as int] == g0[r as int]);
                }
                set_cell(g, r, idx, line[BOARD_ROWS - 1 - r]);
                r = r + 1;
            }
            assert forall|rr: int| 0 <= rr < g0.len() implies #[trigger] grid_view(*g)[rr]
                == with_line(g0, dir, idx as int, line@)[rr] by {
                assert(line@.reverse()[rr] == line@[line@.len() - 1 - rr]);
            }
            assert(grid_view(*g) =~= with_line(g0, dir, idx as int, line@));
        },
    }
}

/// Exec equality of two slots.
fn slot_eq(a: &BoardCell, b: &BoardCell) -> (r: bool)
    ensures
        r == (*a == *b),
{
    match (a, b) {
        (None, None) => true,
        (Some(x), Some(y)) => x.0 == y.0,
        _ => false,
    }
}

/// The value of the pending reference that `get_mergeable` carries.
pub open spec fn pend_view(p: Option<(usize, usize)>) -> Option<(int, usize)> {
    match p {
        Some(q) => Some((q.0 as int, q.1)),
        None => None,
    }
}

/// The pairs of a pair list as mathematical integers.
pub open spec fn pairs_view(r: Seq<(usize, usize)>) -> Seq<(int, int)> {
    r.map_values(|p: (usize, usize)| (p.0 as int, p.1 as int))
}

/// The representation of a game board.
pub struct Board {
    /// The grid containing the cells of the board.
    grid: BoardGrid,
    /// The saved, past states of the board that undo can restore.
    history: Vec<BoardGrid>,
}

impl Board {
    /// The mathematical value of the current grid.
    pub closed spec fn grid_v(&self) -> Seq<Seq<BoardCell>> {
        grid_view(self.grid)
    }

    /// The mathematical value of the undo history, oldest first.
    pub closed spec fn hist_v(&self) -> Seq<Seq<Seq<BoardCell>>> {
        hist_view(self.history)
    }

    /// A well-formed board: a well-formed grid, and a bounded history of
    /// well-formed grids.
    pub closed spec fn wf(&self) -> bool {
        &&& grid_wf(self.grid_v())
        &&& self.hist_v().len() <= HISTORY_SIZE
        &&& forall|k: int| 0 <= k < self.hist_v().len() ==> grid_wf(#[trigger] self.hist_v()[k])
    }

    /// The slot at the given position.
    pub fn cell_at(&self, row: usize, col: usize) -> (s: Option<Cell>)
        requires
            row < self.grid_v().len(),
            col < self.grid_v()[row as int].len(),
        ensures
            s == self.grid_v()[row as int][col as int],
    {
        self.grid[row][col]
    }

    /// How many past grids the history currently holds.
    pub fn history_len(&self) -> (n: usize)
        ensures
            n == self.hist_v().len(),
    {
        self.history.len()
    }
}

/// Create an empty grid and an empty history.
impl Default for Board {
    fn default() -> (b: Self)
        ensures
            b.wf(),
            b.grid_v() == empty_grid(),
            b.hist_v().len() == 0,
    {
        let mut grid: BoardGrid = Vec::new();
        let mut r: usize = 0;
        while r < BOARD_ROWS
            invariant
                r <= BOARD_ROWS,
                grid@.len() == r,
                forall|i: int| 0 <= i < r ==> #[trigger] grid@[i]@ == empty_grid()[i],
            decreases BOARD_ROWS - r,
        {
            let mut row: Vec<BoardCell> = Vec::new();
            let mut c: usize = 0;
            while c < BOARD_COLS
                invariant
                    c <= BOARD_COLS,
                    row@.len() == c,
                    forall|j: int| 0 <= j < c ==> #[trigger] row@[j] is None,
                decreases BOARD_COLS - c,
            {
                row.push(None);
                c = c + 1;
            }
            assert(row@ =~= empty_grid()[r as int]);
            grid.push(row);
            r = r + 1;
        }
        let b = Board { grid, history: Vec::new() };
        assert(b.grid_v() =~= empty_grid());
        assert(b.hist_v() =~= Seq::<Seq<Seq<BoardCell>>>::empty());
        b
    }
}

impl Board {
    /// Finds the index pairs that one merge pass combines: scanning toward
    /// the far end, each occupied slot either pairs with the last unpaired
    /// occupied slot of equal value or becomes the new unpaired slot.
    pub fn get_mergeable(cells: &Vec<BoardCell>) -> (r: Vec<(usize, usize)>)
        ensures
            pairs_view(r@) == mergeable_pairs(cells@),
    {
        let mut result: Vec<(usize, usize)> = Vec::new();
        let mut pending: Option<(usize, usize)> = None;
        let mut idx: usize = 0;

        while idx < cells.len()
            invariant
                idx <= cells.len(),
                mergeable_pairs(cells@) == pairs_view(result@) + merge_pairs(
                    cells@,
                    idx as int,
                    pend_view(pending),
                ),
            decreases cells.len() - idx,
        {
            let slot = cells[idx];
            match slot {
                Some(c) => {
                    let val = c.value();
                    match pending {
                        Some(p) => {
                            if val == p.1 {
                                proof {
                                    let rest = merge_pairs(cells@, idx + 1, None);
                                    assert(merge_pairs(cells@, idx as int, pend_view(pending))
                                        == seq![(p.0 as int, idx as int)] + rest);
                                    assert(pairs_view(result@.push((p.0, idx))) =~= pairs_view(
                                        result@,
                                    ).push((p.0 as int, idx as int)));
                                    assert(pairs_view(result@) + (seq![(p.0 as int, idx as int)]
                                        + rest) =~= pairs_view(result@).push(
                                        (p.0 as int, idx as int),
                                    ) + rest);
                                }
                                result.push((p.0, idx));
                                pending = None;
                            } else {
                                pending = Some((idx, val));
                            }
                        },
                        None => {
                            pending = Some((idx, val));
                        },
                    }
                },
                None => {},
            }
            idx = idx + 1;
        }

        proof {
            assert(merge_pairs(cells@, cells@.len() as int, pend_view(pending))
                == Seq::<(int, int)>::empty());
            assert(pairs_view(result@) + Seq::<(int, int)>::empty() =~= pairs_view(result@));
        }
        result
    }

    /// Attempts to reduce a group of slots toward its beginning: merges
    /// equal-valued neighbors pairwise, at most once per slot, compacts the
    /// survivors to the start, and reports the new group, or nothing when
    /// neither a merge nor a move of any tile was possible.
    ///
    /// # Arguments
    /// * `cells` - the group of `BoardCell`s to be shifted
    pub fn shift_group(cells: Vec<BoardCell>) -> (r: Option<Vec<BoardCell>>)
        requires
            line_fits(cells@),
        ensures
            match r {
                Some(v) => v@ == reduced(cells@) && reduced(cells@) != cells@,
                None => reduced(cells@) == cells@,
            },
    {
        /* merge pass: collect the merged values of the occupied slots */

        let mut vals: Vec<usize> = Vec::new();
        let mut pending: Option<usize> = None;
        let mut i: usize = 0;

        proof {
            assert(vals@ + merge_pass(None, line_values_from(cells@, 0)) =~= merge_pass(
                None,
                line_values(cells@),
            ));
        }

        while i < cells.len()
            invariant
                i <= cells.len(),
                merge_pass(None, line_values(cells@)) == vals@ + merge_pass(
                    pending,
                    line_values_from(cells@, i as int),
                ),
                merge_pass_fits(pending, line_values_from(cells@, i as int)),
                vals@.len() + (if pending is Some {
                    1int
                } else {
                    0int
                }) <= i,
            decreases cells.len() - i,
        {
            let slot = cells[i];
            match slot {
                Some(c) => {
                    let v = c.value();
                    proof {
                        let rest = line_values_from(cells@, i + 1);
                        assert(line_values_from(cells@, i as int) == seq![v] + rest);
                        lemma_merge_pass_cons(pending, v, rest);
                        lemma_merge_pass_fits_cons(pending, v, rest);
                    }
                    match pending {
                        Some(p) => {
                            if p == v {
                                proof {
                                    let rest = line_values_from(cells@, i + 1);
                                    assert(vals@ + (seq![(2 * p) as usize] + merge_pass(
                                        None,
                                        rest,
                                    )) =~= vals@.push((2 * p) as usize) + merge_pass(None, rest));
                                }
                                vals.push(p * 2);
                                pending = None;
                            } else {
                                proof {
                                    let rest = line_values_from(cells@, i + 1);
                                    assert(vals@ + (seq![p] + merge_pass(Some(v), rest))
                                        =~= vals@.push(p) + merge_pass(Some(v), rest));
                                }
                                vals.push(p);
                                pending = Some(v);
                            }
                        },
                        None => {
                            pending = Some(v);
                        },
                    }
                },
                None => {},
            }
            i = i + 1;
        }

        if let Some(p) = pending {
            proof {
                assert(line_values_from(cells@, cells@.len() as int) == Seq::<usize>::empty());
                assert(merge_pass(Some(p), Seq::<usize>::empty()) == seq![p]);
                assert(vals@ + seq![p] =~= vals@.push(p));
            }
            vals.push(p);
        } else {
            proof {
                assert(line_values_from(cells@, cells@.len() as int) == Seq::<usize>::empty());
                assert(vals@ + Seq::<usize>::empty() =~= vals@);
            }
        }
        assert(vals@ == merged_values(cells@));
        assert(vals@.len() <= cells@.len());

        /* compaction pass: merged values up front, absent slots trailing */

        let mut res: Vec<BoardCell> = Vec::new();
        let mut k: usize = 0;
        while k < cells.len()
            invariant
                k <= cells@.len(),
                vals@ == merged_values(cells@),
                vals@.len() <= cells@.len(),
                res@.len() == k,
                forall|j: int| 0 <= j < k ==> res@[j] == reduced(cells@)[j],
            decreases cells.len() - k,
        {
            if k < vals.len() {
                res.push(Some(Cell(vals[k])));
            } else {
                res.push(None);
            }
            k = k + 1;
        }
        assert(res@ =~= reduced(cells@));

        /* change detection */

        let mut same = true;
        let mut k: usize = 0;
        while k < cells.len()
            invariant
                k <= cells@.len(),
                res@ == reduced(cells@),
                res@.len() == cells@.len(),
                same == (forall|j: int| 0 <= j < k ==> res@[j] == cells@[j]),
            decreases cells.len() - k,
        {
            if !slot_eq(&res[k], &cells[k]) {
                same = false;
            }
            k = k + 1;
        }

        if same {
            assert(reduced(cells@) =~= cells@);
            None
        } else {
            proof {
                let j = choose|j: int| 0 <= j < cells@.len() && res@[j] != cells@[j];
                assert(reduced(cells@)[j] != cells@[j]);
            }
            Some(res)
        }
    }
}

impl Board {
    /// Retrieves cells in the given row matching the specified emptiness.
    ///
    /// # Arguments
    ///
    /// * `is_empty` - whether the cell should be empty; search criteria
    /// * `row` - the board row in which to search
    pub fn get_cells_by_emptiness_row(&self, is_empty: bool, row: usize) -> (r: Vec<Coord>)
        requires
            grid_dims_ok(self.grid_v()),
            row < BOARD_ROWS,
        ensures
            r@ == row_matches_from(self.grid_v(), is_empty, row as int, 0),
    {
        let g = &self.grid;
        let mut result: Vec<Coord> = Vec::new();
        let mut col: usize = 0;
        while col < BOARD_COLS
            invariant
                col <= BOARD_COLS,
                grid_dims_ok(grid_view(*g)),
                row < BOARD_ROWS,
                row_matches_from(grid_view(*g), is_empty, row as int, 0) == result@
                    + row_matches_from(grid_view(*g), is_empty, row as int, col as int),
            decreases BOARD_COLS - col,
        {
            let slot = g[row][col];
            if slot.is_none() == is_empty {
                proof {
                    let rest = row_matches_from(grid_view(*g), is_empty, row as int, col + 1);
                    assert(result@ + (seq![Coord(row, col)] + rest) =~= result@.push(
                        Coord(row, col),
                    ) + rest);
                }
                result.push(Coord(row, col));
            }
            col = col + 1;
        }
        proof {
            assert(result@ + Seq::<Coord>::empty() =~= result@);
        }
        result
    }

    /// Retrieves cells in the given col matching the specified emptiness.
    ///
    /// # Arguments
    ///
    /// * `is_empty` - whether the cell should be empty; search criteria
    /// * `col` - the board col in which to search
    pub fn get_cells_by_emptiness_col(&self, is_empty: bool, col: usize) -> (r: Vec<Coord>)
        requires
            grid_dims_ok(self.grid_v()),
            col < BOARD_COLS,
        ensures
            r@ == col_matches_from(self.grid_v(), is_empty, col as int, 0),
    {
        let g = &self.grid;
        let mut result: Vec<Coord> = Vec::new();
        let mut row: usize = 0;
        while row < BOARD_ROWS
            invariant
                row <= BOARD_ROWS,
                grid_dims_ok(grid_view(*g)),
                col < BOARD_COLS,
                col_matches_from(grid_view(*g), is_empty, col as int, 0) == result@
                    + col_matches_from(grid_view(*g), is_empty, col as int, row as int),
            decreases BOARD_ROWS - row,
        {
            let slot = g[row][col];
            if slot.is_none() == is_empty {
                proof {
                    let rest = col_matches_from(grid_view(*g), is_empty, col as int, row + 1);
                    assert(result@ + (seq![Coord(row, col)] + rest) =~= result@.push(
                        Coord(row, col),
                    ) + rest);
                }
                result.push(Coord(row, col));
            }
            row = row + 1;
        }
        proof {
            assert(result@ + Seq::<Coord>::empty() =~= result@);
        }
        result
    }

    /// Retrieves all cells matching the specified emptiness, in row-major
    /// order.
    ///
    /// # Arguments
    ///
    /// * `is_empty` - whether the cell should be empty; search criteria
    pub fn get_cells_by_emptiness(&self, is_empty: bool) -> (r: Vec<Coord>)
        requires
            grid_dims_ok(self.grid_v()),
        ensures
            r@ == all_matches(self.grid_v(), is_empty),
    {
        let mut result: Vec<Coord> = Vec::new();
        let mut row: usize = 0;
        while row < BOARD_ROWS
            invariant
                row <= BOARD_ROWS,
                grid_dims_ok(self.grid_v()),
                result@ == all_matches_upto(self.grid_v(), is_empty, row as int),
            decreases BOARD_ROWS - row,
        {
            let mut part = self.get_cells_by_emptiness_row(is_empty, row);
            result.append(&mut part);
            row = row + 1;
        }
        result
    }

    /// Attempts to spawn a new cell on the game board at the specified
    /// location.  Fails, changing nothing, when the slot is occupied.
    ///
    /// # Arguments
    ///
    /// * `pos` - the grid coordinate at which to spawn
    pub fn spawn_at(&mut self, pos: Coord) -> (r: Result<(), ()>)
        requires
            grid_dims_ok(old(self).grid_v()),
            pos.0 < BOARD_ROWS,
            pos.1 < BOARD_COLS,
        ensures
            final(self).hist_v() == old(self).hist_v(),
            grid_dims_ok(final(self).grid_v()),
            old(self).grid_v()[pos.0 as int][pos.1 as int] is Some ==> r is Err && *final(self)
                == *old(self),
            old(self).grid_v()[pos.0 as int][pos.1 as int] is None ==> r is Ok && spawned_at(
                old(self).grid_v(),
                final(self).grid_v(),
                pos.0 as int,
                pos.1 as int,
            ),
            grid_wf(old(self).grid_v()) ==> grid_wf(final(self).grid_v()),
    {
        let row = pos.0;
        let col = pos.1;

        if self.grid[row][col].is_some() {
            return Err(());
        }

        let tile = Cell::default();
        set_cell(&mut self.grid, row, col, Some(tile));
        proof {
            let g1 = old(self).grid_v();
            let g2 = self.grid_v();
            assert(g2 == grid_update(g1, row as int, col as int, Some(tile)));
            assert(g2[row as int][col as int] == Some(tile));
            assert(is_pow2(1));
            assert(is_pow2(2));
            assert(is_pow2(4));
            if grid_wf(g1) {
                lemma_grid_update_wf(g1, row as int, col as int, Some(tile));
            }
            assert(self.hist_v() =~= old(self).hist_v());
        }
        Ok(())
    }

    /// Spawns new cells on the game board at the specified location(s), in
    /// order, stopping at the first occupied target.
    ///
    /// # Arguments
    ///
    /// * `coords` - the coordinates to spawn cells at
    pub fn spawn_at_many(&mut self, coords: Vec<Coord>) -> (r: Result<(), ()>)
        requires
            grid_dims_ok(old(self).grid_v()),
            forall|i: int|
                0 <= i < coords@.len() ==> (#[trigger] coords@[i]).0 < BOARD_ROWS
                    && coords@[i].1 < BOARD_COLS,
        ensures
            final(self).hist_v() == old(self).hist_v(),
            grid_dims_ok(final(self).grid_v()),
            grid_wf(old(self).grid_v()) ==> grid_wf(final(self).grid_v()),
            spawn_many_trace(old(self).grid_v(), final(self).grid_v(), coords@, r is Ok),
    {
        let ghost g_init = old(self).grid_v();
        proof {
            assert(coords@.skip(0) =~= coords@);
        }
        let mut i: usize = 0;
        while i < coords.len()
            invariant
                i <= coords@.len(),
                forall|k: int|
                    0 <= k < coords@.len() ==> (#[trigger] coords@[k]).0 < BOARD_ROWS
                        && coords@[k].1 < BOARD_COLS,
                grid_dims_ok(self.grid_v()),
                self.hist_v() == old(self).hist_v(),
                grid_wf(g_init) ==> grid_wf(self.grid_v()),
                g_init == old(self).grid_v(),
                forall|g2: Seq<Seq<BoardCell>>, ok: bool|
                    spawn_many_trace(self.grid_v(), g2, coords@.skip(i as int), ok)
                        ==> spawn_many_trace(g_init, g2, coords@, ok),
            decreases coords@.len() - i,
        {
            let pos = coords[i];
            let ghost pre = self.grid_v();
            let res = self.spawn_at(pos);
            if res.is_err() {
                proof {
                    assert(coords@.skip(i as int)[0] == coords@[i as int]);
                    assert(spawn_many_trace(pre, pre, coords@.skip(i as int), false));
                    assert(spawn_many_trace(g_init, self.grid_v(), coords@, false));
                }
                return Err(());
            }
            proof {
                let cur = self.grid_v();
                assert(coords@.skip(i as int)[0] == coords@[i as int]);
                assert(coords@.skip(i as int).skip(1) =~= coords@.skip(i + 1));
                assert(spawned_at(pre, cur, pos.0 as int, pos.1 as int));
                assert forall|g2: Seq<Seq<BoardCell>>, ok: bool|
                    spawn_many_trace(cur, g2, coords@.skip(i + 1), ok) implies spawn_many_trace(
                    g_init,
                    g2,
                    coords@,
                    ok,
                ) by {
                    let tail = coords@.skip(i as int);
                    assert(spawn_many_trace(cur, g2, tail.skip(1), ok));
                    lemma_spawn_many_step(pre, cur, g2, tail, ok);
                }
            }
            i = i + 1;
        }
        proof {
            assert(coords@.skip(coords@.len() as int).len() == 0);
            assert(spawn_many_trace(self.grid_v(), self.grid_v(), coords@.skip(coords@.len() as int), true));
            assert(spawn_many_trace(g_init, self.grid_v(), coords@, true));
        }
        Ok(())
    }

    /// Randomly spawns a new cell in a uniformly chosen empty slot of the
    /// game board.  Fails, changing nothing, when the board is full.
    pub fn spawn(&mut self) -> (r: Result<(), ()>)
        requires
            grid_dims_ok(old(self).grid_v()),
        ensures
            final(self).hist_v() == old(self).hist_v(),
            grid_dims_ok(final(self).grid_v()),
            r is Err <==> grid_full(old(self).grid_v()),
            r is Err ==> *final(self) == *old(self),
            r is Ok ==> exists|rr: int, cc: int|
                spawned_at(old(self).grid_v(), final(self).grid_v(), rr, cc),
            grid_wf(old(self).grid_v()) ==> grid_wf(final(self).grid_v()),
    {
        let empty_coords = self.get_cells_by_emptiness(true);

        if empty_coords.len() == 0 {
            proof {
                let g = self.grid_v();
                assert forall|rr: int, cc: int|
                    0 <= rr < g.len() && 0 <= cc < g[rr].len() implies !((#[trigger] g[rr][cc])
                    is None) by {
                    if g[rr][cc] is None {
                        lemma_all_matches_complete(g, true, g.len() as int, rr, cc);
                    }
                }
            }
            return Err(());
        }

        let idx = rng::random_below(empty_coords.len());
        let pos = empty_coords[idx];
        proof {
            let g = self.grid_v();
            lemma_all_matches_props(g, true, g.len() as int);
            assert(g[pos.0 as int][pos.1 as int] is None);
            assert(!grid_full(g));
        }
        let res = self.spawn_at(pos);
        assert(res is Ok);
        Ok(())
    }

    /// Reads oriented line `idx` of the grid: index 0 is the edge that a
    /// shift toward `dir` compacts toward.
    fn get_line(&self, dir: Direction, idx: usize) -> (line: Vec<BoardCell>)
        requires
            grid_dims_ok(self.grid_v()),
            idx < line_count(dir),
        ensures
            line@ == line_of(self.grid_v(), dir, idx as int),
            line@.len() == 4,
    {
        let g = &self.grid;
        let ghost gv = self.grid_v();
        let mut line: Vec<BoardCell> = Vec::new();
        match dir {
            Direction::Left => {
                let mut c: usize = 0;
                while c < BOARD_COLS
                    invariant
                        c <= BOARD_COLS,
                        grid_dims_ok(gv),
                        gv == grid_view(*g),
                        idx < BOARD_ROWS,
                        line@.len() == c,
                        forall|j: int| 0 <= j < c ==> line@[j] == gv[idx as int][j],
                    decreases BOARD_COLS - c,
                {
                    proof {
                        assert(gv[idx as int] == g@[idx as int]@);
                    }
                    line.push(g[idx][c]);
                    c = c + 1;
                }
                assert(line@ =~= line_of(gv, dir, idx as int));
            },
            Direction::Right => {
                let mut c: usize = 0;
                while c < BOARD_COLS
                    invariant
                        c <= BOARD_COLS,
                        grid_dims_ok(gv),
                        gv == grid_view(*g),
                        idx < BOARD_ROWS,
                        line@.len() == c,
                        forall|j: int| 0 <= j < c ==> line@[j] == gv[idx as int][BOARD_COLS - 1 - j],
                    decreases BOARD_COLS - c,
                {
                    proof {
                        assert(gv[idx as int] == g@[idx as int]@);
                    }
                    line.push(g[idx][BOARD_COLS - 1 - c]);
                    c = c + 1;
                }
                assert forall|j: int| 0 <= j < BOARD_COLS implies line@[j] == line_of(
                    gv,
                    dir,
                    idx as int,
                )[j] by {
                    assert(gv[idx as int].reverse()[j] == gv[idx as int][BOARD_COLS - 1 - j]);
                }
                assert(line@ =~= line_of(gv, dir, idx as int));
            },
            Direction::Up => {
                let mut r: usize = 0;
                while r < BOARD_ROWS
                    invariant
                        r <= BOARD_ROWS,
                        grid_dims_ok(gv),
                        gv == grid_view(*g),
                        idx < BOARD_COLS,
                        line@.len() == r,
                        forall|j: int| 0 <= j < r ==> line@[j] == gv[j][idx as int],
                    decreases BOARD_ROWS - r,
                {
                    proof {
                        assert(gv[r as int] == g@[r as int]@);
                    }
                    line.push(g[r][idx]);
                    r = r + 1;
                }
                assert(line@ =~= line_of(gv, dir, idx as int));
            },
            Direction::Down => {
                let mut r: usize = 0;
                while r < BOARD_ROWS
                    invariant
                        r <= BOARD_ROWS,
                        grid_dims_ok(gv),
                        gv == grid_view(*g),
                        idx < BOARD_COLS,
                        line@.len() == r,
                        forall|j: int| 0 <= j < r ==> line@[j] == gv[BOARD_ROWS - 1 - j][idx as int],
                    decreases BOARD_ROWS - r,
                {
                    proof {
                        assert(gv[BOARD_ROWS - 1 - r] == g@[BOARD_ROWS - 1 - r as int]@);
                    }
                    line.push(g[BOARD_ROWS - 1 - r][idx]);
                    r = r + 1;
                }
                assert forall|j: int| 0 <= j < BOARD_ROWS implies line@[j] == line_of(
                    gv,
                    dir,
                    idx as int,
                )[j] by {
                    assert(column(gv, idx as int).reverse()[j] == column(gv, idx as int)[BOARD_ROWS
                        - 1 - j]);
                }
                assert(line@ =~= line_of(gv, dir, idx as int));
            },
        }
        line
    }

    /// Whether every merge that a shift toward `dir` would perform stays
    /// within `usize`.
    pub open spec fn spec_shift_fits(&self, dir: Direction) -> bool {
        forall|idx: int|
            0 <= idx < line_count(dir) ==> line_fits(#[trigger] line_of(self.grid_v(), dir, idx))
    }

    /// Decides whether the board is well formed: the right dimensions, only
    /// valid tiles, and a bounded history of such grids.
    pub fn is_well_formed(&self) -> (b: bool)
        ensures
            b == self.wf(),
    {
        if !grid_is_wf(&self.grid) {
            return false;
        }
        if self.history.len() > HISTORY_SIZE {
            return false;
        }
        let mut k: usize = 0;
        while k < self.history.len()
            invariant
                k <= self.history@.len(),
                grid_wf(self.grid_v()),
                self.history@.len() <= HISTORY_SIZE,
                forall|j: int| 0 <= j < k ==> grid_wf(#[trigger] self.hist_v()[j]),
            decreases self.history@.len() - k,
        {
            proof {
                assert(self.hist_v()[k as int] == grid_view(self.history@[k as int]));
            }
            if !grid_is_wf(&self.history[k]) {
                return false;
            }
            k = k + 1;
        }
        true
    }

    /// Decides whether every merge that a shift toward `dir` would perform
    /// stays within `usize`.
    pub fn shift_fits(&self, dir: Direction) -> (b: bool)
        requires
            grid_dims_ok(self.grid_v()),
        ensures
            b == self.spec_shift_fits(dir),
    {
        let count: usize = match dir {
            Direction::Left | Direction::Right => BOARD_ROWS,
            Direction::Up | Direction::Down => BOARD_COLS,
        };
        let mut idx: usize = 0;
        while idx < count
            invariant
                idx <= count,
                count == line_count(dir),
                grid_dims_ok(self.grid_v()),
                forall|j: int| 0 <= j < idx ==> line_fits(#[trigger] line_of(self.grid_v(), dir, j)),
            decreases count - idx,
        {
            let line = self.get_line(dir, idx);
            if !line_fits_check(&line) {
                return false;
            }
            idx = idx + 1;
        }
        true
    }

    /// Attempts to shift the board toward the given edge: reduces every row
    /// or column, and, when any of them changed, records the prior grid in
    /// the history and spawns one random tile.  Fails, changing nothing,
    /// when no line can move or merge.
    pub fn shift(&mut self, dir: Direction) -> (r: Result<(), ()>)
        requires
            old(self).wf(),
            old(self).spec_shift_fits(dir),
        ensures
            r is Ok <==> shifted(old(self).grid_v(), dir) != old(self).grid_v(),
            r is Err ==> *final(self) == *old(self),
            r is Ok ==> shift_ok(*old(self), *final(self), dir),
            final(self).wf(),
    {
        let ghost g0 = self.grid_v();
        let count: usize = match dir {
            Direction::Left | Direction::Right => BOARD_ROWS,
            Direction::Up | Direction::Down => BOARD_COLS,
        };
        let mut newgrid = clone_grid(&self.grid);
        let mut changed = false;
        let mut idx: usize = 0;

        while idx < count
            invariant
                idx <= count,
                count == line_count(dir),
                *self == *old(self),
                self.wf(),
                self.spec_shift_fits(dir),
                g0 == self.grid_v(),
                grid_view(newgrid) == shift_lines_upto(g0, dir, idx as int),
                changed == (shift_lines_upto(g0, dir, idx as int) != g0),
            decreases count - idx,
        {
            let line = self.get_line(dir, idx);
            let ghost prev = grid_view(newgrid);
            proof {
                lemma_shift_upto_dims(g0, dir, idx as int);
                lemma_shift_upto_untouched(g0, dir, idx as int, idx as int);
            }
            match Board::shift_group(line) {
                Some(res) => {
                    put_line(&mut newgrid, dir, idx, &res);
                    changed = true;
                    proof {
                        assert(grid_view(newgrid) == with_line(
                            prev,
                            dir,
                            idx as int,
                            reduced(line_of(g0, dir, idx as int)),
                        ));
                        assert(grid_view(newgrid) == shift_lines_upto(g0, dir, idx + 1));
                        lemma_with_line_read(
                            prev,
                            dir,
                            idx as int,
                            reduced(line_of(g0, dir, idx as int)),
                        );
                        assert(line_of(grid_view(newgrid), dir, idx as int) != line_of(
                            g0,
                            dir,
                            idx as int,
                        ));
                        assert(grid_view(newgrid) != g0);
                    }
                },
                None => {
                    proof {
                        assert(reduced(line_of(g0, dir, idx as int)) == line_of(
                            g0,
                            dir,
                            idx as int,
                        ));
                        lemma_with_line_same(prev, dir, idx as int);
                        assert(with_line(prev, dir, idx as int, line_of(prev, dir, idx as int))
                            == prev);
                        assert(line_of(prev, dir, idx as int) == line_of(g0, dir, idx as int));
                        assert(shift_lines_upto(g0, dir, idx + 1) == prev);
                    }
                },
            }
            idx = idx + 1;
        }

        if !changed {
            return Err(());
        }

        proof {
            lemma_shift_upto_wf(g0, dir, line_count(dir));
        }

        let snapshot = clone_grid(&self.grid);
        if self.history.len() >= HISTORY_SIZE {
            self.history.remove(0);
        }
        self.history.push(snapshot);
        self.grid = newgrid;
        proof {
            assert(self.hist_v() =~= push_bounded(old(self).hist_v(), g0));
            assert(forall|k: int|
                0 <= k < self.hist_v().len() ==> grid_wf(#[trigger] self.hist_v()[k]));
        }
        let spawn_res = self.spawn();
        proof {
            if spawn_res is Err {
                assert(grid_full(shifted(g0, dir)));
            } else {
                assert(!grid_full(shifted(g0, dir)));
            }
        }
        Ok(())
    }

    /// Attempt to undo the board to the previous move state.  Fails,
    /// changing nothing, when no past state is retained.
    pub fn undo(&mut self) -> (r: Result<(), ()>)
        ensures
            old(self).hist_v().len() == 0 ==> r is Err && final(self).grid_v()
                == old(self).grid_v() && final(self).hist_v() == old(self).hist_v(),
            old(self).hist_v().len() > 0 ==> r is Ok && undo_ok(*old(self), *final(self)),
            old(self).wf() ==> final(self).wf(),
    {
        match self.history.pop() {
            Some(state) => {
                self.grid = state;
                proof {
                    assert(self.hist_v() =~= old(self).hist_v().drop_last());
                }
                Ok(())
            },
            None => {
                proof {
                    assert(self.hist_v() =~= old(self).hist_v());
                }
                Err(())
            },
        }
    }

    /// Handles movement on the game board: a shift reduces the grid toward
    /// the commanded edge, an undo restores the previous grid.
    ///
    /// # Arguments
    ///
    /// * `mov` - the movement type to handle
    pub fn movement(&mut self, mov: Move) -> (r: Result<(), ()>)
        requires
            old(self).wf(),
            match mov {
                Move::Shift(dir) => old(self).spec_shift_fits(dir),
                Move::Undo => true,
            },
        ensures
            final(self).wf(),
            match mov {
                Move::Shift(dir) => {
                    &&& (r is Ok <==> shifted(old(self).grid_v(), dir) != old(self).grid_v())
                    &&& (r is Err ==> *final(self) == *old(self))
                    &&& (r is Ok ==> shift_ok(*old(self), *final(self), dir))
                },
                Move::Undo => {
                    &&& (r is Ok <==> old(self).hist_v().len() > 0)
                    &&& (r is Err ==> final(self).grid_v() == old(self).grid_v()
                        && final(self).hist_v() == old(self).hist_v())
                    &&& (r is Ok ==> undo_ok(*old(self), *final(self)))
                },
            },
    {
        match mov {
            Move::Shift(dir) => self.shift(dir),
            Move::Undo => self.undo(),
        }
    }

    /// The printable form of the board: one line per row, the slots space
    /// separated, each its value in decimal, 0 when empty.
    pub fn to_string(&self) -> (s: String)
        ensures
            s@ == rendered(self.grid_v()),
    {
        let ghost gv = self.grid_v();
        let mut s = String::new();
        let mut r: usize = 0;
        while r < self.grid.len()
            invariant
                r <= self.grid@.len(),
                gv == grid_view(self.grid),
                s@ == grid_chars_upto(gv, r as int),
            decreases self.grid@.len() - r,
        {
            if r > 0 {
                s.append("\n");
            }
            proof {
                reveal_strlit("\n");
                assert("\n"@ =~= seq!['\n']);
            }
            let ghost prefix = s@;
            assert(prefix == if r == 0 {
                Seq::<char>::empty()
            } else {
                grid_chars_upto(gv, r as int) + seq!['\n']
            });
            let row_len = self.grid[r].len();
            proof {
                assert(gv[r as int] == self.grid@[r as int]@);
            }
            let mut c: usize = 0;
            while c < row_len
                invariant
                    c <= row_len,
                    r < self.grid@.len(),
                    gv == grid_view(self.grid),
                    row_len == gv[r as int].len(),
                    s@ == prefix + row_chars_upto(gv[r as int], c as int),
                decreases row_len - c,
            {
                if c > 0 {
                    s.append(" ");
                }
                proof {
                    reveal_strlit(" ");
                    assert(" "@ =~= seq![' ']);
                    assert(gv[r as int] == self.grid@[r as int]@);
                }
                let slot = self.grid[r][c];
                match slot {
                    Some(cell) => {
                        let t = cell.to_string();
                        s.append(t.as_str());
                        proof {
                            assert(slot_chars(gv[r as int][c as int]) == decimal_digits(
                                cell.0 as nat,
                            ));
                        }
                    },
                    None => {
                        s.append("0");
                        proof {
                            reveal_strlit("0");
                            assert("0"@ =~= seq!['0']);
                            assert(slot_chars(gv[r as int][c as int]) == seq!['0']);
                        }
                    },
                }
                proof {
                    let row = gv[r as int];
                    if c == 0 {
                        assert(row_chars_upto(row, 1) == slot_chars(row[0]));
                        assert(prefix + row_chars_upto(row, 0) + slot_chars(row[0]) =~= prefix
                            + row_chars_upto(row, 1));
                    } else {
                        assert(row_chars_upto(row, c + 1) == row_chars_upto(row, c as int)
                            + seq![' '] + slot_chars(row[c as int]));
                        assert(prefix + row_chars_upto(row, c as int) + seq![' '] + slot_chars(
                            row[c as int],
                        ) =~= prefix + row_chars_upto(row, c + 1));
                    }
                }
                c = c + 1;
            }
            proof {
                let row = gv[r as int];
                if r == 0 {
                    assert(grid_chars_upto(gv, 1) == row_chars_upto(row, row.len() as int));
                    assert(s@ =~= grid_chars_upto(gv, 1));
                } else {
                    assert(grid_chars_upto(gv, r + 1) == grid_chars_upto(gv, r as int)
                        + seq!['\n'] + row_chars_upto(row, row.len() as int));
                    assert(s@ =~= grid_chars_upto(gv, r + 1));
                }
            }
            r = r + 1;
        }
        s
    }

    /// Returns a new instance of a game board: an empty grid with a single
    /// randomly spawned tile and an empty history.
    pub fn new() -> (b: Self)
        ensures
            b.wf(),
            b.hist_v().len() == 0,
            exists|r: int, c: int| spawned_at(empty_grid(), b.grid_v(), r, c),
    {
        let mut inst = Board::default();
        proof {
            assert(inst.grid_v()[0][0] is None);
            assert(!grid_full(inst.grid_v()));
        }
        let spawned = inst.spawn();
        assert(spawned is Ok);
        inst
    }
}

} // verus!
