//! The combinatorial side of wall drawing, on a grid of cells.
//!
//! Walls are axis-aligned rectangles with an ordered `Add`/`Sub` boolean.
//! Compressing every rectangle edge into a grid line leaves a grid whose cells
//! are each wholly inside or outside the union. On that grid this module finds
//! the boundary faces (cell sides between an inside cell and an outside one or
//! the grid's edge), merged into maximal runs, so rooms that overlap or abut
//! leave no internal wall; the miter corners where faces meet; and the filled
//! cells as maximal runs per row. Placing the grid lines in source pixels is
//! left to the caller.

use vstd::prelude::*;

verus! {

/// The side of a cell a face lies on, and so which way the wall faces.
#[derive(Clone, Copy, PartialEq, Eq, Debug, Structural)]
pub enum EdgeDir {
    Up,
    Down,
    Left,
    Right,
}

/// How a wall line is shaded.
#[derive(Clone, Copy, PartialEq, Eq, Debug, Structural)]
pub enum WallTone {
    /// Room wall facing away from the room (brighter).
    Outer,
    /// Room wall facing the room (dimmer).
    Inner,
    /// Interior partition (dim on both lines).
    Interior,
}

/// A boundary face run on the grid. For `Up`/`Down` it lies on horizontal grid
/// line `line` and spans vertical grid lines `start..end`; for `Left`/`Right`
/// it lies on vertical grid line `line` and spans horizontal grid lines
/// `start..end`.
#[derive(Clone, Copy, PartialEq, Eq, Debug, Structural)]
pub struct GridFace {
    pub dir: EdgeDir,
    pub line: usize,
    pub start: usize,
    pub end: usize,
}

/// A miter corner: the grid point `(x, y)` and the unit square's signs
/// `(sx, sy)`, each 1 or -1.
pub type Corner = (usize, usize, i8, i8);

// ---------------------------------------------------------------------------
// Runs.
// ---------------------------------------------------------------------------

/// The maximal runs `start..end` of set bits, in order: those of all but the
/// last bit, with a set last bit extending the final run or starting one.
pub open spec fn runs(bits: Seq<bool>) -> Seq<(int, int)>
    decreases bits.len(),
{
    if bits.len() == 0 {
        seq![]
    } else {
        let r = runs(bits.drop_last());
        let n = bits.len() - 1;
        if !bits.last() {
            r
        } else if n > 0 && bits[n - 1] {
            r.drop_last().push((r.last().0, n + 1))
        } else {
            r.push((n, n + 1))
        }
    }
}

/// Runs held as `usize` pairs, as integers.
pub open spec fn run_view(r: Seq<(usize, usize)>) -> Seq<(int, int)> {
    r.map_values(|p: (usize, usize)| (p.0 as int, p.1 as int))
}

/// The maximal runs of set bits in `bits`.
fn runs_of(bits: &Vec<bool>) -> (r: Vec<(usize, usize)>)
    ensures
        run_view(r@) == runs(bits@),
{
    let mut r: Vec<(usize, usize)> = Vec::new();
    let mut start: Option<usize> = None;
    let n = bits.len();
    let mut i: usize = 0;
    while i < n
        invariant
            n == bits@.len(),
            i <= n,
            match start {
                None => run_view(r@) == runs(bits@.take(i as int)) && (i > 0 ==> !bits@[i - 1]),
                Some(s) => i > 0 && bits@[i - 1] && s < i && run_view(r@).push((s as int, i as int))
                    == runs(bits@.take(i as int)),
            },
        decreases n - i,
    {
        let ghost t = bits@.take(i + 1);
        assert(t.drop_last() =~= bits@.take(i as int));
        assert(t.last() == bits@[i as int]);
        let on = bits[i];
        let ghost old_r = r@;
        match start {
            None => {
                if on {
                    start = Some(i);
                }
            },
            Some(s) => {
                if !on {
                    r.push((s, i));
                    assert(run_view(r@) =~= run_view(old_r).push((s as int, i as int)));
                    start = None;
                } else {
                    assert(runs(t) =~= run_view(r@).push((s as int, i + 1)));
                }
            },
        }
        i = i + 1;
    }
    assert(bits@.take(n as int) =~= bits@);
    if let Some(s) = start {
        let ghost old_r = r@;
        r.push((s, n));
        assert(run_view(r@) =~= run_view(old_r).push((s as int, n as int)));
    }
    r
}

// ---------------------------------------------------------------------------
// Faces.
// ---------------------------------------------------------------------------

/// The grid's width: the length of its rows.
pub open spec fn width(g: Seq<Seq<bool>>) -> int {
    if g.len() == 0 {
        0
    } else {
        g[0].len() as int
    }
}

/// Every row of the grid is as long as the first.
pub open spec fn rectangular(g: Seq<Seq<bool>>) -> bool {
    forall|j: int| 0 <= j < g.len() ==> #[trigger] g[j].len() == width(g)
}

/// The grid held as rows of cells.
pub open spec fn grid_view(g: &Vec<Vec<bool>>) -> Seq<Seq<bool>> {
    g@.map_values(|row: Vec<bool>| row@)
}

pub open spec fn is_horizontal(dir: EdgeDir) -> bool {
    dir == EdgeDir::Up || dir == EdgeDir::Down
}

/// Whether the cell at position `k` along row (`Up`/`Down`) or column
/// (`Left`/`Right`) `a` has a boundary face on side `dir`: the cell is inside
/// and the neighbour across that side is outside or off the grid.
pub open spec fn is_face(g: Seq<Seq<bool>>, dir: EdgeDir, a: int, k: int) -> bool {
    match dir {
        EdgeDir::Up => g[a][k] && (a == 0 || !g[a - 1][k]),
        EdgeDir::Down => g[a][k] && (a + 1 >= g.len() || !g[a + 1][k]),
        EdgeDir::Left => g[k][a] && (a == 0 || !g[k][a - 1]),
        EdgeDir::Right => g[k][a] && (a + 1 >= width(g) || !g[k][a + 1]),
    }
}

/// The faces on side `dir` along row or column `a`, one bit per cell.
pub open spec fn face_bits(g: Seq<Seq<bool>>, dir: EdgeDir, a: int) -> Seq<bool> {
    Seq::new(
        (if is_horizontal(dir) { width(g) } else { g.len() as int }) as nat,
        |k: int| is_face(g, dir, a, k),
    )
}

/// The grid line that side `dir` of row or column `a` lies on.
pub open spec fn face_line(dir: EdgeDir, a: int) -> int {
    if dir == EdgeDir::Up || dir == EdgeDir::Left {
        a
    } else {
        a + 1
    }
}

/// Runs on side `dir` of row or column `a`, as faces.
pub open spec fn run_faces(rs: Seq<(int, int)>, dir: EdgeDir, line: int) -> Seq<GridFace> {
    rs.map_values(
        |p: (int, int)| GridFace { dir, line: line as usize, start: p.0 as usize, end: p.1 as usize },
    )
}

/// The merged faces on side `dir` of row or column `a`.
pub open spec fn side_faces(g: Seq<Seq<bool>>, dir: EdgeDir, a: int) -> Seq<GridFace> {
    run_faces(runs(face_bits(g, dir, a)), dir, face_line(dir, a))
}

/// The horizontal faces of the first `n` rows: per row its `Up` faces, then
/// its `Down` faces.
pub open spec fn row_faces(g: Seq<Seq<bool>>, n: int) -> Seq<GridFace>
    decreases n,
{
    if n <= 0 {
        seq![]
    } else {
        row_faces(g, n - 1) + side_faces(g, EdgeDir::Up, n - 1) + side_faces(g, EdgeDir::Down, n - 1)
    }
}

/// The vertical faces of the first `n` columns: per column its `Left` faces,
/// then its `Right` faces.
pub open spec fn column_faces(g: Seq<Seq<bool>>, n: int) -> Seq<GridFace>
    decreases n,
{
    if n <= 0 {
        seq![]
    } else {
        column_faces(g, n - 1) + side_faces(g, EdgeDir::Left, n - 1) + side_faces(
            g,
            EdgeDir::Right,
            n - 1,
        )
    }
}

/// Every boundary face of the grid, merged into maximal runs: row by row
/// (`Up` then `Down`), then column by column (`Left` then `Right`).
pub open spec fn face_runs(g: Seq<Seq<bool>>) -> Seq<GridFace> {
    row_faces(g, g.len() as int) + column_faces(g, width(g))
}

/// The faces on side `dir` of row or column `a`, one bit per cell.
fn side_bits(g: &Vec<Vec<bool>>, dir: EdgeDir, a: usize) -> (r: Vec<bool>)
    requires
        rectangular(grid_view(g)),
        is_horizontal(dir) ==> a < g@.len(),
        !is_horizontal(dir) ==> a < width(grid_view(g)),
    ensures
        r@ == face_bits(grid_view(g), dir, a as int),
{
    let ghost gv = grid_view(g);
    let ny = g.len();
    let nx = if ny == 0 {
        0
    } else {
        g[0].len()
    };
    assert(nx == width(gv));
    let n = if dir == EdgeDir::Up || dir == EdgeDir::Down {
        nx
    } else {
        ny
    };
    let mut r: Vec<bool> = Vec::new();
    let mut k: usize = 0;
    while k < n
        invariant
            gv == grid_view(g),
            rectangular(gv),
            ny == g@.len(),
            nx == width(gv),
            is_horizontal(dir) ==> a < ny && n == nx,
            !is_horizontal(dir) ==> a < nx && n == ny,
            k <= n,
            r@ == face_bits(gv, dir, a as int).take(k as int),
        decreases n - k,
    {
        let on = match dir {
            EdgeDir::Up => {
                assert(gv[a as int].len() == nx);
                if a > 0 {
                    assert(gv[a - 1].len() == nx);
                }
                g[a][k] && (a == 0 || !g[a - 1][k])
            },
            EdgeDir::Down => {
                assert(gv[a as int].len() == nx);
                if a + 1 < ny {
                    assert(gv[a + 1].len() == nx);
                }
                g[a][k] && (a + 1 >= ny || !g[a + 1][k])
            },
            EdgeDir::Left => {
                assert(gv[k as int].len() == nx);
                g[k][a] && (a == 0 || !g[k][a - 1])
            },
            EdgeDir::Right => {
                assert(gv[k as int].len() == nx);
                g[k][a] && (a + 1 >= nx || !g[k][a + 1])
            },
        };
        assert(on == is_face(gv, dir, a as int, k as int));
        r.push(on);
        k = k + 1;
        assert(r@ =~= face_bits(gv, dir, a as int).take(k as int));
    }
    assert(face_bits(gv, dir, a as int).take(n as int) =~= face_bits(gv, dir, a as int));
    r
}

/// Appends the runs `rs`, on side `dir` and grid line `line`, as faces.
fn push_faces(faces: &mut Vec<GridFace>, rs: &Vec<(usize, usize)>, dir: EdgeDir, line: usize)
    ensures
        final(faces)@ == old(faces)@ + run_faces(run_view(rs@), dir, line as int),
{
    let ghost start = faces@;
    let mut k: usize = 0;
    while k < rs.len()
        invariant
            k <= rs@.len(),
            faces@ == start + run_faces(run_view(rs@), dir, line as int).take(k as int),
        decreases rs.len() - k,
    {
        let (s, e) = rs[k];
        faces.push(GridFace { dir, line, start: s, end: e });
        k = k + 1;
        assert(faces@ =~= start + run_faces(run_view(rs@), dir, line as int).take(k as int));
    }
    assert(run_faces(run_view(rs@), dir, line as int).take(k as int) =~= run_faces(
        run_view(rs@),
        dir,
        line as int,
    ));
}

/// Every boundary face of a grid of inside (`true`) and outside cells, merged
/// into maximal runs along each grid line: row by row, the `Up` faces (the
/// cell above is outside or off the grid) then the `Down` faces, then column
/// by column the `Left` faces then the `Right` faces, each in ascending order.
/// Cells inside on both sides of a grid line leave no face there, so rooms
/// that overlap or abut merge into one outline.
pub fn grid_faces(inside: &Vec<Vec<bool>>) -> (faces: Vec<GridFace>)
    requires
        rectangular(grid_view(inside)),
    ensures
        faces@ == face_runs(grid_view(inside)),
{
    let ghost gv = grid_view(inside);
    let ny = inside.len();
    let nx = if ny == 0 {
        0
    } else {
        inside[0].len()
    };
    assert(nx == width(gv));
    let mut faces: Vec<GridFace> = Vec::new();
    let mut j: usize = 0;
    while j < ny
        invariant
            gv == grid_view(inside),
            rectangular(gv),
            ny == gv.len(),
            j <= ny,
            faces@ == row_faces(gv, j as int),
        decreases ny - j,
    {
        let up = runs_of(&side_bits(inside, EdgeDir::Up, j));
        push_faces(&mut faces, &up, EdgeDir::Up, j);
        let down = runs_of(&side_bits(inside, EdgeDir::Down, j));
        push_faces(&mut faces, &down, EdgeDir::Down, j + 1);
        j = j + 1;
    }
    let mut i: usize = 0;
    while i < nx
        invariant
            gv == grid_view(inside),
            rectangular(gv),
            nx == width(gv),
            i <= nx,
            faces@ == row_faces(gv, gv.len() as int) + column_faces(gv, i as int),
        decreases nx - i,
    {
        let left = runs_of(&side_bits(inside, EdgeDir::Left, i));
        push_faces(&mut faces, &left, EdgeDir::Left, i);
        let right = runs_of(&side_bits(inside, EdgeDir::Right, i));
        push_faces(&mut faces, &right, EdgeDir::Right, i + 1);
        i = i + 1;
        assert(faces@ =~= row_faces(gv, gv.len() as int) + column_faces(gv, i as int));
    }
    faces
}

/// Every run lies within the bits and covers only set bits; a set last bit
/// ends the last run.
proof fn lemma_runs_set(bits: Seq<bool>)
    ensures
        forall|i: int|
            0 <= i < runs(bits).len() ==> {
                let p = #[trigger] runs(bits)[i];
                &&& 0 <= p.0 < p.1 <= bits.len()
                &&& forall|k: int| p.0 <= k < p.1 ==> bits[k]
            },
        bits.len() > 0 && bits.last() ==> runs(bits).len() > 0 && runs(bits).last().1 == bits.len(),
    decreases bits.len(),
{
    if bits.len() > 0 {
        let rest = bits.drop_last();
        lemma_runs_set(rest);
        let r = runs(rest);
        let n = bits.len() - 1;
        assert forall|k: int| 0 <= k < n implies rest[k] == bits[k] by {}
        if bits.last() && n > 0 && bits[n - 1] {
            assert(rest.last() == bits[n - 1]);
            let out = runs(bits);
            assert forall|i: int| 0 <= i < out.len() implies {
                let p = #[trigger] out[i];
                &&& 0 <= p.0 < p.1 <= bits.len()
                &&& forall|k: int| p.0 <= k < p.1 ==> bits[k]
            } by {
                if i < r.len() - 1 {
                    assert(out[i] == r[i]);
                } else {
                    assert(out[i] == (r[r.len() - 1].0, n + 1));
                    let q = r[r.len() - 1];
                    assert forall|k: int| q.0 <= k < n + 1 implies bits[k] by {
                        if k < n {
                            assert(rest[k]);
                        }
                    }
                }
            }
        }
    }
}

/// Where a face lies relative to its row or column: the row or column whose
/// side it is on.
pub open spec fn face_cells(f: GridFace) -> int {
    if f.dir == EdgeDir::Up || f.dir == EdgeDir::Left {
        f.line as int
    } else {
        f.line - 1
    }
}

/// `f` runs only along boundary faces: every cell it spans is inside, with the
/// neighbour across the face outside or off the grid.
pub open spec fn on_boundary(g: Seq<Seq<bool>>, f: GridFace) -> bool {
    &&& f.start < f.end
    &&& forall|k: int| f.start <= k < f.end ==> #[trigger] is_face(g, f.dir, face_cells(f), k)
}

proof fn lemma_side_faces_on_boundary(g: Seq<Seq<bool>>, dir: EdgeDir, a: int)
    requires
        0 <= a < usize::MAX,
        g.len() <= usize::MAX,
        width(g) <= usize::MAX,
    ensures
        forall|i: int| 0 <= i < side_faces(g, dir, a).len() ==> on_boundary(g, #[trigger] side_faces(g, dir, a)[i]),
{
    let bits = face_bits(g, dir, a);
    lemma_runs_set(bits);
    assert forall|i: int| 0 <= i < side_faces(g, dir, a).len() implies on_boundary(g, #[trigger] side_faces(g, dir, a)[i]) by {
        let p = runs(bits)[i];
        let f = side_faces(g, dir, a)[i];
        assert(f == GridFace { dir, line: face_line(dir, a) as usize, start: p.0 as usize, end: p.1 as usize });
        assert forall|k: int| f.start <= k < f.end implies #[trigger] is_face(g, f.dir, face_cells(f), k) by {
            assert(bits[k]);
        }
    }
}

/// Faces separate inside cells from outside: a face never lies between two
/// inside cells, so rectangles that overlap or abut leave no internal wall,
/// and each face run covers only boundary faces.
pub proof fn lemma_faces_on_boundary(g: Seq<Seq<bool>>)
    requires
        g.len() < usize::MAX,
        width(g) < usize::MAX,
    ensures
        forall|i: int| 0 <= i < face_runs(g).len() ==> on_boundary(g, #[trigger] face_runs(g)[i]),
{
    lemma_row_faces_on_boundary(g, g.len() as int);
    lemma_column_faces_on_boundary(g, width(g));
}

proof fn lemma_row_faces_on_boundary(g: Seq<Seq<bool>>, n: int)
    requires
        n <= g.len() < usize::MAX,
        width(g) < usize::MAX,
    ensures
        forall|i: int| 0 <= i < row_faces(g, n).len() ==> on_boundary(g, #[trigger] row_faces(g, n)[i]),
    decreases n,
{
    if n > 0 {
        lemma_row_faces_on_boundary(g, n - 1);
        lemma_side_faces_on_boundary(g, EdgeDir::Up, n - 1);
        lemma_side_faces_on_boundary(g, EdgeDir::Down, n - 1);
        let a = row_faces(g, n - 1);
        let b = side_faces(g, EdgeDir::Up, n - 1);
        let c = side_faces(g, EdgeDir::Down, n - 1);
        assert forall|i: int| 0 <= i < row_faces(g, n).len() implies on_boundary(g, #[trigger] row_faces(g, n)[i]) by {
            if i < a.len() {
                assert(row_faces(g, n)[i] == a[i]);
            } else if i < a.len() + b.len() {
                assert(row_faces(g, n)[i] == b[i - a.len()]);
            } else {
                assert(row_faces(g, n)[i] == c[i - a.len() - b.len()]);
            }
        }
    }
}

proof fn lemma_column_faces_on_boundary(g: Seq<Seq<bool>>, n: int)
    requires
        n <= width(g) < usize::MAX,
        g.len() < usize::MAX,
    ensures
        forall|i: int| 0 <= i < column_faces(g, n).len() ==> on_boundary(g, #[trigger] column_faces(g, n)[i]),
    decreases n,
{
    if n > 0 {
        lemma_column_faces_on_boundary(g, n - 1);
        lemma_side_faces_on_boundary(g, EdgeDir::Left, n - 1);
        lemma_side_faces_on_boundary(g, EdgeDir::Right, n - 1);
        let a = column_faces(g, n - 1);
        let b = side_faces(g, EdgeDir::Left, n - 1);
        let c = side_faces(g, EdgeDir::Right, n - 1);
        assert forall|i: int| 0 <= i < column_faces(g, n).len() implies on_boundary(g, #[trigger] column_faces(g, n)[i]) by {
            if i < a.len() {
                assert(column_faces(g, n)[i] == a[i]);
            } else if i < a.len() + b.len() {
                assert(column_faces(g, n)[i] == b[i - a.len()]);
            } else {
                assert(column_faces(g, n)[i] == c[i - a.len() - b.len()]);
            }
        }
    }
}

/// `r` is exactly the maximal runs of set bits of `bits`, in order: each run
/// lies in the bits and covers only set bits, cannot be extended either way,
/// runs are strictly ordered with a gap between them, and every set bit lies
/// in some run.
pub open spec fn maximal_runs(bits: Seq<bool>, r: Seq<(int, int)>) -> bool {
    &&& forall|i: int| 0 <= i < r.len() ==> 0 <= (#[trigger] r[i]).0 < r[i].1 <= bits.len()
    &&& forall|i: int, k: int| 0 <= i < r.len() && (#[trigger] r[i]).0 <= k < r[i].1 ==> #[trigger] bits[k]
    &&& forall|i: int| 0 <= i < r.len() ==> (#[trigger] r[i]).0 == 0 || !bits[r[i].0 - 1]
    &&& forall|i: int| 0 <= i < r.len() ==> (#[trigger] r[i]).1 == bits.len() || !bits[r[i].1]
    &&& forall|i: int, j: int| 0 <= i < j < r.len() ==> (#[trigger] r[i]).1 < (#[trigger] r[j]).0
    &&& forall|k: int|
        0 <= k < bits.len() && #[trigger] bits[k] ==> exists|i: int| 0 <= i < r.len() && (#[trigger] r[i]).0 <= k < r[i].1
}

/// The runs are the maximal runs of set bits: sound (only set bits, within
/// the sequence), maximal at both ends, in ascending order, and complete
/// (every set bit is covered).
pub proof fn lemma_runs_maximal(bits: Seq<bool>)
    ensures
        maximal_runs(bits, runs(bits)),
    decreases bits.len(),
{
    if bits.len() > 0 {
        let rest = bits.drop_last();
        lemma_runs_maximal(rest);
        lemma_runs_set(rest);
        lemma_runs_set(bits);
        let r = runs(rest);
        let n = bits.len() - 1;
        let out = runs(bits);
        assert forall|k: int| 0 <= k < n implies rest[k] == bits[k] by {}
        if !bits.last() {
            assert(out == r);
            assert forall|i: int| 0 <= i < out.len() implies (#[trigger] out[i]).1 == bits.len() || !bits[out[i].1] by {
                if out[i].1 == n {
                } else {
                    assert(!rest[r[i].1]);
                }
            }
            assert forall|i: int| 0 <= i < out.len() implies (#[trigger] out[i]).0 == 0 || !bits[out[i].0 - 1] by {
                assert(r[i].0 == 0 || !rest[r[i].0 - 1]);
            }
            assert forall|k: int| 0 <= k < bits.len() && #[trigger] bits[k] implies exists|i: int| 0 <= i < out.len() && (#[trigger] out[i]).0 <= k < out[i].1 by {
                assert(rest[k]);
            }
        } else if n > 0 && bits[n - 1] {
            assert(rest.last() == bits[n - 1]);
            let m = r.len() - 1;
            assert(r[m].1 == n);
            assert(out == r.drop_last().push((r[m].0, n + 1)));
            assert forall|i: int| 0 <= i < out.len() implies 0 <= (#[trigger] out[i]).0 < out[i].1 <= bits.len() by {
                if i < m {
                    assert(out[i] == r[i]);
                }
            }
            assert forall|i: int| 0 <= i < out.len() implies (#[trigger] out[i]).0 == 0 || !bits[out[i].0 - 1] by {
                assert(out[i].0 == r[i].0);
                assert(r[i].0 == 0 || !rest[r[i].0 - 1]);
            }
            assert forall|i: int| 0 <= i < out.len() implies (#[trigger] out[i]).1 == bits.len() || !bits[out[i].1] by {
                if i < m {
                    assert(out[i] == r[i]);
                    assert(r[i].1 < r[m].0);
                    assert(!rest[r[i].1]);
                }
            }
            assert forall|i: int, j: int| 0 <= i < j < out.len() implies (#[trigger] out[i]).1 < (#[trigger] out[j]).0 by {
                assert(out[i] == r[i]);
                assert(out[j].0 == r[j].0);
                assert(r[i].1 < r[j].0);
            }
            assert forall|k: int| 0 <= k < bits.len() && #[trigger] bits[k] implies exists|i: int| 0 <= i < out.len() && (#[trigger] out[i]).0 <= k < out[i].1 by {
                if k == n {
                    assert(out[m].0 <= k < out[m].1);
                } else {
                    assert(rest[k]);
                    let i = choose|i: int| 0 <= i < r.len() && (#[trigger] r[i]).0 <= k < r[i].1;
                    if i < m {
                        assert(out[i] == r[i]);
                    } else {
                        assert(out[m].0 <= k < out[m].1);
                    }
                }
            }
        } else {
            assert(out == r.push((n, n + 1)));
            assert forall|i: int| 0 <= i < r.len() implies (#[trigger] r[i]).1 < n by {
                if r[i].1 == n {
                    assert(rest[n - 1]);
                }
            }
            assert forall|i: int| 0 <= i < out.len() implies 0 <= (#[trigger] out[i]).0 < out[i].1 <= bits.len() by {
                if i < r.len() {
                    assert(out[i] == r[i]);
                }
            }
            assert forall|i: int, k: int| 0 <= i < out.len() && (#[trigger] out[i]).0 <= k < out[i].1 implies #[trigger] bits[k] by {
                if i < r.len() {
                    assert(out[i] == r[i]);
                    assert(rest[k]);
                }
            }
            assert forall|i: int| 0 <= i < out.len() implies (#[trigger] out[i]).0 == 0 || !bits[out[i].0 - 1] by {
                if i < r.len() {
                    assert(out[i] == r[i]);
                    assert(r[i].0 == 0 || !rest[r[i].0 - 1]);
                }
            }
            assert forall|i: int| 0 <= i < out.len() implies (#[trigger] out[i]).1 == bits.len() || !bits[out[i].1] by {
                if i < r.len() {
                    assert(out[i] == r[i]);
                    assert(!rest[r[i].1]);
                }
            }
            assert forall|i: int, j: int| 0 <= i < j < out.len() implies (#[trigger] out[i]).1 < (#[trigger] out[j]).0 by {
                assert(out[i] == r[i]);
                if j < r.len() {
                    assert(out[j] == r[j]);
                }
            }
            assert forall|k: int| 0 <= k < bits.len() && #[trigger] bits[k] implies exists|i: int| 0 <= i < out.len() && (#[trigger] out[i]).0 <= k < out[i].1 by {
                if k == n {
                    assert(out[r.len() as int].0 <= k < out[r.len() as int].1);
                } else {
                    assert(rest[k]);
                    let i = choose|i: int| 0 <= i < r.len() && (#[trigger] r[i]).0 <= k < r[i].1;
                    assert(out[i] == r[i]);
                }
            }
        }
    }
}

proof fn lemma_row_faces_contain(g: Seq<Seq<bool>>, n: int, a: int, dir: EdgeDir, j: int)
    requires
        0 <= a < n,
        dir == EdgeDir::Up || dir == EdgeDir::Down,
        0 <= j < side_faces(g, dir, a).len(),
    ensures
        row_faces(g, n).contains(side_faces(g, dir, a)[j]),
    decreases n,
{
    let prev = row_faces(g, n - 1);
    let up = side_faces(g, EdgeDir::Up, n - 1);
    let down = side_faces(g, EdgeDir::Down, n - 1);
    let x = side_faces(g, dir, a)[j];
    assert(row_faces(g, n) == prev + up + down);
    if a == n - 1 {
        if dir == EdgeDir::Up {
            assert(row_faces(g, n)[prev.len() + j] == x);
        } else {
            assert(row_faces(g, n)[prev.len() + up.len() + j] == x);
        }
    } else {
        lemma_row_faces_contain(g, n - 1, a, dir, j);
        let i = choose|i: int| 0 <= i < prev.len() && prev[i] == x;
        assert(row_faces(g, n)[i] == x);
    }
}

proof fn lemma_column_faces_contain(g: Seq<Seq<bool>>, n: int, a: int, dir: EdgeDir, j: int)
    requires
        0 <= a < n,
        dir == EdgeDir::Left || dir == EdgeDir::Right,
        0 <= j < side_faces(g, dir, a).len(),
    ensures
        column_faces(g, n).contains(side_faces(g, dir, a)[j]),
    decreases n,
{
    let prev = column_faces(g, n - 1);
    let left = side_faces(g, EdgeDir::Left, n - 1);
    let right = side_faces(g, EdgeDir::Right, n - 1);
    let x = side_faces(g, dir, a)[j];
    assert(column_faces(g, n) == prev + left + right);
    if a == n - 1 {
        if dir == EdgeDir::Left {
            assert(column_faces(g, n)[prev.len() + j] == x);
        } else {
            assert(column_faces(g, n)[prev.len() + left.len() + j] == x);
        }
    } else {
        lemma_column_faces_contain(g, n - 1, a, dir, j);
        let i = choose|i: int| 0 <= i < prev.len() && prev[i] == x;
        assert(column_faces(g, n)[i] == x);
    }
}

/// Every boundary face of the grid is drawn: for each cell side that is a
/// face (the cell inside, the neighbour across it outside or off the grid),
/// some face run on that side's grid line spans it.
pub proof fn lemma_every_face_covered(g: Seq<Seq<bool>>, dir: EdgeDir, a: int, k: int)
    requires
        g.len() < usize::MAX,
        width(g) < usize::MAX,
        is_horizontal(dir) ==> 0 <= a < g.len() && 0 <= k < width(g),
        !is_horizontal(dir) ==> 0 <= a < width(g) && 0 <= k < g.len(),
        is_face(g, dir, a, k),
    ensures
        exists|f: GridFace|
            #[trigger] face_runs(g).contains(f) && f.dir == dir && f.line == face_line(dir, a)
                && f.start <= k < f.end,
{
    let bits = face_bits(g, dir, a);
    assert(bits[k]);
    lemma_runs_maximal(bits);
    let rs = runs(bits);
    let j = choose|j: int| 0 <= j < rs.len() && (#[trigger] rs[j]).0 <= k < rs[j].1;
    let f = side_faces(g, dir, a)[j];
    assert(f == GridFace { dir, line: face_line(dir, a) as usize, start: rs[j].0 as usize, end: rs[j].1 as usize });
    let rows = row_faces(g, g.len() as int);
    let cols = column_faces(g, width(g));
    if is_horizontal(dir) {
        lemma_row_faces_contain(g, g.len() as int, a, dir, j);
        let i = choose|i: int| 0 <= i < rows.len() && rows[i] == f;
        assert(face_runs(g)[i] == f);
    } else {
        lemma_column_faces_contain(g, width(g), a, dir, j);
        let i = choose|i: int| 0 <= i < cols.len() && cols[i] == f;
        assert(face_runs(g)[rows.len() + i] == f);
    }
    assert(face_runs(g).contains(f));
}

// ---------------------------------------------------------------------------
// Corners.
// ---------------------------------------------------------------------------

/// The horizontal sign of a vertical face's miter square.
pub open spec fn x_sign(dir: EdgeDir) -> i8 {
    if dir == EdgeDir::Left {
        1i8
    } else {
        -1i8
    }
}

/// The vertical sign of a horizontal face's miter square.
pub open spec fn y_sign(dir: EdgeDir) -> i8 {
    if dir == EdgeDir::Up {
        1i8
    } else {
        -1i8
    }
}

/// `c` is a miter corner of horizontal face `h` and vertical face `v`: an end
/// of `h` lies on `v` (ends included), or an end of `v` lies on `h`; its square
/// is on the wall side of both.
pub open spec fn pair_corner(h: GridFace, v: GridFace, c: Corner) -> bool {
    &&& is_horizontal(h.dir)
    &&& !is_horizontal(v.dir)
    &&& c.2 == x_sign(v.dir)
    &&& c.3 == y_sign(h.dir)
    &&& {
        ||| (c.0 == h.start || c.0 == h.end) && c.1 == h.line && v.line == c.0 && v.start <= c.1
            <= v.end
        ||| (c.1 == v.start || c.1 == v.end) && c.0 == v.line && h.line == c.1 && h.start <= c.0
            <= h.end
    }
}

/// `c` is a miter corner of some pair of the faces.
pub open spec fn is_corner(faces: Seq<GridFace>, c: Corner) -> bool {
    exists|a: int, b: int|
        0 <= a < faces.len() && 0 <= b < faces.len() && #[trigger] pair_corner(faces[a], faces[b], c)
}

/// Corners ordered by `x`, then `y`, then `sx`, then `sy`.
pub open spec fn corner_lt(a: Corner, b: Corner) -> bool {
    a.0 < b.0 || (a.0 == b.0 && (a.1 < b.1 || (a.1 == b.1 && (a.2 < b.2 || (a.2 == b.2 && a.3
        < b.3)))))
}

/// Strictly ascending, so no corner twice.
pub open spec fn strictly_sorted(cs: Seq<Corner>) -> bool {
    forall|i: int, j: int| 0 <= i < j < cs.len() ==> corner_lt(#[trigger] cs[i], #[trigger] cs[j])
}

/// `c` is a corner of a pair `(a', b')` taken before `(a, b)` in row-major
/// order.
pub open spec fn corner_before(faces: Seq<GridFace>, a: int, b: int, c: Corner) -> bool {
    exists|a2: int, b2: int|
        0 <= a2 < faces.len() && 0 <= b2 < faces.len() && (a2 < a || (a2 == a && b2 < b))
            && #[trigger] pair_corner(faces[a2], faces[b2], c)
}

fn corner_less(a: Corner, b: Corner) -> (r: bool)
    ensures
        r == corner_lt(a, b),
{
    a.0 < b.0 || (a.0 == b.0 && (a.1 < b.1 || (a.1 == b.1 && (a.2 < b.2 || (a.2 == b.2 && a.3
        < b.3)))))
}

/// Adds `c` to a strictly ascending list, keeping it so.
fn insert_corner(out: &mut Vec<Corner>, c: Corner)
    requires
        strictly_sorted(old(out)@),
    ensures
        strictly_sorted(final(out)@),
        forall|d: Corner| #[trigger] final(out)@.contains(d) <==> (old(out)@.contains(d) || d == c),
{
    let mut k: usize = 0;
    while k < out.len() && corner_less(out[k], c)
        invariant
            k <= out@.len(),
            forall|i: int| 0 <= i < k ==> corner_lt(#[trigger] out@[i], c),
        decreases out.len() - k,
    {
        k = k + 1;
    }
    if k < out.len() && !corner_less(c, out[k]) {
        // Neither precedes the other: `c` is already there.
        assert(out@[k as int] == c);
        return;
    }
    let ghost before = out@;
    out.insert(k, c);
    proof {
        assert forall|i: int, j: int| 0 <= i < j < out@.len() implies corner_lt(
            #[trigger] out@[i],
            #[trigger] out@[j],
        ) by {
            if j < k {
                assert(out@[i] == before[i] && out@[j] == before[j]);
            } else if j == k {
                assert(out@[i] == before[i]);
            } else if i < k {
                assert(out@[i] == before[i] && out@[j] == before[j - 1]);
                assert(corner_lt(c, before[k as int]));
                assert(k as int <= j - 1);
                if k < j - 1 {
                    assert(corner_lt(before[k as int], before[j - 1]));
                }
            } else if i == k {
                assert(out@[j] == before[j - 1]);
                assert(corner_lt(c, before[k as int]));
                if k < j - 1 {
                    assert(corner_lt(before[k as int], before[j - 1]));
                }
            } else {
                assert(out@[i] == before[i - 1] && out@[j] == before[j - 1]);
            }
        }
        assert forall|d: Corner| #[trigger] out@.contains(d) <==> (before.contains(d) || d == c) by {
            if out@.contains(d) {
                let i = choose|i: int| 0 <= i < out@.len() && out@[i] == d;
                if i < k {
                    assert(before[i] == d);
                } else if i > k {
                    assert(before[i - 1] == d);
                }
            }
            if before.contains(d) {
                let i = choose|i: int| 0 <= i < before.len() && before[i] == d;
                if i < k {
                    assert(out@[i] == d);
                } else {
                    assert(out@[i + 1] == d);
                }
            }
            if d == c {
                assert(out@[k as int] == c);
            }
        }
    }
}

/// Adds the corners of horizontal face `h` and vertical face `v`.
fn add_pair_corners(out: &mut Vec<Corner>, h: GridFace, v: GridFace)
    requires
        strictly_sorted(old(out)@),
    ensures
        strictly_sorted(final(out)@),
        forall|d: Corner| #[trigger] final(out)@.contains(d) <==> (old(out)@.contains(d) || pair_corner(h, v, d)),
{
    let horizontal_h = h.dir == EdgeDir::Up || h.dir == EdgeDir::Down;
    let horizontal_v = v.dir == EdgeDir::Up || v.dir == EdgeDir::Down;
    if !horizontal_h || horizontal_v {
        return;
    }
    let sx: i8 = if v.dir == EdgeDir::Left {
        1
    } else {
        -1
    };
    let sy: i8 = if h.dir == EdgeDir::Up {
        1
    } else {
        -1
    };
    let ghost start = out@;
    let on_v = v.start <= h.line && h.line <= v.end;
    let on_h = h.start <= v.line && v.line <= h.end;
    let c1: Corner = (h.start, h.line, sx, sy);
    let c2: Corner = (h.end, h.line, sx, sy);
    let c3: Corner = (v.line, v.start, sx, sy);
    let c4: Corner = (v.line, v.end, sx, sy);
    if on_v && v.line == h.start {
        insert_corner(out, c1);
    }
    let ghost s1 = out@;
    if on_v && v.line == h.end {
        insert_corner(out, c2);
    }
    let ghost s2 = out@;
    if on_h && h.line == v.start {
        insert_corner(out, c3);
    }
    let ghost s3 = out@;
    if on_h && h.line == v.end {
        insert_corner(out, c4);
    }
    proof {
        assert forall|d: Corner| #[trigger] out@.contains(d) <==> (start.contains(d) || pair_corner(h, v, d)) by {
            assert(s1.contains(d) <==> (start.contains(d) || (on_v && v.line == h.start && d == c1)));
            assert(s2.contains(d) <==> (s1.contains(d) || (on_v && v.line == h.end && d == c2)));
            assert(s3.contains(d) <==> (s2.contains(d) || (on_h && h.line == v.start && d == c3)));
            assert(out@.contains(d) <==> (s3.contains(d) || (on_h && h.line == v.end && d == c4)));
        }
    }
}

/// The miter corners of the faces, ascending by (`x`, `y`, `sx`, `sy`) and
/// each once: every grid point where an end of a horizontal face lies on a
/// vertical face, or an end of a vertical face lies on a horizontal face,
/// with the square on the wall side of both (`sx` 1 for a `Left` face, -1
/// for a `Right` one; `sy` 1 for `Up`, -1 for `Down`). Convex corners already
/// overlap there; concave corners and T-junctions leave a gap that these fill.
pub fn grid_corners(faces: &Vec<GridFace>) -> (c: Vec<Corner>)
    ensures
        strictly_sorted(c@),
        forall|d: Corner| #[trigger] c@.contains(d) <==> is_corner(faces@, d),
{
    let n = faces.len();
    let mut out: Vec<Corner> = Vec::new();
    let mut a: usize = 0;
    while a < n
        invariant
            n == faces@.len(),
            a <= n,
            strictly_sorted(out@),
            forall|d: Corner| #[trigger] out@.contains(d) <==> corner_before(faces@, a as int, 0, d),
        decreases n - a,
    {
        let mut b: usize = 0;
        while b < n
            invariant
                n == faces@.len(),
                a < n,
                b <= n,
                strictly_sorted(out@),
                forall|d: Corner| #[trigger] out@.contains(d) <==> corner_before(faces@, a as int, b as int, d),
            decreases n - b,
        {
            let ghost prev = out@;
            add_pair_corners(&mut out, faces[a], faces[b]);
            proof {
                assert forall|d: Corner| #[trigger] out@.contains(d) <==> corner_before(faces@, a as int, b + 1, d) by {
                    if corner_before(faces@, a as int, b + 1, d) {
                        let (a2, b2) = choose|a2: int, b2: int|
                            0 <= a2 < faces@.len() && 0 <= b2 < faces@.len() && (a2 < a || (a2 == a && b2 < b + 1))
                                && #[trigger] pair_corner(faces@[a2], faces@[b2], d);
                        if !(a2 == a && b2 == b) {
                            assert(corner_before(faces@, a as int, b as int, d));
                        }
                    }
                    if pair_corner(faces@[a as int], faces@[b as int], d) {
                        assert(corner_before(faces@, a as int, b + 1, d));
                    }
                    if corner_before(faces@, a as int, b as int, d) {
                        let (a2, b2) = choose|a2: int, b2: int|
                            0 <= a2 < faces@.len() && 0 <= b2 < faces@.len() && (a2 < a || (a2 == a && b2 < b))
                                && #[trigger] pair_corner(faces@[a2], faces@[b2], d);
                        assert(corner_before(faces@, a as int, b + 1, d));
                    }
                }
            }
            b = b + 1;
        }
        proof {
            assert forall|d: Corner| corner_before(faces@, a as int, n as int, d) <==> #[trigger] corner_before(faces@, a + 1, 0, d) by {
                if corner_before(faces@, a as int, n as int, d) {
                    let (a2, b2) = choose|a2: int, b2: int|
                        0 <= a2 < faces@.len() && 0 <= b2 < faces@.len() && (a2 < a || (a2 == a && b2 < n))
                            && #[trigger] pair_corner(faces@[a2], faces@[b2], d);
                    assert(corner_before(faces@, a + 1, 0, d));
                }
                if corner_before(faces@, a + 1, 0, d) {
                    let (a2, b2) = choose|a2: int, b2: int|
                        0 <= a2 < faces@.len() && 0 <= b2 < faces@.len() && (a2 < a + 1 || (a2 == a + 1 && b2 < 0))
                            && #[trigger] pair_corner(faces@[a2], faces@[b2], d);
                    assert(corner_before(faces@, a as int, n as int, d));
                }
            }
        }
        a = a + 1;
    }
    proof {
        assert forall|d: Corner| #[trigger] out@.contains(d) <==> is_corner(faces@, d) by {
            if corner_before(faces@, n as int, 0, d) {
                let (a2, b2) = choose|a2: int, b2: int|
                    0 <= a2 < faces@.len() && 0 <= b2 < faces@.len() && (a2 < n || (a2 == n && b2 < 0))
                        && #[trigger] pair_corner(faces@[a2], faces@[b2], d);
                assert(is_corner(faces@, d));
            }
            if is_corner(faces@, d) {
                let (a2, b2) = choose|a2: int, b2: int|
                    0 <= a2 < faces@.len() && 0 <= b2 < faces@.len() && #[trigger] pair_corner(faces@[a2], faces@[b2], d);
                assert(corner_before(faces@, n as int, 0, d));
            }
        }
    }
    out
}

// ---------------------------------------------------------------------------
// A rectangle.
// ---------------------------------------------------------------------------

/// Every cell of a non-empty rectangular grid is inside: the rectangles' union
/// is itself a rectangle.
pub open spec fn all_inside(g: Seq<Seq<bool>>) -> bool {
    &&& g.len() > 0
    &&& width(g) > 0
    &&& rectangular(g)
    &&& forall|j: int, k: int| 0 <= j < g.len() && 0 <= k < width(g) ==> #[trigger] g[j][k]
}

proof fn lemma_runs_constant(bits: Seq<bool>)
    ensures
        (forall|k: int| 0 <= k < bits.len() ==> !#[trigger] bits[k]) ==> runs(bits) == Seq::<(int, int)>::empty(),
        bits.len() > 0 && (forall|k: int| 0 <= k < bits.len() ==> #[trigger] bits[k]) ==> runs(bits)
            == seq![(0int, bits.len() as int)],
    decreases bits.len(),
{
    if bits.len() > 0 {
        let rest = bits.drop_last();
        lemma_runs_constant(rest);
        assert forall|k: int| 0 <= k < rest.len() implies rest[k] == bits[k] by {}
        if forall|k: int| 0 <= k < bits.len() ==> #[trigger] bits[k] {
            assert(bits.last());
            if bits.len() > 1 {
                assert(bits[bits.len() - 2]);
                assert(forall|k: int| 0 <= k < rest.len() ==> #[trigger] rest[k]);
                assert(runs(bits) =~= seq![(0int, bits.len() as int)]);
            } else {
                assert(rest.len() == 0);
                assert(runs(bits) =~= seq![(0int, bits.len() as int)]);
            }
        }
        if forall|k: int| 0 <= k < bits.len() ==> !#[trigger] bits[k] {
            assert(!bits.last());
            assert(forall|k: int| 0 <= k < rest.len() ==> !#[trigger] rest[k]);
        }
    }
}

/// The faces on side `dir` of row or column `a` of a full grid: the whole
/// side when it is on the grid's edge, none otherwise.
proof fn lemma_full_side(g: Seq<Seq<bool>>, dir: EdgeDir, a: int)
    requires
        all_inside(g),
        is_horizontal(dir) ==> 0 <= a < g.len(),
        !is_horizontal(dir) ==> 0 <= a < width(g),
    ensures
        ({
            let n = if is_horizontal(dir) { width(g) } else { g.len() as int };
            let last = if is_horizontal(dir) { g.len() - 1 } else { width(g) - 1 };
            let edge = if dir == EdgeDir::Up || dir == EdgeDir::Left { a == 0 } else { a == last };
            side_faces(g, dir, a) == if edge {
                seq![GridFace { dir, line: face_line(dir, a) as usize, start: 0usize, end: n as usize }]
            } else {
                Seq::<GridFace>::empty()
            }
        }),
{
    let bits = face_bits(g, dir, a);
    assert forall|k: int| 0 <= k < bits.len() implies #[trigger] bits[k] == (if dir == EdgeDir::Up
        || dir == EdgeDir::Left {
        a == 0
    } else if is_horizontal(dir) {
        a == g.len() - 1
    } else {
        a == width(g) - 1
    }) by {
        if is_horizontal(dir) {
            assert(g[a].len() == width(g));
            assert(g[a][k]);
            if a > 0 {
                assert(g[a - 1].len() == width(g));
                assert(g[a - 1][k]);
            }
            if a + 1 < g.len() {
                assert(g[a + 1].len() == width(g));
                assert(g[a + 1][k]);
            }
        } else {
            assert(g[k].len() == width(g));
            assert(g[k][a]);
            if a > 0 {
                assert(g[k][a - 1]);
            }
            if a + 1 < width(g) {
                assert(g[k][a + 1]);
            }
        }
    }
    lemma_runs_constant(bits);
    assert(side_faces(g, dir, a) =~= run_faces(runs(bits), dir, face_line(dir, a)));
}

proof fn lemma_full_rows(g: Seq<Seq<bool>>, n: int)
    requires
        all_inside(g),
        0 <= n <= g.len(),
    ensures
        row_faces(g, n) == (if n >= 1 {
            seq![GridFace { dir: EdgeDir::Up, line: 0usize, start: 0usize, end: width(g) as usize }]
        } else {
            Seq::<GridFace>::empty()
        }) + (if n == g.len() {
            seq![GridFace { dir: EdgeDir::Down, line: g.len() as usize, start: 0usize, end: width(g) as usize }]
        } else {
            Seq::<GridFace>::empty()
        }),
    decreases n,
{
    if n > 0 {
        lemma_full_rows(g, n - 1);
        lemma_full_side(g, EdgeDir::Up, n - 1);
        lemma_full_side(g, EdgeDir::Down, n - 1);
        assert(row_faces(g, n) =~= (if n >= 1 {
            seq![GridFace { dir: EdgeDir::Up, line: 0usize, start: 0usize, end: width(g) as usize }]
        } else {
            Seq::<GridFace>::empty()
        }) + (if n == g.len() {
            seq![GridFace { dir: EdgeDir::Down, line: g.len() as usize, start: 0usize, end: width(g) as usize }]
        } else {
            Seq::<GridFace>::empty()
        }));
    }
}

proof fn lemma_full_columns(g: Seq<Seq<bool>>, n: int)
    requires
        all_inside(g),
        0 <= n <= width(g),
    ensures
        column_faces(g, n) == (if n >= 1 {
            seq![GridFace { dir: EdgeDir::Left, line: 0usize, start: 0usize, end: g.len() as usize }]
        } else {
            Seq::<GridFace>::empty()
        }) + (if n == width(g) {
            seq![GridFace { dir: EdgeDir::Right, line: width(g) as usize, start: 0usize, end: g.len() as usize }]
        } else {
            Seq::<GridFace>::empty()
        }),
    decreases n,
{
    if n > 0 {
        lemma_full_columns(g, n - 1);
        lemma_full_side(g, EdgeDir::Left, n - 1);
        lemma_full_side(g, EdgeDir::Right, n - 1);
        assert(column_faces(g, n) =~= (if n >= 1 {
            seq![GridFace { dir: EdgeDir::Left, line: 0usize, start: 0usize, end: g.len() as usize }]
        } else {
            Seq::<GridFace>::empty()
        }) + (if n == width(g) {
            seq![GridFace { dir: EdgeDir::Right, line: width(g) as usize, start: 0usize, end: g.len() as usize }]
        } else {
            Seq::<GridFace>::empty()
        }));
    }
}

/// A union that is exactly a rectangle draws as one outline: four faces, one
/// per side, each spanning the whole side, and the four corner miters.
pub proof fn lemma_rectangle_outline(g: Seq<Seq<bool>>)
    requires
        all_inside(g),
        g.len() < usize::MAX,
        width(g) < usize::MAX,
    ensures
        ({
            let ny = g.len() as usize;
            let nx = width(g) as usize;
            &&& face_runs(g) == seq![
                GridFace { dir: EdgeDir::Up, line: 0usize, start: 0usize, end: nx },
                GridFace { dir: EdgeDir::Down, line: ny, start: 0usize, end: nx },
                GridFace { dir: EdgeDir::Left, line: 0usize, start: 0usize, end: ny },
                GridFace { dir: EdgeDir::Right, line: nx, start: 0usize, end: ny },
            ]
            &&& forall|d: Corner| #[trigger] is_corner(face_runs(g), d) <==> (d == (0usize, 0usize, 1i8, 1i8)
                || d == (0usize, ny, 1i8, -1i8) || d == (nx, 0usize, -1i8, 1i8) || d == (nx, ny, -1i8, -1i8))
        }),
{
    let ny = g.len() as usize;
    let nx = width(g) as usize;
    lemma_full_rows(g, g.len() as int);
    lemma_full_columns(g, width(g));
    let f = face_runs(g);
    assert(f =~= seq![
        GridFace { dir: EdgeDir::Up, line: 0usize, start: 0usize, end: nx },
        GridFace { dir: EdgeDir::Down, line: ny, start: 0usize, end: nx },
        GridFace { dir: EdgeDir::Left, line: 0usize, start: 0usize, end: ny },
        GridFace { dir: EdgeDir::Right, line: nx, start: 0usize, end: ny },
    ]);
    assert forall|d: Corner| #[trigger] is_corner(f, d) <==> (d == (0usize, 0usize, 1i8, 1i8)
        || d == (0usize, ny, 1i8, -1i8) || d == (nx, 0usize, -1i8, 1i8) || d == (nx, ny, -1i8, -1i8)) by {
        if is_corner(f, d) {
            let (a, b) = choose|a: int, b: int|
                0 <= a < f.len() && 0 <= b < f.len() && #[trigger] pair_corner(f[a], f[b], d);
            assert(a == 0 || a == 1);
            assert(b == 2 || b == 3);
        }
        if d == (0usize, 0usize, 1i8, 1i8) {
            assert(pair_corner(f[0], f[2], d));
        }
        if d == (0usize, ny, 1i8, -1i8) {
            assert(pair_corner(f[1], f[2], d));
        }
        if d == (nx, 0usize, -1i8, 1i8) {
            assert(pair_corner(f[0], f[3], d));
        }
        if d == (nx, ny, -1i8, -1i8) {
            assert(pair_corner(f[1], f[3], d));
        }
    }
}

// ---------------------------------------------------------------------------
// Filled runs.
// ---------------------------------------------------------------------------

/// The filled runs of the first `n` rows: `(row, start, end)` for each
/// maximal run of inside cells, row by row, left to right.
pub open spec fn filled_runs_of(g: Seq<Seq<bool>>, n: int) -> Seq<(usize, usize, usize)>
    decreases n,
{
    if n <= 0 {
        seq![]
    } else {
        filled_runs_of(g, n - 1) + runs(g[n - 1]).map_values(
            |p: (int, int)| ((n - 1) as usize, p.0 as usize, p.1 as usize),
        )
    }
}

/// The filled region as maximal runs of inside cells, row by row: `(row,
/// start, end)` covers cells `start..end` of row `row`.
pub fn filled_runs(inside: &Vec<Vec<bool>>) -> (r: Vec<(usize, usize, usize)>)
    ensures
        r@ == filled_runs_of(grid_view(inside), inside@.len() as int),
{
    let ghost gv = grid_view(inside);
    let ny = inside.len();
    let mut r: Vec<(usize, usize, usize)> = Vec::new();
    let mut j: usize = 0;
    while j < ny
        invariant
            gv == grid_view(inside),
            ny == gv.len(),
            j <= ny,
            r@ == filled_runs_of(gv, j as int),
        decreases ny - j,
    {
        let rs = runs_of(&inside[j]);
        assert(inside@[j as int]@ == gv[j as int]);
        let ghost start = r@;
        let ghost tagged = runs(gv[j as int]).map_values(
            |p: (int, int)| (j as usize, p.0 as usize, p.1 as usize),
        );
        let mut k: usize = 0;
        while k < rs.len()
            invariant
                k <= rs@.len(),
                run_view(rs@) == runs(gv[j as int]),
                tagged == runs(gv[j as int]).map_values(
                    |p: (int, int)| (j as usize, p.0 as usize, p.1 as usize),
                ),
                r@ == start + tagged.take(k as int),
            decreases rs.len() - k,
        {
            let (s, e) = rs[k];
            assert(run_view(rs@)[k as int] == (s as int, e as int));
            r.push((j, s, e));
            k = k + 1;
            assert(r@ =~= start + tagged.take(k as int));
        }
        assert(tagged.take(k as int) =~= tagged);
        j = j + 1;
    }
    r
}

proof fn lemma_filled_runs_contain(g: Seq<Seq<bool>>, n: int, j: int, i: int)
    requires
        0 <= j < n,
        0 <= i < runs(g[j]).len(),
    ensures
        filled_runs_of(g, n).contains(((j as usize), runs(g[j])[i].0 as usize, runs(g[j])[i].1 as usize)),
    decreases n,
{
    let prev = filled_runs_of(g, n - 1);
    let last = runs(g[n - 1]).map_values(|p: (int, int)| ((n - 1) as usize, p.0 as usize, p.1 as usize));
    let x = ((j as usize), runs(g[j])[i].0 as usize, runs(g[j])[i].1 as usize);
    assert(filled_runs_of(g, n) == prev + last);
    if j == n - 1 {
        assert(filled_runs_of(g, n)[prev.len() + i] == x);
    } else {
        lemma_filled_runs_contain(g, n - 1, j, i);
        let t = choose|t: int| 0 <= t < prev.len() && prev[t] == x;
        assert(filled_runs_of(g, n)[t] == x);
    }
}

proof fn lemma_filled_runs_sound(g: Seq<Seq<bool>>, n: int)
    requires
        n <= g.len(),
        g.len() <= usize::MAX,
        forall|j: int| 0 <= j < g.len() ==> #[trigger] g[j].len() <= usize::MAX,
    ensures
        forall|t: int| 0 <= t < filled_runs_of(g, n).len() ==> {
            let r = #[trigger] filled_runs_of(g, n)[t];
            &&& r.0 < n
            &&& r.1 < r.2 <= g[r.0 as int].len()
            &&& forall|k: int| r.1 <= k < r.2 ==> g[r.0 as int][k]
        },
    decreases n,
{
    if n > 0 {
        lemma_filled_runs_sound(g, n - 1);
        let row = g[n - 1];
        lemma_runs_maximal(row);
        let prev = filled_runs_of(g, n - 1);
        let rs = runs(row);
        assert forall|t: int| 0 <= t < filled_runs_of(g, n).len() implies {
            let r = #[trigger] filled_runs_of(g, n)[t];
            &&& r.0 < n
            &&& r.1 < r.2 <= g[r.0 as int].len()
            &&& forall|k: int| r.1 <= k < r.2 ==> g[r.0 as int][k]
        } by {
            if t < prev.len() {
                assert(filled_runs_of(g, n)[t] == prev[t]);
            } else {
                let i = t - prev.len();
                assert(filled_runs_of(g, n)[t] == ((n - 1) as usize, rs[i].0 as usize, rs[i].1 as usize));
                assert(0 <= rs[i].0 < rs[i].1 <= row.len());
                assert forall|k: int| rs[i].0 <= k < rs[i].1 implies row[k] by {}
            }
        }
    }
}

/// The filled runs are exactly the inside cells: every run lies in its row
/// and covers only inside cells, and every inside cell lies in some run of its
/// row.
pub proof fn lemma_filled_runs_exact(g: Seq<Seq<bool>>)
    requires
        g.len() <= usize::MAX,
        forall|j: int| 0 <= j < g.len() ==> #[trigger] g[j].len() <= usize::MAX,
    ensures
        forall|t: int| 0 <= t < filled_runs_of(g, g.len() as int).len() ==> {
            let r = #[trigger] filled_runs_of(g, g.len() as int)[t];
            &&& r.0 < g.len()
            &&& r.1 < r.2 <= g[r.0 as int].len()
            &&& forall|k: int| r.1 <= k < r.2 ==> g[r.0 as int][k]
        },
        forall|j: int, k: int|
            0 <= j < g.len() && 0 <= k < g[j].len() && #[trigger] g[j][k] ==> exists|r: (usize, usize, usize)|
                #[trigger] filled_runs_of(g, g.len() as int).contains(r) && r.0 == j && r.1 <= k < r.2,
{
    lemma_filled_runs_sound(g, g.len() as int);
    assert forall|j: int, k: int|
        0 <= j < g.len() && 0 <= k < g[j].len() && #[trigger] g[j][k] implies exists|r: (usize, usize, usize)|
            #[trigger] filled_runs_of(g, g.len() as int).contains(r) && r.0 == j && r.1 <= k < r.2 by {
        lemma_runs_maximal(g[j]);
        let rs = runs(g[j]);
        let i = choose|i: int| 0 <= i < rs.len() && (#[trigger] rs[i]).0 <= k < rs[i].1;
        lemma_filled_runs_contain(g, g.len() as int, j, i);
        let r = ((j as usize), rs[i].0 as usize, rs[i].1 as usize);
        assert(filled_runs_of(g, g.len() as int).contains(r));
    }
}

} // verus!
