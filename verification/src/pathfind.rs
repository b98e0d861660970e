//! Shortest-path search: given a start cell and a finite set of goal cells,
//! return a shortest 4-connected path over passable cells, or report that no
//! goal is reachable.

use vstd::prelude::*;
use vstd::pervasive::VecAdditionalExecFns;
use vstd::set_lib::{lemma_int_range, lemma_len_subset, set_int_range};

use crate::grid::{adjacent4, CellIndex, TileGrid, GRID_DIM_MAX};

verus! {

broadcast use vstd::group_vstd_default;

/// Every step of the sequence moves to a 4-adjacent, passable cell.
pub open spec fn valid_steps(g: TileGrid, p: Seq<CellIndex>) -> bool {
    forall|i: int, j: int|
        #![trigger p[i], p[j]]
        0 <= i && j == i + 1 && j < p.len() ==> adjacent4(p[i], p[j]) && g.spec_passable(p[j])
}

/// A well-formed path: starts at `start`, ends in `goals`, and every step is
/// a move to a 4-adjacent passable cell. The start cell itself need not be
/// passable (an agent may stand on a cell that has become blocked).
pub open spec fn path_ok(g: TileGrid, p: Seq<CellIndex>, start: CellIndex, goals: Seq<CellIndex>) -> bool {
    &&& p.len() >= 1
    &&& p[0] == start
    &&& goals.contains(p[p.len() - 1])
    &&& valid_steps(g, p)
}

/// Adjacency of two cells given by their mathematical coordinates.
pub open spec fn adj_xy(ax: int, ay: int, bx: int, by: int) -> bool {
    (ax == bx && (ay - by == 1 || by - ay == 1)) || (ay == by && (ax - bx == 1 || bx - ax == 1))
}

spec fn cell_xy(x: int, y: int) -> CellIndex {
    CellIndex { x: x as i32, y: y as i32 }
}

spec fn pass_xy(g: TileGrid, x: int, y: int) -> bool {
    &&& 0 <= x < g.spec_width() as int
    &&& 0 <= y < g.spec_height() as int
    &&& g.spec_passable(cell_xy(x, y))
}

spec fn lab(ds: Seq<u32>, w: int, h: int, x: int, y: int) -> bool {
    0 <= x < w && 0 <= y < h && ds[y * w + x] != 0
}

spec fn dv(ds: Seq<u32>, w: int, x: int, y: int) -> int {
    ds[y * w + x] as int
}

spec fn labset(ds: Seq<u32>) -> Set<int> {
    Set::new(|i: int| 0 <= i < ds.len() && ds[i] != 0)
}

spec fn dkx(k: int) -> int {
    if k == 0 {
        -1
    } else if k == 1 {
        1
    } else {
        0
    }
}

spec fn dky(k: int) -> int {
    if k == 2 {
        -1
    } else if k == 3 {
        1
    } else {
        0
    }
}

proof fn lemma_pass_equiv(g: TileGrid, c: CellIndex)
    ensures
        pass_xy(g, c.x as int, c.y as int) == g.spec_passable(c),
{
    g.lemma_passable_in_bounds(c);
    if g.in_bounds(c) {
        assert(cell_xy(c.x as int, c.y as int) == c);
    }
}

proof fn lemma_xy_range(w: int, h: int, x: int, y: int)
    requires
        0 <= x < w,
        0 <= y < h,
    ensures
        0 <= y * w + x,
        y * w + x < w * h,
{
    assert(0 <= y * w && y * w + x < w * h) by (nonlinear_arith)
        requires
            0 <= x < w,
            0 <= y < h,
    ;
}

proof fn lemma_xy_inj(w: int, h: int, x1: int, y1: int, x2: int, y2: int)
    requires
        0 <= x1 < w,
        0 <= y1 < h,
        0 <= x2 < w,
        0 <= y2 < h,
        y1 * w + x1 == y2 * w + x2,
    ensures
        x1 == x2,
        y1 == y2,
{
    assert(x1 == x2 && y1 == y2) by (nonlinear_arith)
        requires
            0 <= x1 < w,
            0 <= y1 < h,
            0 <= x2 < w,
            0 <= y2 < h,
            y1 * w + x1 == y2 * w + x2,
    ;
}

proof fn lemma_adj_dir(ax: int, ay: int, bx: int, by: int)
    requires
        adj_xy(ax, ay, bx, by),
    ensures
        exists|k: int| 0 <= k < 4 && bx == ax + #[trigger] dkx(k) && by == ay + dky(k),
{
    if ay == by && ax - bx == 1 {
        assert(bx == ax + dkx(0) && by == ay + dky(0));
    } else if ay == by && bx - ax == 1 {
        assert(bx == ax + dkx(1) && by == ay + dky(1));
    } else if ax == bx && ay - by == 1 {
        assert(bx == ax + dkx(2) && by == ay + dky(2));
    } else {
        assert(bx == ax + dkx(3) && by == ay + dky(3));
    }
}

/// When the labelled entry at a fresh index is set, labelling of every other
/// cell and its distance value are unchanged.
proof fn lemma_update_lab(ds0: Seq<u32>, v: u32, w: int, h: int, nxv: int, nyv: int, x: int, y: int)
    requires
        0 <= nxv < w,
        0 <= nyv < h,
        ds0.len() == w * h,
        v != 0,
        0 <= x < w,
        0 <= y < h,
    ensures
        lab(ds0.update(nyv * w + nxv, v), w, h, x, y) <==> (lab(ds0, w, h, x, y) || (x == nxv
            && y == nyv)),
        !(x == nxv && y == nyv) ==> dv(ds0.update(nyv * w + nxv, v), w, x, y) == dv(ds0, w, x, y),
        (x == nxv && y == nyv) ==> dv(ds0.update(nyv * w + nxv, v), w, x, y) == v as int,
{
    lemma_xy_range(w, h, x, y);
    lemma_xy_range(w, h, nxv, nyv);
    if y * w + x == nyv * w + nxv {
        lemma_xy_inj(w, h, x, y, nxv, nyv);
    }
}

spec fn parent_ok_at(start: CellIndex, ds: Seq<u32>, ps: Seq<CellIndex>, w: int, h: int, x: int, y: int) -> bool {
    let pr = ps[y * w + x];
    &&& adj_xy(pr.x as int, pr.y as int, x, y)
    &&& (pr == start || (lab(ds, w, h, pr.x as int, pr.y as int) && dv(ds, w, pr.x as int, pr.y as int) < dv(ds, w, x, y)))
}

spec fn labels_ok(g: TileGrid, start: CellIndex, ds: Seq<u32>, ps: Seq<CellIndex>, w: int, h: int) -> bool {
    &&& ds.len() == w * h
    &&& ps.len() == w * h
    &&& forall|x: int, y: int| #[trigger]
        lab(ds, w, h, x, y) ==> pass_xy(g, x, y) && !(x == start.x as int && y == start.y as int)
            && parent_ok_at(start, ds, ps, w, h, x, y)
}

spec fn count_ok(ds: Seq<u32>, w: int, h: int) -> bool {
    &&& labset(ds).finite()
    &&& labset(ds).len() <= w * h
    &&& forall|x: int, y: int| #[trigger] lab(ds, w, h, x, y) ==> dv(ds, w, x, y) <= labset(ds).len()
}

spec fn start_closed(g: TileGrid, start: CellIndex, ds: Seq<u32>, w: int, h: int) -> bool {
    forall|x: int, y: int|
        adj_xy(start.x as int, start.y as int, x, y) && #[trigger] pass_xy(g, x, y) ==> lab(
            ds,
            w,
            h,
            x,
            y,
        ) && dv(ds, w, x, y) == 1
}

#[verifier::opaque]
spec fn closed_xy(g: TileGrid, start: CellIndex, ds: Seq<u32>, w: int, h: int, cx: int, cy: int) -> bool {
    forall|x: int, y: int|
        adj_xy(cx, cy, x, y) && #[trigger] pass_xy(g, x, y) && !(x == start.x as int && y
            == start.y as int) ==> lab(ds, w, h, x, y) && dv(ds, w, x, y) <= dv(ds, w, cx, cy) + 1
}

spec fn all_closed(g: TileGrid, start: CellIndex, ds: Seq<u32>, w: int, h: int) -> bool {
    forall|x: int, y: int| #[trigger] lab(ds, w, h, x, y) ==> closed_xy(g, start, ds, w, h, x, y)
}

#[verifier::opaque]
spec fn in_suffix(q: Seq<CellIndex>, qi: int, x: int, y: int) -> bool {
    exists|j: int| qi <= j < q.len() && (#[trigger] q[j]).x as int == x && q[j].y as int == y
}

spec fn nbr_done(g: TileGrid, start: CellIndex, ds: Seq<u32>, w: int, h: int, cx: int, cy: int, dcv: int, k: int) -> bool {
    let nx = cx + dkx(k);
    let ny = cy + dky(k);
    pass_xy(g, nx, ny) && !(nx == start.x as int && ny == start.y as int) ==> lab(ds, w, h, nx, ny)
        && dv(ds, w, nx, ny) <= dcv + 1
}

spec fn sdone(g: TileGrid, ds: Seq<u32>, w: int, h: int, sx: int, sy: int, k: int) -> bool {
    let nx = sx + dkx(k);
    let ny = sy + dky(k);
    pass_xy(g, nx, ny) ==> lab(ds, w, h, nx, ny) && dv(ds, w, nx, ny) == 1
}

/// Once all four directions around a labelled cell have been expanded, the
/// cell is closed.
proof fn lemma_done_to_closed(g: TileGrid, start: CellIndex, ds: Seq<u32>, w: int, h: int, cx: int, cy: int, dcv: int)
    requires
        forall|kk: int| 0 <= kk < 4 ==> #[trigger] nbr_done(g, start, ds, w, h, cx, cy, dcv, kk),
        dv(ds, w, cx, cy) == dcv,
    ensures
        closed_xy(g, start, ds, w, h, cx, cy),
{
    reveal(closed_xy);
    assert forall|x: int, y: int|
        adj_xy(cx, cy, x, y) && #[trigger] pass_xy(g, x, y) && !(x == start.x as int && y
            == start.y as int) implies lab(ds, w, h, x, y) && dv(ds, w, x, y) <= dv(ds, w, cx, cy)
        + 1 by {
        lemma_adj_dir(cx, cy, x, y);
        let kk = choose|kk: int| 0 <= kk < 4 && x == cx + #[trigger] dkx(kk) && y == cy + dky(kk);
        assert(nbr_done(g, start, ds, w, h, cx, cy, dcv, kk));
    }
}

/// Expanding every direction around the start establishes the start closure.
proof fn lemma_sdone_to_start_closed(g: TileGrid, start: CellIndex, ds: Seq<u32>, w: int, h: int)
    requires
        forall|kk: int| 0 <= kk < 4 ==> #[trigger] sdone(g, ds, w, h, start.x as int, start.y as int, kk),
    ensures
        start_closed(g, start, ds, w, h),
{
    assert forall|x: int, y: int|
        adj_xy(start.x as int, start.y as int, x, y) && #[trigger] pass_xy(g, x, y) implies lab(
        ds,
        w,
        h,
        x,
        y,
    ) && dv(ds, w, x, y) == 1 by {
        lemma_adj_dir(start.x as int, start.y as int, x, y);
        let kk = choose|kk: int|
            0 <= kk < 4 && x == start.x as int + #[trigger] dkx(kk) && y == start.y as int + dky(kk);
        assert(sdone(g, ds, w, h, start.x as int, start.y as int, kk));
    }
}

/// Shared requirements of the label-step lemmas: a fresh label `nv == dc + 1`
/// is written for the unlabelled passable cell `d`, discovered from the
/// labelled cell `c` whose label is `dc`.
spec fn label_step_pre(
    g: TileGrid,
    start: CellIndex,
    ds0: Seq<u32>,
    ds1: Seq<u32>,
    w: int,
    h: int,
    c: CellIndex,
    d: CellIndex,
    dc: u32,
    nv: u32,
) -> bool {
    &&& ds0.len() == w * h
    &&& lab(ds0, w, h, c.x as int, c.y as int)
    &&& dv(ds0, w, c.x as int, c.y as int) == dc as int
    &&& dc >= 1
    &&& 0 <= (d.x as int) && (d.x as int) < w
    &&& 0 <= (d.y as int) && (d.y as int) < h
    &&& pass_xy(g, d.x as int, d.y as int)
    &&& !(d.x as int == start.x as int && d.y as int == start.y as int)
    &&& ds0[d.y as int * w + d.x as int] == 0
    &&& adj_xy(c.x as int, c.y as int, d.x as int, d.y as int)
    &&& nv as int == dc as int + 1
    &&& ds1 == ds0.update(d.y as int * w + d.x as int, nv)
}

/// A fresh label leaves every existing label in place and adds exactly one
/// member to the label set.
#[verifier::rlimit(100)]
proof fn lemma_label_values(
    g: TileGrid,
    start: CellIndex,
    ds0: Seq<u32>,
    ds1: Seq<u32>,
    w: int,
    h: int,
    c: CellIndex,
    d: CellIndex,
    dc: u32,
    nv: u32,
)
    requires
        label_step_pre(g, start, ds0, ds1, w, h, c, d, dc, nv),
        count_ok(ds0, w, h),
        forall|x: int, y: int| #[trigger] lab(ds0, w, h, x, y) ==> dv(ds0, w, x, y) <= dc as int + 1,
    ensures
        count_ok(ds1, w, h),
        labset(ds1) == labset(ds0).insert(d.y as int * w + d.x as int),
        labset(ds1).len() == labset(ds0).len() + 1,
        forall|x: int, y: int| #[trigger]
            lab(ds1, w, h, x, y) ==> lab(ds0, w, h, x, y) || (x == d.x as int && y == d.y as int),
        forall|x: int, y: int| #[trigger]
            lab(ds0, w, h, x, y) ==> lab(ds1, w, h, x, y) && dv(ds1, w, x, y) == dv(ds0, w, x, y),
        lab(ds1, w, h, d.x as int, d.y as int),
        dv(ds1, w, d.x as int, d.y as int) == dc as int + 1,
        forall|x: int, y: int| #[trigger] lab(ds1, w, h, x, y) ==> dv(ds1, w, x, y) <= dc as int + 1,
{
    let nxv = d.x as int;
    let nyv = d.y as int;
    let di = nyv * w + nxv;
    lemma_xy_range(w, h, nxv, nyv);
    assert(ds1.len() == w * h);
    assert(labset(ds1) =~= labset(ds0).insert(di));
    assert(!labset(ds0).contains(di));
    assert(labset(ds1).len() == labset(ds0).len() + 1);
    assert forall|i: int| labset(ds1).contains(i) implies set_int_range(0, w * h).contains(i) by {
        assert(0 <= i < ds1.len());
        assert(ds1.len() == w * h);
    }
    lemma_int_range(0, w * h);
    lemma_len_subset(labset(ds1), set_int_range(0, w * h));
    assert forall|x: int, y: int| #[trigger]
        lab(ds1, w, h, x, y) implies (lab(ds0, w, h, x, y) || (x == nxv && y == nyv)) && dv(
        ds1,
        w,
        x,
        y,
    ) <= dc as int + 1 && dv(ds1, w, x, y) <= labset(ds1).len() by {
        lemma_update_lab(ds0, nv, w, h, nxv, nyv, x, y);
    }
    assert forall|x: int, y: int| #[trigger]
        lab(ds0, w, h, x, y) implies lab(ds1, w, h, x, y) && dv(ds1, w, x, y) == dv(ds0, w, x, y) by {
        lemma_update_lab(ds0, nv, w, h, nxv, nyv, x, y);
    }
    lemma_update_lab(ds0, nv, w, h, nxv, nyv, nxv, nyv);
}

/// A fresh label keeps the parent records of every labelled cell consistent.
#[verifier::rlimit(100)]
proof fn lemma_label_parents(
    g: TileGrid,
    start: CellIndex,
    ds0: Seq<u32>,
    ps0: Seq<CellIndex>,
    ds1: Seq<u32>,
    ps1: Seq<CellIndex>,
    w: int,
    h: int,
    c: CellIndex,
    d: CellIndex,
    dc: u32,
    nv: u32,
)
    requires
        label_step_pre(g, start, ds0, ds1, w, h, c, d, dc, nv),
        labels_ok(g, start, ds0, ps0, w, h),
        ps1 == ps0.update(d.y as int * w + d.x as int, c),
    ensures
        labels_ok(g, start, ds1, ps1, w, h),
{
    let nxv = d.x as int;
    let nyv = d.y as int;
    lemma_xy_range(w, h, nxv, nyv);
    assert(ds1.len() == w * h && ps1.len() == w * h);
    assert forall|x: int, y: int| #[trigger]
        lab(ds1, w, h, x, y) implies pass_xy(g, x, y) && !(x == start.x as int && y
        == start.y as int) && parent_ok_at(start, ds1, ps1, w, h, x, y) by {
        lemma_update_lab(ds0, nv, w, h, nxv, nyv, x, y);
        lemma_xy_range(w, h, x, y);
        lemma_xy_range(w, h, nxv, nyv);
        if lab(ds0, w, h, x, y) {
            if y * w + x == nyv * w + nxv {
                lemma_xy_inj(w, h, x, y, nxv, nyv);
                assert(false);
            }
            assert(ps1[y * w + x] == ps0[y * w + x]);
            let pr = ps0[y * w + x];
            if pr != start {
                assert(lab(ds0, w, h, pr.x as int, pr.y as int));
                lemma_update_lab(ds0, nv, w, h, nxv, nyv, pr.x as int, pr.y as int);
            }
        } else {
            assert(x == nxv && y == nyv);
            assert(ps1[y * w + x] == c);
            assert(lab(ds0, w, h, c.x as int, c.y as int));
            lemma_update_lab(ds0, nv, w, h, nxv, nyv, c.x as int, c.y as int);
            assert(dv(ds1, w, c.x as int, c.y as int) == dc as int);
            assert(dv(ds1, w, x, y) == nv as int);
            assert(adj_xy(c.x as int, c.y as int, x, y));
            assert(parent_ok_at(start, ds1, ps1, w, h, x, y));
        }
    }
}

/// A fresh label keeps the start closure and every established cell closure.
#[verifier::rlimit(100)]
proof fn lemma_label_closures(
    g: TileGrid,
    start: CellIndex,
    ds0: Seq<u32>,
    ds1: Seq<u32>,
    w: int,
    h: int,
    c: CellIndex,
    d: CellIndex,
    dc: u32,
    nv: u32,
)
    requires
        label_step_pre(g, start, ds0, ds1, w, h, c, d, dc, nv),
        start_closed(g, start, ds0, w, h),
    ensures
        start_closed(g, start, ds1, w, h),
        forall|x: int, y: int|
            #[trigger] lab(ds0, w, h, x, y) && closed_xy(g, start, ds0, w, h, x, y) ==> closed_xy(
                g,
                start,
                ds1,
                w,
                h,
                x,
                y,
            ),
{
    reveal(closed_xy);
    let nxv = d.x as int;
    let nyv = d.y as int;
    lemma_xy_range(w, h, nxv, nyv);
    // a fresh label is never adjacent to the start: any passable neighbour of
    // the start was already labelled during seeding
    assert forall|x: int, y: int|
        adj_xy(start.x as int, start.y as int, x, y) && #[trigger] pass_xy(g, x, y) implies lab(
        ds1,
        w,
        h,
        x,
        y,
    ) && dv(ds1, w, x, y) == 1 by {
        assert(lab(ds0, w, h, x, y) && dv(ds0, w, x, y) == 1);
        lemma_update_lab(ds0, nv, w, h, nxv, nyv, x, y);
    }
    assert forall|x: int, y: int|
        #[trigger] lab(ds0, w, h, x, y) && closed_xy(g, start, ds0, w, h, x, y) implies closed_xy(
        g,
        start,
        ds1,
        w,
        h,
        x,
        y,
    ) by {
        assert forall|x2: int, y2: int|
            adj_xy(x, y, x2, y2) && #[trigger] pass_xy(g, x2, y2) && !(x2 == start.x as int && y2
                == start.y as int) implies lab(ds1, w, h, x2, y2) && dv(ds1, w, x2, y2) <= dv(
            ds1,
            w,
            x,
            y,
        ) + 1 by {
            assert(lab(ds0, w, h, x2, y2) && dv(ds0, w, x2, y2) <= dv(ds0, w, x, y) + 1);
            lemma_update_lab(ds0, nv, w, h, nxv, nyv, x2, y2);
            lemma_update_lab(ds0, nv, w, h, nxv, nyv, x, y);
        }
    }
}

/// Any path from `start` along passable cells ends at a labelled cell whose
/// distance label is at most the number of steps of the path, provided every
/// labelled cell (and the start) is closed under neighbour expansion.
proof fn lemma_reach_bound(g: TileGrid, start: CellIndex, ds: Seq<u32>, w: int, h: int, p: Seq<CellIndex>)
    requires
        start_closed(g, start, ds, w, h),
        all_closed(g, start, ds, w, h),
        p.len() >= 1,
        p[0] == start,
        valid_steps(g, p),
    ensures
        p[p.len() - 1] != start ==> lab(ds, w, h, p[p.len() - 1].x as int, p[p.len() - 1].y as int)
            && dv(ds, w, p[p.len() - 1].x as int, p[p.len() - 1].y as int) <= p.len() - 1,
    decreases p.len(),
{
    reveal(closed_xy);
    let n = p.len() as int;
    let last = p[n - 1];
    if last != start {
        assert(n >= 2);
        let prev = p[n - 2];
        assert(adjacent4(prev, last) && g.spec_passable(last));
        lemma_pass_equiv(g, last);
        assert(adj_xy(prev.x as int, prev.y as int, last.x as int, last.y as int));
        if prev == start {
            assert(lab(ds, w, h, last.x as int, last.y as int) && dv(ds, w, last.x as int, last.y as int) == 1);
        } else {
            let q = p.drop_last();
            assert(q.len() == n - 1);
            assert(q[0] == p[0]);
            assert(valid_steps(g, q)) by {
                assert forall|i: int, j: int|
                    #![trigger q[i], q[j]]
                    0 <= i && j == i + 1 && j < q.len() implies adjacent4(q[i], q[j])
                    && g.spec_passable(q[j]) by {
                    assert(q[i] == p[i] && q[j] == p[j]);
                }
            }
            lemma_reach_bound(g, start, ds, w, h, q);
            assert(q[q.len() - 1] == prev);
            assert(lab(ds, w, h, prev.x as int, prev.y as int));
            assert(closed_xy(g, start, ds, w, h, prev.x as int, prev.y as int));
            assert(lab(ds, w, h, last.x as int, last.y as int) && dv(ds, w, last.x as int, last.y as int)
                <= dv(ds, w, prev.x as int, prev.y as int) + 1);
        }
    }
}

/// After a cell has been fully expanded, every labelled cell is either still
/// queued or closed.
proof fn lemma_round_close(
    g: TileGrid,
    start: CellIndex,
    ds: Seq<u32>,
    w: int,
    h: int,
    q: Seq<CellIndex>,
    qi: int,
    c: CellIndex,
    dc: u32,
)
    requires
        dv(ds, w, c.x as int, c.y as int) == dc as int,
        forall|kk: int|
            0 <= kk < 4 ==> #[trigger] nbr_done(g, start, ds, w, h, c.x as int, c.y as int, dc as int, kk),
        forall|x: int, y: int| #[trigger]
            lab(ds, w, h, x, y) ==> (x == c.x as int && y == c.y as int) || in_suffix(q, qi, x, y)
                || closed_xy(g, start, ds, w, h, x, y),
    ensures
        forall|x: int, y: int| #[trigger]
            lab(ds, w, h, x, y) ==> in_suffix(q, qi, x, y) || closed_xy(g, start, ds, w, h, x, y),
{
    lemma_done_to_closed(g, start, ds, w, h, c.x as int, c.y as int, dc as int);
    assert forall|x: int, y: int| #[trigger]
        lab(ds, w, h, x, y) implies in_suffix(q, qi, x, y) || closed_xy(g, start, ds, w, h, x, y) by {
        if !(x == c.x as int && y == c.y as int) {
            assert(lab(ds, w, h, x, y));
        }
    }
}

/// Expand the four neighbours of the popped cell `c`, labelling each
/// unlabelled passable one with `dc + 1` and appending it to the queue.
#[verifier::rlimit(100)]
fn expand_cell(
    g: &TileGrid,
    start: CellIndex,
    dist: &mut Vec<u32>,
    parent: &mut Vec<CellIndex>,
    queue: &mut Vec<CellIndex>,
    qi: usize,
    c: CellIndex,
    dc: u32,
    w: usize,
    h: usize,
    wh: usize,
)
    requires
        g.wf(),
        w as int == g.spec_width() && h as int == g.spec_height(),
        wh == w * h,
        wh <= GRID_DIM_MAX * GRID_DIM_MAX,
        w <= GRID_DIM_MAX && h <= GRID_DIM_MAX,
        qi <= old(queue)@.len(),
        old(dist)@.len() == wh,
        old(parent)@.len() == wh,
        labels_ok(*g, start, old(dist)@, old(parent)@, w as int, h as int),
        count_ok(old(dist)@, w as int, h as int),
        start_closed(*g, start, old(dist)@, w as int, h as int),
        lab(old(dist)@, w as int, h as int, c.x as int, c.y as int),
        dv(old(dist)@, w as int, c.x as int, c.y as int) == dc as int,
        dc >= 1,
        forall|x: int, y: int| #[trigger]
            lab(old(dist)@, w as int, h as int, x, y) ==> dv(old(dist)@, w as int, x, y) <= dc as int + 1,
        forall|j: int|
            qi <= j < old(queue)@.len() ==> lab(
                old(dist)@,
                w as int,
                h as int,
                (#[trigger] old(queue)@[j]).x as int,
                old(queue)@[j].y as int,
            ),
        forall|j: int|
            qi <= j < old(queue)@.len() ==> dc as int <= dv(
                old(dist)@,
                w as int,
                (#[trigger] old(queue)@[j]).x as int,
                old(queue)@[j].y as int,
            ),
        forall|j: int, l: int|
            qi <= j <= l < old(queue)@.len() ==> dv(
                old(dist)@,
                w as int,
                (#[trigger] old(queue)@[j]).x as int,
                old(queue)@[j].y as int,
            ) <= dv(old(dist)@, w as int, (#[trigger] old(queue)@[l]).x as int, old(queue)@[l].y as int),
        forall|x: int, y: int| #[trigger]
            lab(old(dist)@, w as int, h as int, x, y) ==> (x == c.x as int && y == c.y as int)
                || in_suffix(old(queue)@, qi as int, x, y) || closed_xy(
                *g,
                start,
                old(dist)@,
                w as int,
                h as int,
                x,
                y,
            ),
    ensures
        final(dist)@.len() == wh,
        final(parent)@.len() == wh,
        qi <= final(queue)@.len(),
        labels_ok(*g, start, final(dist)@, final(parent)@, w as int, h as int),
        count_ok(final(dist)@, w as int, h as int),
        start_closed(*g, start, final(dist)@, w as int, h as int),
        lab(final(dist)@, w as int, h as int, c.x as int, c.y as int),
        dv(final(dist)@, w as int, c.x as int, c.y as int) == dc as int,
        forall|x: int, y: int| #[trigger]
            lab(final(dist)@, w as int, h as int, x, y) ==> dv(final(dist)@, w as int, x, y) <= dc as int + 1,
        forall|j: int|
            qi <= j < final(queue)@.len() ==> lab(
                final(dist)@,
                w as int,
                h as int,
                (#[trigger] final(queue)@[j]).x as int,
                final(queue)@[j].y as int,
            ),
        forall|j: int|
            qi <= j < final(queue)@.len() ==> dc as int <= dv(
                final(dist)@,
                w as int,
                (#[trigger] final(queue)@[j]).x as int,
                final(queue)@[j].y as int,
            ),
        forall|j: int, l: int|
            qi <= j <= l < final(queue)@.len() ==> dv(
                final(dist)@,
                w as int,
                (#[trigger] final(queue)@[j]).x as int,
                final(queue)@[j].y as int,
            ) <= dv(final(dist)@, w as int, (#[trigger] final(queue)@[l]).x as int, final(queue)@[l].y as int),
        forall|kk: int|
            0 <= kk < 4 ==> #[trigger] nbr_done(
                *g,
                start,
                final(dist)@,
                w as int,
                h as int,
                c.x as int,
                c.y as int,
                dc as int,
                kk,
            ),
        forall|x: int, y: int| #[trigger]
            lab(final(dist)@, w as int, h as int, x, y) ==> (x == c.x as int && y == c.y as int)
                || in_suffix(final(queue)@, qi as int, x, y) || closed_xy(
                *g,
                start,
                final(dist)@,
                w as int,
                h as int,
                x,
                y,
            ),
        labset(old(dist)@).len() <= labset(final(dist)@).len(),
        final(queue)@.len() - labset(final(dist)@).len() == old(queue)@.len() - labset(old(dist)@).len(),
{
    let ghost wi = w as int;
    let ghost hi = h as int;
    let sx = start.x;
    let sy = start.y;
        let ghost qsit = queue@;
        let ghost lit = labset(dist@).len();

        let mut k: usize = 0;
        while k < 4
            invariant
                g.wf(),
                w as int == g.spec_width() && h as int == g.spec_height(),
                wh == w * h && wi == w as int && hi == h as int,
                wh <= GRID_DIM_MAX * GRID_DIM_MAX,
                w <= GRID_DIM_MAX && h <= GRID_DIM_MAX,
                sx == start.x && sy == start.y,
                k <= 4,
                qi <= queue@.len(),
                dist@.len() == wh,
                parent@.len() == wh,
                labels_ok(*g, start, dist@, parent@, wi, hi),
                count_ok(dist@, wi, hi),
                start_closed(*g, start, dist@, wi, hi),
                lab(dist@, wi, hi, c.x as int, c.y as int),
                dv(dist@, wi, c.x as int, c.y as int) == dc as int,
                dc >= 1,
                forall|x: int, y: int| #[trigger] lab(dist@, wi, hi, x, y) ==> dv(dist@, wi, x, y) <= dc as int + 1,
                forall|j: int| qi <= j < queue@.len() ==> lab(dist@, wi, hi, (#[trigger] queue@[j]).x as int, queue@[j].y as int),
                forall|j: int| qi <= j < queue@.len() ==> dc as int <= dv(dist@, wi, (#[trigger] queue@[j]).x as int, queue@[j].y as int),
                forall|j: int, l: int|
                    qi <= j <= l < queue@.len() ==> dv(dist@, wi, (#[trigger] queue@[j]).x as int, queue@[j].y as int) <= dv(
                        dist@,
                        wi,
                        (#[trigger] queue@[l]).x as int,
                        queue@[l].y as int,
                    ),
                forall|kk: int|
                    0 <= kk < k ==> #[trigger] nbr_done(*g, start, dist@, wi, hi, c.x as int, c.y as int, dc as int, kk),
                forall|x: int, y: int| #[trigger]
                    lab(dist@, wi, hi, x, y) ==> (x == c.x as int && y == c.y as int) || in_suffix(
                        queue@,
                        qi as int,
                        x,
                        y,
                    ) || closed_xy(*g, start, dist@, wi, hi, x, y),
                lit <= labset(dist@).len(),
                queue@.len() == qsit.len() + labset(dist@).len() - lit,
            decreases 4 - k,
        {
            let (dx, dy): (i64, i64) = if k == 0 {
                (-1, 0)
            } else if k == 1 {
                (1, 0)
            } else if k == 2 {
                (0, -1)
            } else {
                (0, 1)
            };
            proof {
                assert(dx as int == dkx(k as int) && dy as int == dky(k as int));
            }
            let nx = c.x as i64 + dx;
            let ny = c.y as i64 + dy;
            if 0 <= nx && nx < w as i64 && 0 <= ny && ny < h as i64 {
                let d = CellIndex { x: nx as i32, y: ny as i32 };
                proof {
                    assert(d.x as int == c.x as int + dkx(k as int));
                    assert(d.y as int == c.y as int + dky(k as int));
                    assert(adj_xy(c.x as int, c.y as int, d.x as int, d.y as int));
                }
                if g.is_passable(d) && !(d.x == sx && d.y == sy) {
                    proof {
                        lemma_pass_equiv(*g, d);
                        lemma_xy_range(wi, hi, d.x as int, d.y as int);
                    }
                    let di = (d.y as usize) * w + (d.x as usize);
                    if dist[di] == 0 {
                        let ghost ds0 = dist@;
                        let ghost ps0 = parent@;
                        let ghost qs0 = queue@;
                        let nv = dc + 1;
                        dist.set(di, nv);
                        parent.set(di, c);
                        queue.push(d);
                        proof {
                            assert(label_step_pre(*g, start, ds0, dist@, wi, hi, c, d, dc, nv));
                            lemma_label_values(*g, start, ds0, dist@, wi, hi, c, d, dc, nv);
                            lemma_label_parents(*g, start, ds0, ps0, dist@, parent@, wi, hi, c, d, dc, nv);
                            lemma_label_closures(*g, start, ds0, dist@, wi, hi, c, d, dc, nv);
                            // the freshly labelled cell sits at the end of the queue
                            assert(queue@[queue@.len() - 1] == d);
                            assert forall|kk: int| 0 <= kk < k implies #[trigger] nbr_done(
                                *g,
                                start,
                                dist@,
                                wi,
                                hi,
                                c.x as int,
                                c.y as int,
                                dc as int,
                                kk,
                            ) by {
                                assert(nbr_done(*g, start, ds0, wi, hi, c.x as int, c.y as int, dc as int, kk));
                            }
                            assert forall|j: int| qi <= j < queue@.len() implies lab(
                                dist@,
                                wi,
                                hi,
                                (#[trigger] queue@[j]).x as int,
                                queue@[j].y as int,
                            ) && dc as int <= dv(dist@, wi, queue@[j].x as int, queue@[j].y as int) by {
                                if j < qs0.len() {
                                    assert(queue@[j] == qs0[j]);
                                    assert(lab(ds0, wi, hi, qs0[j].x as int, qs0[j].y as int));
                                } else {
                                    assert(queue@[j] == d);
                                }
                            }
                            assert forall|j: int, l: int|
                                qi <= j <= l < queue@.len() implies dv(
                                dist@,
                                wi,
                                (#[trigger] queue@[j]).x as int,
                                queue@[j].y as int,
                            ) <= dv(dist@, wi, (#[trigger] queue@[l]).x as int, queue@[l].y as int) by {
                                if l < qs0.len() {
                                    assert(queue@[j] == qs0[j] && queue@[l] == qs0[l]);
                                    assert(lab(ds0, wi, hi, qs0[j].x as int, qs0[j].y as int));
                                    assert(lab(ds0, wi, hi, qs0[l].x as int, qs0[l].y as int));
                                } else {
                                    assert(queue@[l] == d);
                                    if j < qs0.len() {
                                        assert(queue@[j] == qs0[j]);
                                        assert(lab(ds0, wi, hi, qs0[j].x as int, qs0[j].y as int));
                                        assert(dv(ds0, wi, qs0[j].x as int, qs0[j].y as int) <= dc as int + 1);
                                    } else {
                                        assert(queue@[j] == d);
                                    }
                                }
                            }
                            // suffix witnesses survive the push
                            assert forall|x: int, y: int| #[trigger]
                                lab(dist@, wi, hi, x, y) implies (x == c.x as int && y
                                == c.y as int) || in_suffix(queue@, qi as int, x, y) || closed_xy(
                                *g,
                                start,
                                dist@,
                                wi,
                                hi,
                                x,
                                y,
                            ) by {
                                reveal(in_suffix);
                                if lab(ds0, wi, hi, x, y) {
                                    if in_suffix(qs0, qi as int, x, y) {
                                        let j = choose|j: int|
                                            qi <= j < qs0.len() && (#[trigger] qs0[j]).x as int == x
                                                && qs0[j].y as int == y;
                                        assert(queue@[j] == qs0[j]);
                                        assert(in_suffix(queue@, qi as int, x, y));
                                    } else if closed_xy(*g, start, ds0, wi, hi, x, y) {
                                        assert(closed_xy(*g, start, dist@, wi, hi, x, y));
                                    }
                                } else {
                                    assert(x == d.x as int && y == d.y as int);
                                    assert(in_suffix(queue@, qi as int, x, y));
                                }
                            }
                            assert(nbr_done(*g, start, dist@, wi, hi, c.x as int, c.y as int, dc as int, k as int));
                        }
                    } else {
                        proof {
                            assert(lab(dist@, wi, hi, d.x as int, d.y as int));
                            assert(nbr_done(*g, start, dist@, wi, hi, c.x as int, c.y as int, dc as int, k as int));
                        }
                    }
                } else {
                    proof {
                        lemma_pass_equiv(*g, d);
                        let nxv = c.x as int + dkx(k as int);
                        let nyv = c.y as int + dky(k as int);
                        if g.spec_passable(d) {
                            assert(d.x == sx && d.y == sy);
                            assert(nxv == sx as int && nyv == sy as int);
                        } else {
                            assert(!pass_xy(*g, nxv, nyv));
                        }
                        assert(nbr_done(*g, start, dist@, wi, hi, c.x as int, c.y as int, dc as int, k as int));
                    }
                }
            } else {
                proof {
                    let nxv = c.x as int + dkx(k as int);
                    let nyv = c.y as int + dky(k as int);
                    assert(!(0 <= nxv < wi) || !(0 <= nyv < hi));
                    assert(!pass_xy(*g, nxv, nyv));
                    assert(nbr_done(*g, start, dist@, wi, hi, c.x as int, c.y as int, dc as int, k as int));
                }
            }
            k = k + 1;
        }
}

/// One round of the breadth-first expansion: pop the next queued cell and
/// expand its neighbours. Returns the new bound on distance labels.
#[verifier::rlimit(100)]
fn bfs_round(
    g: &TileGrid,
    start: CellIndex,
    dist: &mut Vec<u32>,
    parent: &mut Vec<CellIndex>,
    queue: &mut Vec<CellIndex>,
    qi: &mut usize,
    Ghost(maxl): Ghost<int>,
    w: usize,
    h: usize,
    wh: usize,
) -> (newmaxl: Ghost<int>)
    requires
        g.wf(),
        w as int == g.spec_width() && h as int == g.spec_height(),
        wh == w * h,
        wh <= GRID_DIM_MAX * GRID_DIM_MAX,
        w <= GRID_DIM_MAX && h <= GRID_DIM_MAX,
        *old(qi) < old(queue)@.len(),
        old(dist)@.len() == wh,
        old(parent)@.len() == wh,
        labels_ok(*g, start, old(dist)@, old(parent)@, w as int, h as int),
        count_ok(old(dist)@, w as int, h as int),
        start_closed(*g, start, old(dist)@, w as int, h as int),
        forall|j: int|
            *old(qi) <= j < old(queue)@.len() ==> lab(
                old(dist)@,
                w as int,
                h as int,
                (#[trigger] old(queue)@[j]).x as int,
                old(queue)@[j].y as int,
            ),
        forall|j: int, l: int|
            *old(qi) <= j <= l < old(queue)@.len() ==> dv(
                old(dist)@,
                w as int,
                (#[trigger] old(queue)@[j]).x as int,
                old(queue)@[j].y as int,
            ) <= dv(old(dist)@, w as int, (#[trigger] old(queue)@[l]).x as int, old(queue)@[l].y as int),
        forall|x: int, y: int| #[trigger]
            lab(old(dist)@, w as int, h as int, x, y) ==> dv(old(dist)@, w as int, x, y) <= maxl,
        forall|j: int|
            *old(qi) <= j < old(queue)@.len() ==> maxl <= dv(
                old(dist)@,
                w as int,
                (#[trigger] old(queue)@[j]).x as int,
                old(queue)@[j].y as int,
            ) + 1,
        forall|x: int, y: int| #[trigger]
            lab(old(dist)@, w as int, h as int, x, y) ==> in_suffix(old(queue)@, *old(qi) as int, x, y)
                || closed_xy(*g, start, old(dist)@, w as int, h as int, x, y),
    ensures
        final(dist)@.len() == wh,
        final(parent)@.len() == wh,
        *final(qi) <= final(queue)@.len(),
        labels_ok(*g, start, final(dist)@, final(parent)@, w as int, h as int),
        count_ok(final(dist)@, w as int, h as int),
        start_closed(*g, start, final(dist)@, w as int, h as int),
        forall|j: int|
            *final(qi) <= j < final(queue)@.len() ==> lab(
                final(dist)@,
                w as int,
                h as int,
                (#[trigger] final(queue)@[j]).x as int,
                final(queue)@[j].y as int,
            ),
        forall|j: int, l: int|
            *final(qi) <= j <= l < final(queue)@.len() ==> dv(
                final(dist)@,
                w as int,
                (#[trigger] final(queue)@[j]).x as int,
                final(queue)@[j].y as int,
            ) <= dv(final(dist)@, w as int, (#[trigger] final(queue)@[l]).x as int, final(queue)@[l].y as int),
        forall|x: int, y: int| #[trigger]
            lab(final(dist)@, w as int, h as int, x, y) ==> dv(final(dist)@, w as int, x, y) <= newmaxl@,
        forall|j: int|
            *final(qi) <= j < final(queue)@.len() ==> newmaxl@ <= dv(
                final(dist)@,
                w as int,
                (#[trigger] final(queue)@[j]).x as int,
                final(queue)@[j].y as int,
            ) + 1,
        forall|x: int, y: int| #[trigger]
            lab(final(dist)@, w as int, h as int, x, y) ==> in_suffix(final(queue)@, *final(qi) as int, x, y)
                || closed_xy(*g, start, final(dist)@, w as int, h as int, x, y),
        labset(old(dist)@).len() <= labset(final(dist)@).len(),
        labset(final(dist)@).len() == labset(old(dist)@).len() ==> final(queue)@.len()
            == old(queue)@.len() && *final(qi) == *old(qi) + 1,
{
    let ghost wi = w as int;
    let ghost hi = h as int;
    let sx = start.x;
    let sy = start.y;
    let c = queue[*qi];
    proof {
        assert(lab(dist@, wi, hi, c.x as int, c.y as int));
        lemma_xy_range(wi, hi, c.x as int, c.y as int);
    }
    let ci = (c.y as usize) * w + (c.x as usize);
    let dc = dist[ci];
    let ghost qi0 = *qi as int;
    let ql = queue.len();
    proof {
        assert(*qi < ql);
    }
    *qi = *qi + 1;
    proof {
        assert(queue@[qi0] == c);
        assert(maxl <= dc as int + 1);
        assert forall|x: int, y: int| #[trigger]
            lab(dist@, wi, hi, x, y) implies dv(dist@, wi, x, y) <= dc as int + 1 by {
        }
        assert forall|j: int| *qi <= j < queue@.len() implies dc as int <= dv(
            dist@,
            wi,
            (#[trigger] queue@[j]).x as int,
            queue@[j].y as int,
        ) by {
            assert(lab(dist@, wi, hi, queue@[j].x as int, queue@[j].y as int));
        }
        assert forall|x: int, y: int| #[trigger]
            lab(dist@, wi, hi, x, y) implies (x == c.x as int && y == c.y as int) || in_suffix(
            queue@,
            *qi as int,
            x,
            y,
        ) || closed_xy(*g, start, dist@, wi, hi, x, y) by {
            reveal(in_suffix);
            if in_suffix(queue@, qi0, x, y) && !closed_xy(*g, start, dist@, wi, hi, x, y) {
                let j = choose|j: int|
                    qi0 <= j < queue@.len() && (#[trigger] queue@[j]).x as int == x
                        && queue@[j].y as int == y;
                if j == qi0 {
                    assert(x == c.x as int && y == c.y as int);
                } else {
                    assert(in_suffix(queue@, *qi as int, x, y));
                }
            }
        }
    }
    expand_cell(g, start, dist, parent, queue, *qi, c, dc, w, h, wh);
    proof {
        lemma_round_close(*g, start, dist@, wi, hi, queue@, *qi as int, c, dc);
    }
    Ghost(dc as int + 1)
}

/// Compute a shortest 4-connected path from `start` to any member of `goals`
/// over passable cells, breadth-first. Returns `None` exactly when no such
/// path exists; a returned path is valid and no valid path is shorter.
#[verifier::rlimit(100)]
#[verifier::spinoff_prover]
pub fn pathfind(g: &TileGrid, start: CellIndex, goals: &Vec<CellIndex>) -> (r: Option<Vec<CellIndex>>)
    requires
        g.wf(),
    ensures
        match r {
            Some(p) => path_ok(*g, p@, start, goals@) && forall|q: Seq<CellIndex>|
                path_ok(*g, q, start, goals@) ==> p@.len() <= q.len(),
            None => forall|q: Seq<CellIndex>| !path_ok(*g, q, start, goals@),
        },
{
    // A goal equal to the start cell: the trivial path.
    let mut gi: usize = 0;
    while gi < goals.len()
        invariant
            gi <= goals.len(),
            forall|j: int| 0 <= j < gi ==> goals@[j] != start,
        decreases goals.len() - gi,
    {
        if goals[gi] == start {
            let mut p0: Vec<CellIndex> = Vec::new();
            p0.push(start);
            proof {
                assert(goals@[gi as int] == start);
                assert(goals@.contains(start));
                assert(p0@[0] == start);
            }
            return Some(p0);
        }
        gi = gi + 1;
    }
    assert(forall|j: int| 0 <= j < goals@.len() ==> goals@[j] != start);

    let w = g.width();
    let h = g.height();
    proof {
        g.lemma_wf_dims();
        assert(w * h <= GRID_DIM_MAX * GRID_DIM_MAX) by (nonlinear_arith)
            requires
                w <= GRID_DIM_MAX,
                h <= GRID_DIM_MAX,
        ;
    }
    let wh = w * h;
    let ghost wi = w as int;
    let ghost hi = h as int;

    let mut dist: Vec<u32> = Vec::new();
    let mut parent: Vec<CellIndex> = Vec::new();
    let mut i: usize = 0;
    while i < wh
        invariant
            i <= wh,
            dist@.len() == i,
            parent@.len() == i,
            forall|j: int| 0 <= j < i ==> dist@[j] == 0,
        decreases wh - i,
    {
        dist.push(0);
        parent.push(start);
        i = i + 1;
    }
    proof {
        assert(labset(dist@) =~= Set::<int>::empty());
        assert forall|x: int, y: int| !(#[trigger] lab(dist@, wi, hi, x, y)) by {
            if 0 <= x < wi && 0 <= y < hi {
                lemma_xy_range(wi, hi, x, y);
            }
        }
    }

    let mut queue: Vec<CellIndex> = Vec::new();
    let mut qi: usize = 0;

    // Seed the search with the passable neighbours of the start cell.
    let sx = start.x;
    let sy = start.y;
    let mut k: usize = 0;
    while k < 4
        invariant
            g.wf(),
            w as int == g.spec_width() && h as int == g.spec_height(),
            wh == w * h && wi == w as int && hi == h as int,
            wh <= GRID_DIM_MAX * GRID_DIM_MAX,
            w <= GRID_DIM_MAX && h <= GRID_DIM_MAX,
            sx == start.x && sy == start.y,
            k <= 4,
            dist@.len() == wh,
            parent@.len() == wh,
            labels_ok(*g, start, dist@, parent@, wi, hi),
            count_ok(dist@, wi, hi),
            forall|x: int, y: int| #[trigger] lab(dist@, wi, hi, x, y) ==> dv(dist@, wi, x, y) == 1,
            forall|kk: int| 0 <= kk < k ==> #[trigger] sdone(*g, dist@, wi, hi, sx as int, sy as int, kk),
            forall|x: int, y: int| #[trigger]
                lab(dist@, wi, hi, x, y) ==> in_suffix(queue@, 0, x, y),
            forall|j: int| 0 <= j < queue@.len() ==> lab(dist@, wi, hi, (#[trigger] queue@[j]).x as int, queue@[j].y as int),
            qi == 0,
        decreases 4 - k,
    {
        let (dx, dy): (i64, i64) = if k == 0 {
            (-1, 0)
        } else if k == 1 {
            (1, 0)
        } else if k == 2 {
            (0, -1)
        } else {
            (0, 1)
        };
        proof {
            assert(dx as int == dkx(k as int) && dy as int == dky(k as int));
        }
        let nx = sx as i64 + dx;
        let ny = sy as i64 + dy;
        if 0 <= nx && nx < w as i64 && 0 <= ny && ny < h as i64 {
            let d = CellIndex { x: nx as i32, y: ny as i32 };
            proof {
                assert(d.x as int == sx as int + dkx(k as int));
                assert(d.y as int == sy as int + dky(k as int));
                assert(adj_xy(sx as int, sy as int, d.x as int, d.y as int));
            }
            if g.is_passable(d) {
                proof {
                    lemma_pass_equiv(*g, d);
                    lemma_xy_range(wi, hi, d.x as int, d.y as int);
                }
                let di = (d.y as usize) * w + (d.x as usize);
                if dist[di] == 0 {
                    let ghost ds0 = dist@;
                    let ghost qs0 = queue@;
                    dist.set(di, 1);
                    parent.set(di, start);
                    queue.push(d);
                    proof {
                        let ds1 = dist@;
                        let nxv = d.x as int;
                        let nyv = d.y as int;
                        assert(ds1 == ds0.update(nyv * wi + nxv, 1u32));
                        assert(labset(ds1) =~= labset(ds0).insert(nyv * wi + nxv));
                        lemma_int_range(0, wi * hi);
                        lemma_len_subset(labset(ds1), set_int_range(0, wi * hi));
                        assert forall|x: int, y: int| #[trigger]
                            lab(ds1, wi, hi, x, y) implies (lab(ds0, wi, hi, x, y) || (x == nxv && y
                            == nyv)) && dv(ds1, wi, x, y) == 1 by {
                            lemma_update_lab(ds0, 1u32, wi, hi, nxv, nyv, x, y);
                        }
                        assert forall|x: int, y: int| #[trigger]
                            lab(ds0, wi, hi, x, y) implies lab(ds1, wi, hi, x, y) && dv(ds1, wi, x, y)
                            == dv(ds0, wi, x, y) by {
                            lemma_update_lab(ds0, 1u32, wi, hi, nxv, nyv, x, y);
                        }
                        assert forall|x: int, y: int| #[trigger]
                            lab(ds1, wi, hi, x, y) implies pass_xy(*g, x, y) && !(x == sx as int && y
                            == sy as int) && parent_ok_at(start, ds1, parent@, wi, hi, x, y) by {
                            lemma_update_lab(ds0, 1u32, wi, hi, nxv, nyv, x, y);
                            lemma_xy_range(wi, hi, x, y);
                            if lab(ds0, wi, hi, x, y) {
                                if y * wi + x == nyv * wi + nxv {
                                    lemma_xy_inj(wi, hi, x, y, nxv, nyv);
                                    assert(false);
                                }
                                let pr = parent@[y * wi + x];
                                if pr != start {
                                    assert(lab(ds0, wi, hi, pr.x as int, pr.y as int));
                                    lemma_update_lab(ds0, 1u32, wi, hi, nxv, nyv, pr.x as int, pr.y as int);
                                }
                            } else {
                                assert(x == nxv && y == nyv);
                                assert(parent@[y * wi + x] == start);
                                assert(adj_xy(sx as int, sy as int, x, y));
                            }
                        }
                        assert forall|x: int, y: int| #[trigger]
                            lab(ds1, wi, hi, x, y) implies in_suffix(queue@, 0, x, y) by {
                            reveal(in_suffix);
                            lemma_update_lab(ds0, 1u32, wi, hi, nxv, nyv, x, y);
                            if lab(ds0, wi, hi, x, y) {
                                let j = choose|j: int|
                                    0 <= j < qs0.len() && (#[trigger] qs0[j]).x as int == x
                                        && qs0[j].y as int == y;
                                assert(queue@[j] == qs0[j]);
                            } else {
                                assert(queue@[queue@.len() - 1] == d);
                            }
                        }
                        assert forall|kk: int| 0 <= kk < k implies #[trigger] sdone(
                            *g,
                            ds1,
                            wi,
                            hi,
                            sx as int,
                            sy as int,
                            kk,
                        ) by {
                            assert(sdone(*g, ds0, wi, hi, sx as int, sy as int, kk));
                        }
                    }
                }
                proof {
                    assert(lab(dist@, wi, hi, d.x as int, d.y as int));
                    assert(sdone(*g, dist@, wi, hi, sx as int, sy as int, k as int));
                }
            } else {
                proof {
                    lemma_pass_equiv(*g, d);
                    assert(!pass_xy(*g, sx as int + dkx(k as int), sy as int + dky(k as int)));
                }
            }
        } else {
            proof {
                let nxv = sx as int + dkx(k as int);
                let nyv = sy as int + dky(k as int);
                assert(!(0 <= nxv < wi) || !(0 <= nyv < hi));
                assert(!pass_xy(*g, nxv, nyv));
            }
        }
        k = k + 1;
    }

    proof {
        lemma_sdone_to_start_closed(*g, start, dist@, wi, hi);
    }
    let ghost mut maxl: int = 1;

    // Breadth-first expansion.
    while qi < queue.len()
        invariant
            g.wf(),
            w as int == g.spec_width() && h as int == g.spec_height(),
            wh == w * h && wi == w as int && hi == h as int,
            wh <= GRID_DIM_MAX * GRID_DIM_MAX,
            w <= GRID_DIM_MAX && h <= GRID_DIM_MAX,
            sx == start.x && sy == start.y,
            qi <= queue@.len(),
            dist@.len() == wh,
            parent@.len() == wh,
            labels_ok(*g, start, dist@, parent@, wi, hi),
            count_ok(dist@, wi, hi),
            start_closed(*g, start, dist@, wi, hi),
            forall|j: int| qi <= j < queue@.len() ==> lab(dist@, wi, hi, (#[trigger] queue@[j]).x as int, queue@[j].y as int),
            forall|j: int, l: int|
                qi <= j <= l < queue@.len() ==> dv(dist@, wi, (#[trigger] queue@[j]).x as int, queue@[j].y as int) <= dv(
                    dist@,
                    wi,
                    (#[trigger] queue@[l]).x as int,
                    queue@[l].y as int,
                ),
            forall|x: int, y: int| #[trigger] lab(dist@, wi, hi, x, y) ==> dv(dist@, wi, x, y) <= maxl,
            forall|j: int|
                qi <= j < queue@.len() ==> maxl <= dv(
                    dist@,
                    wi,
                    (#[trigger] queue@[j]).x as int,
                    queue@[j].y as int,
                ) + 1,
            forall|x: int, y: int| #[trigger]
                lab(dist@, wi, hi, x, y) ==> in_suffix(queue@, qi as int, x, y) || closed_xy(
                    *g,
                    start,
                    dist@,
                    wi,
                    hi,
                    x,
                    y,
                ),
        decreases wi * hi - labset(dist@).len(), queue@.len() - qi,
    {
        let newmaxl = bfs_round(
            g,
            start,
            &mut dist,
            &mut parent,
            &mut queue,
            &mut qi,
            Ghost(maxl),
            w,
            h,
            wh,
        );
        proof {
            maxl = newmaxl@;
        }
    }

    proof {
        // the queue is exhausted: every labelled cell is closed
        assert forall|x: int, y: int| #[trigger]
            lab(dist@, wi, hi, x, y) implies closed_xy(*g, start, dist@, wi, hi, x, y) by {
            reveal(in_suffix);
            if in_suffix(queue@, qi as int, x, y) {
                let j = choose|j: int|
                    qi <= j < queue@.len() && (#[trigger] queue@[j]).x as int == x && queue@[j].y as int
                        == y;
                assert(false);
            }
        }
        assert(all_closed(*g, start, dist@, wi, hi));
    }

    // Pick the nearest labelled goal.
    let mut found = false;
    let mut bestc = start;
    let mut bestd: u32 = 0;
    let mut gj: usize = 0;
    while gj < goals.len()
        invariant
            g.wf(),
            w as int == g.spec_width() && h as int == g.spec_height(),
            wh == w * h && wi == w as int && hi == h as int,
            dist@.len() == wh,
            gj <= goals.len(),
            !found ==> forall|j: int|
                0 <= j < gj ==> !lab(dist@, wi, hi, (#[trigger] goals@[j]).x as int, goals@[j].y as int),
            found ==> {
                &&& lab(dist@, wi, hi, bestc.x as int, bestc.y as int)
                &&& goals@.contains(bestc)
                &&& bestd as int == dv(dist@, wi, bestc.x as int, bestc.y as int)
                &&& forall|j: int|
                    0 <= j < gj && lab(dist@, wi, hi, (#[trigger] goals@[j]).x as int, goals@[j].y as int)
                        ==> bestd as int <= dv(dist@, wi, goals@[j].x as int, goals@[j].y as int)
            },
        decreases goals.len() - gj,
    {
        let gc = goals[gj];
        if 0 <= gc.x && (gc.x as usize) < w && 0 <= gc.y && (gc.y as usize) < h {
            proof {
                lemma_xy_range(wi, hi, gc.x as int, gc.y as int);
            }
            let gidx = (gc.y as usize) * w + (gc.x as usize);
            let dg = dist[gidx];
            if dg != 0 {
                if !found || dg < bestd {
                    found = true;
                    bestc = gc;
                    bestd = dg;
                    proof {
                        assert(goals@[gj as int] == gc);
                        assert(goals@.contains(gc));
                    }
                }
            }
        }
        gj = gj + 1;
    }

    if !found {
        proof {
            assert forall|q: Seq<CellIndex>| !path_ok(*g, q, start, goals@) by {
                if path_ok(*g, q, start, goals@) {
                    let lastq = q[q.len() - 1];
                    let j = choose|j: int| 0 <= j < goals@.len() && goals@[j] == lastq;
                    assert(goals@.contains(lastq));
                    assert(lastq != start);
                    lemma_reach_bound(*g, start, dist@, wi, hi, q);
                    assert(lab(dist@, wi, hi, lastq.x as int, lastq.y as int));
                    assert(false);
                }
            }
        }
        return None;
    }

    // Walk the parent chain back from the chosen goal.
    let mut path_rev: Vec<CellIndex> = Vec::new();
    path_rev.push(bestc);
    let mut cur = bestc;
    loop
        invariant_except_break
            g.wf(),
            wi == w as int && hi == h as int && wh == w * h,
            w as int == g.spec_width() && h as int == g.spec_height(),
            dist@.len() == wh,
            parent@.len() == wh,
            labels_ok(*g, start, dist@, parent@, wi, hi),
            sx == start.x && sy == start.y,
            bestd as int == dv(dist@, wi, bestc.x as int, bestc.y as int),
            path_rev@.len() >= 1,
            path_rev@[0] == bestc,
            cur == path_rev@[path_rev@.len() - 1],
            lab(dist@, wi, hi, cur.x as int, cur.y as int),
            forall|j: int| 0 <= j < path_rev@.len() ==> lab(dist@, wi, hi, (#[trigger] path_rev@[j]).x as int, path_rev@[j].y as int),
            forall|j: int, l: int|
                0 <= j && l == j + 1 && l < path_rev@.len() ==> adj_xy(
                    (#[trigger] path_rev@[l]).x as int,
                    path_rev@[l].y as int,
                    (#[trigger] path_rev@[j]).x as int,
                    path_rev@[j].y as int,
                ),
            path_rev@.len() + dv(dist@, wi, cur.x as int, cur.y as int) <= bestd as int + 1,
        ensures
            path_rev@.len() >= 2,
            path_rev@[0] == bestc,
            path_rev@[path_rev@.len() - 1] == start,
            forall|j: int| 0 <= j < path_rev@.len() - 1 ==> lab(dist@, wi, hi, (#[trigger] path_rev@[j]).x as int, path_rev@[j].y as int),
            forall|j: int, l: int|
                0 <= j && l == j + 1 && l < path_rev@.len() ==> adj_xy(
                    (#[trigger] path_rev@[l]).x as int,
                    path_rev@[l].y as int,
                    (#[trigger] path_rev@[j]).x as int,
                    path_rev@[j].y as int,
                ),
            path_rev@.len() <= bestd as int + 1,
        decreases dv(dist@, wi, cur.x as int, cur.y as int),
    {
        proof {
            lemma_xy_range(wi, hi, cur.x as int, cur.y as int);
        }
        let cidx = (cur.y as usize) * w + (cur.x as usize);
        let pr = parent[cidx];
        proof {
            assert(parent_ok_at(start, dist@, parent@, wi, hi, cur.x as int, cur.y as int));
        }
        path_rev.push(pr);
        if pr.x == sx && pr.y == sy {
            proof {
                assert(pr == start);
            }
            break;
        }
        proof {
            assert(pr != start);
            assert(lab(dist@, wi, hi, pr.x as int, pr.y as int));
        }
        cur = pr;
    }

    // Reverse into start-to-goal order.
    let n = path_rev.len();
    let mut path: Vec<CellIndex> = Vec::new();
    let mut pi: usize = 0;
    while pi < n
        invariant
            pi <= n,
            n == path_rev@.len(),
            path@.len() == pi,
            forall|j: int| 0 <= j < pi ==> #[trigger] path@[j] == path_rev@[n - 1 - j],
        decreases n - pi,
    {
        path.push(path_rev[n - 1 - pi]);
        pi = pi + 1;
    }

    proof {
        let p = path@;
        let np = p.len() as int;
        assert(p[0] == path_rev@[np - 1]);
        assert(p[np - 1] == path_rev@[0]);
        assert(goals@.contains(p[np - 1]));
        // step validity of the reversed walk
        assert forall|i: int, j: int|
            #![trigger p[i], p[j]]
            0 <= i && j == i + 1 && j < p.len() implies adjacent4(p[i], p[j])
            && g.spec_passable(p[j]) by {
            let ri = np - 1 - i;
            let rj = np - 1 - j;
            assert(p[i] == path_rev@[ri] && p[j] == path_rev@[rj]);
            assert(adj_xy(path_rev@[ri].x as int, path_rev@[ri].y as int, path_rev@[rj].x as int, path_rev@[rj].y as int));
            assert(lab(dist@, wi, hi, path_rev@[rj].x as int, path_rev@[rj].y as int));
            assert(pass_xy(*g, path_rev@[rj].x as int, path_rev@[rj].y as int));
            lemma_pass_equiv(*g, p[j]);
        }
        assert(path_ok(*g, p, start, goals@));
        // minimality
        assert forall|q: Seq<CellIndex>| path_ok(*g, q, start, goals@) implies p.len() <= q.len() by {
            let lastq = q[q.len() - 1];
            let j = choose|j: int| 0 <= j < goals@.len() && goals@[j] == lastq;
            assert(goals@.contains(lastq));
            assert(lastq != start);
            lemma_reach_bound(*g, start, dist@, wi, hi, q);
            assert(lab(dist@, wi, hi, lastq.x as int, lastq.y as int));
            assert(bestd as int <= dv(dist@, wi, lastq.x as int, lastq.y as int));
        }
    }
    Some(path)
}

} // verus!
