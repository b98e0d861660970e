//! Dwellers: named agents that claim tasks, walk to them, and wander when
//! idle. The per-tick decision loop and the movement tick live here.

use vstd::prelude::*;
use vstd::arithmetic::div_mod::lemma_div_is_ordered;
use vstd::string::StringExecFns;

use crate::grid::{adjacent4, adjacent8, CellIndex, TileGrid, GRID_DIM_MAX};
use crate::movement::{
    advance_motion, cell_in_range, center_x, center_y, motion_wf, move_step, queue_in_range,
    step_of, tick_step, Motion, TILE_FINE,
};
use crate::objects::ObjectId;
use crate::pathfind::path_ok;
use crate::rng::rand_between;
use crate::tasks::{
    find_assigned_task, is_discovered, task_eligible, task_eligible_spec, Task,
    TaskCompletionEvent,
};

verus! {

broadcast use vstd::group_vstd_default;

/// Walking speed of a dweller, in fine units per second.
pub const SPEED: u32 = 1280;

/// How far outward from a chunk centre a spawn location is searched.
pub const SPAWN_SEARCH_RADIUS: u32 = 16;

/// Number of cells along one side of a chunk.
pub const CHUNK_SIZE: u32 = 16;

/// An agent with a name, a carried object, and a move queue consumed from the
/// tail (the last element is the next step).
pub struct Dweller {
    name: String,
    speed: u32,
    move_queue: Vec<CellIndex>,
    object: Option<ObjectId>,
    motion: Motion,
}

/// A move queue is valid when every cell is passable and consecutive entries
/// are neighbours (tail first, diagonal steps allowed for wandering).
pub open spec fn queue_valid(g: TileGrid, q: Seq<CellIndex>) -> bool {
    &&& forall|i: int| 0 <= i < q.len() ==> g.spec_passable(#[trigger] q[i])
    &&& forall|i: int, j: int|
        #![trigger q[i], q[j]]
        0 <= i && j == i + 1 && j < q.len() ==> adjacent8(q[j], q[i])
}

impl Dweller {
    pub closed spec fn spec_speed(self) -> u32 {
        self.speed
    }

    pub closed spec fn spec_name(self) -> Seq<char> {
        self.name@
    }

    pub closed spec fn spec_object(self) -> Option<ObjectId> {
        self.object
    }

    pub fn name(&self) -> (r: &String)
        ensures
            r@ == self.spec_name(),
    {
        &self.name
    }

    pub fn object(&self) -> (r: Option<ObjectId>)
        ensures
            r == self.spec_object(),
    {
        self.object
    }

    /// Hand the dweller an object, or empty its hands.
    pub fn set_object(&mut self, o: Option<ObjectId>)
        ensures
            final(self).spec_object() == o,
            final(self).spec_name() == old(self).spec_name(),
            final(self).spec_speed() == old(self).spec_speed(),
            final(self).spec_queue() == old(self).spec_queue(),
            final(self).spec_motion() == old(self).spec_motion(),
    {
        self.object = o;
    }

    pub closed spec fn spec_queue(self) -> Seq<CellIndex> {
        self.move_queue@
    }

    pub closed spec fn spec_motion(self) -> Motion {
        self.motion
    }

    pub open spec fn wf(self) -> bool {
        motion_wf(self.spec_motion()) && queue_in_range(self.spec_queue())
    }

    /// A fresh dweller standing on the centre of `pos`, carrying nothing.
    pub fn new(name: String, pos: CellIndex, speed: u32) -> (r: Dweller)
        requires
            cell_in_range(pos),
        ensures
            r.wf(),
            r.spec_name() == name@,
            r.spec_object() is None,
            r.spec_speed() == speed,
            r.spec_queue().len() == 0,
            r.spec_motion().x == center_x(pos),
            r.spec_motion().y == center_y(pos),
            !r.spec_motion().facing_left,
    {
        let x = (pos.x as i64) * (TILE_FINE as i64);
        let y = (pos.y as i64) * (TILE_FINE as i64);
        Dweller {
            name,
            speed,
            move_queue: Vec::new(),
            object: None,
            motion: Motion { x, y, facing_left: false },
        }
    }

    pub fn speed(&self) -> (r: u32)
        ensures
            r == self.spec_speed(),
    {
        self.speed
    }

    pub fn move_queue(&self) -> (r: &Vec<CellIndex>)
        ensures
            r@ == self.spec_queue(),
    {
        &self.move_queue
    }

    pub fn motion(&self) -> (r: Motion)
        ensures
            r == self.spec_motion(),
    {
        self.motion
    }

    /// The logical cell of the continuous position: coordinates divided by
    /// the tile size, truncated toward zero.
    pub open spec fn spec_cell(self) -> CellIndex {
        cell_of_motion(self.spec_motion())
    }

    pub fn cell(&self) -> (r: CellIndex)
        requires
            self.wf(),
        ensures
            r == self.spec_cell(),
            r.x as int == coord_cell(self.spec_motion().x as int),
            r.y as int == coord_cell(self.spec_motion().y as int),
    {
        proof {
            lemma_cell_of_motion_bounds(self.spec_motion());
        }
        CellIndex { x: coord_to_cell(self.motion.x), y: coord_to_cell(self.motion.y) }
    }
}

/// Which cell a fine coordinate falls in, truncating toward zero.
pub open spec fn coord_cell(v: int) -> int {
    if v >= 0 {
        v / (TILE_FINE as int)
    } else {
        -((-v) / (TILE_FINE as int))
    }
}

/// Compute `coord_cell` on a bounded coordinate.
pub fn coord_to_cell(v: i64) -> (r: i32)
    requires
        -0x4000_0000 <= v <= 0x4000_0000,
    ensures
        r as int == coord_cell(v as int),
        -0x400000 <= r <= 0x400000,
{
    if v >= 0 {
        proof {
            lemma_div_is_ordered(v as int, 0x4000_0000, 256);
        }
        ((v as u64) / (TILE_FINE as u64)) as i32
    } else {
        let m = (-v) as u64;
        proof {
            lemma_div_is_ordered(m as int, 0x4000_0000, 256);
        }
        -((m / (TILE_FINE as u64)) as i32)
    }
}

/// Some cell with exactly these mathematical coordinates is listed.
pub open spec fn cell_listed(q: Seq<CellIndex>, x: int, y: int) -> bool {
    exists|l: int| 0 <= l < q.len() && (#[trigger] q[l]).x as int == x && q[l].y as int == y
}

/// The logical cell a continuous position falls in.
pub open spec fn cell_of_motion(m: Motion) -> CellIndex {
    CellIndex { x: coord_cell(m.x as int) as i32, y: coord_cell(m.y as int) as i32 }
}

/// On well-formed positions the logical cell's coordinates are small, so the
/// casts in `cell_of_motion` are exact.
pub proof fn lemma_cell_of_motion_bounds(m: Motion)
    requires
        motion_wf(m),
    ensures
        -0x400000 <= coord_cell(m.x as int) <= 0x400000,
        -0x400000 <= coord_cell(m.y as int) <= 0x400000,
        cell_of_motion(m).x as int == coord_cell(m.x as int),
        cell_of_motion(m).y as int == coord_cell(m.y as int),
{
    lemma_div_is_ordered(if m.x >= 0 { m.x as int } else { -(m.x as int) }, 0x4000_0000, 256);
    lemma_div_is_ordered(0, if m.x >= 0 { m.x as int } else { -(m.x as int) }, 256);
    lemma_div_is_ordered(if m.y >= 0 { m.y as int } else { -(m.y as int) }, 0x4000_0000, 256);
    lemma_div_is_ordered(0, if m.y >= 0 { m.y as int } else { -(m.y as int) }, 256);
}

/// The passable cells neighbouring `pos`, 8-connected when `diagonal` is set,
/// else 4-connected: exactly those cells, each listed once.
pub fn non_blocking_neighbours_pos(g: &TileGrid, pos: CellIndex, diagonal: bool) -> (r: Vec<
    CellIndex,
>)
    requires
        g.wf(),
    ensures
        forall|i: int|
            0 <= i < r@.len() ==> g.spec_passable(#[trigger] r@[i]) && (if diagonal {
                adjacent8(pos, r@[i])
            } else {
                adjacent4(pos, r@[i])
            }),
        forall|c: CellIndex|
            (if diagonal {
                adjacent8(pos, c)
            } else {
                adjacent4(pos, c)
            }) && #[trigger] g.spec_passable(c) ==> r@.contains(c),
        forall|i: int, j: int| 0 <= i < j < r@.len() ==> #[trigger] r@[i] != #[trigger] r@[j],
        r@.len() == 0 ==> forall|c: CellIndex|
            (if diagonal {
                adjacent8(pos, c)
            } else {
                adjacent4(pos, c)
            }) ==> !g.spec_passable(c),
{
    proof {
        g.lemma_wf_dims();
    }
    let w = g.width();
    let h = g.height();
    let mut r: Vec<CellIndex> = Vec::new();
    let mut k: usize = 0;
    while k < 8
        invariant
            g.wf(),
            w == g.spec_width() && h == g.spec_height(),
            w <= GRID_DIM_MAX && h <= GRID_DIM_MAX,
            k <= 8,
            forall|i: int|
                0 <= i < r@.len() ==> g.spec_passable(#[trigger] r@[i]) && (if diagonal {
                    adjacent8(pos, r@[i])
                } else {
                    adjacent4(pos, r@[i])
                }),
            forall|i: int, j: int| 0 <= i < j < r@.len() ==> #[trigger] r@[i] != #[trigger] r@[j],
            forall|kk: int|
                0 <= kk < k && (diagonal || d8x(kk) == 0 || d8y(kk) == 0) ==> !passable_delta(
                    *g,
                    pos,
                    #[trigger] d8x(kk),
                    d8y(kk),
                ) || cell_listed(r@, pos.x as int + d8x(kk), pos.y as int + d8y(kk)),
        decreases 8 - k,
    {
        let (dx, dy): (i64, i64) = if k == 0 {
            (-1, -1)
        } else if k == 1 {
            (-1, 0)
        } else if k == 2 {
            (-1, 1)
        } else if k == 3 {
            (0, -1)
        } else if k == 4 {
            (0, 1)
        } else if k == 5 {
            (1, -1)
        } else if k == 6 {
            (1, 0)
        } else {
            (1, 1)
        };
        proof {
            assert(dx as int == d8x(k as int) && dy as int == d8y(k as int));
        }
        let axis = dx == 0 || dy == 0;
        if diagonal || axis {
            let nx = pos.x as i64 + dx;
            let ny = pos.y as i64 + dy;
            if 0 <= nx && nx < w as i64 && 0 <= ny && ny < h as i64 {
                let c = CellIndex { x: nx as i32, y: ny as i32 };
                if g.is_passable(c) {
                    if !contains_cell(&r, c) {
                        let ghost r0 = r@;
                        r.push(c);
                        proof {
                            assert(r@[r@.len() - 1] == c);
                            assert(cell_listed(r@, pos.x as int + d8x(k as int), pos.y as int + d8y(k as int)));
                            assert forall|i: int, j: int|
                                0 <= i < j < r@.len() implies #[trigger] r@[i]
                                != #[trigger] r@[j] by {
                                if j < r@.len() - 1 {
                                    assert(r@[i] == r0[i] && r@[j] == r0[j]);
                                } else {
                                    assert(r@[i] == r0[i]);
                                    assert(!r0.contains(c));
                                }
                            }
                            assert forall|kk: int|
                                0 <= kk < k + 1 && (diagonal || d8x(kk) == 0 || d8y(kk) == 0)
                                    implies !passable_delta(*g, pos, #[trigger] d8x(kk), d8y(kk))
                                || cell_listed(r@, pos.x as int + d8x(kk), pos.y as int + d8y(kk)) by {
                                if kk < k && cell_listed(r0, pos.x as int + d8x(kk), pos.y as int + d8y(kk)) {
                                    let l = choose|l: int|
                                        0 <= l < r0.len() && (#[trigger] r0[l]).x as int
                                            == pos.x as int + d8x(kk) && r0[l].y as int
                                            == pos.y as int + d8y(kk);
                                    assert(r@[l] == r0[l]);
                                }
                            }
                        }
                    } else {
                        proof {
                            let l = choose|l: int| 0 <= l < r@.len() && r@[l] == c;
                            assert((r@[l]).x as int == pos.x as int + d8x(k as int) && r@[l].y as int
                                == pos.y as int + d8y(k as int));
                            assert(cell_listed(r@, pos.x as int + d8x(k as int), pos.y as int + d8y(k as int)));
                        }
                    }
                } else {
                    proof {
                        assert(!passable_delta(*g, pos, d8x(k as int), d8y(k as int)));
                    }
                }
            } else {
                proof {
                    assert forall|c: CellIndex|
                        c.x as int == pos.x as int + d8x(k as int) && c.y as int == pos.y as int
                            + d8y(k as int) implies !g.spec_passable(c) by {
                        g.lemma_passable_in_bounds(c);
                    }
                    assert(!passable_delta(*g, pos, d8x(k as int), d8y(k as int)));
                }
            }
        } else {
            proof {
                // a skipped diagonal delta never witnesses 4-adjacency
                assert(d8x(k as int) != 0 && d8y(k as int) != 0);
            }
        }
        k = k + 1;
    }
    proof {
        assert forall|c: CellIndex|
            (if diagonal {
                adjacent8(pos, c)
            } else {
                adjacent4(pos, c)
            }) && #[trigger] g.spec_passable(c) implies r@.contains(c) by {
            lemma_adj8_dir(pos, c);
            let kk = choose|kk: int|
                0 <= kk < 8 && c.x as int == pos.x as int + #[trigger] d8x(kk) && c.y as int
                    == pos.y as int + d8y(kk);
            assert(passable_delta(*g, pos, d8x(kk), d8y(kk)));
            assert(cell_listed(r@, pos.x as int + d8x(kk), pos.y as int + d8y(kk)));
            let l = choose|l: int|
                0 <= l < r@.len() && (#[trigger] r@[l]).x as int == pos.x as int + d8x(kk)
                    && r@[l].y as int == pos.y as int + d8y(kk);
            assert(r@[l] == c);
        }
        if r@.len() == 0 {
            assert forall|c: CellIndex|
                (if diagonal {
                    adjacent8(pos, c)
                } else {
                    adjacent4(pos, c)
                }) implies !g.spec_passable(c) by {
                if g.spec_passable(c) {
                    let l = choose|l: int| 0 <= l < r@.len() && r@[l] == c;
                    assert(false);
                }
            }
        }
    }
    r
}

spec fn d8x(k: int) -> int {
    if k == 0 || k == 1 || k == 2 {
        -1
    } else if k == 3 || k == 4 {
        0
    } else {
        1
    }
}

spec fn d8y(k: int) -> int {
    if k == 0 || k == 3 || k == 5 {
        -1
    } else if k == 1 || k == 6 {
        0
    } else {
        1
    }
}

/// Whether the cell one delta away from `pos` exists and is passable.
spec fn passable_delta(g: TileGrid, pos: CellIndex, dx: int, dy: int) -> bool {
    exists|c: CellIndex|
        (#[trigger] c.x) as int == pos.x as int + dx && c.y as int == pos.y as int + dy
            && g.spec_passable(c)
}

proof fn lemma_adj8_dir(a: CellIndex, b: CellIndex)
    requires
        adjacent8(a, b) || adjacent4(a, b),
    ensures
        exists|k: int|
            0 <= k < 8 && b.x as int == a.x as int + #[trigger] d8x(k) && b.y as int == a.y as int
                + d8y(k),
{
    let dx = b.x as int - a.x as int;
    let dy = b.y as int - a.y as int;
    if dx == -1 && dy == -1 {
        assert(b.x as int == a.x as int + d8x(0) && b.y as int == a.y as int + d8y(0));
    } else if dx == -1 && dy == 0 {
        assert(b.x as int == a.x as int + d8x(1) && b.y as int == a.y as int + d8y(1));
    } else if dx == -1 && dy == 1 {
        assert(b.x as int == a.x as int + d8x(2) && b.y as int == a.y as int + d8y(2));
    } else if dx == 0 && dy == -1 {
        assert(b.x as int == a.x as int + d8x(3) && b.y as int == a.y as int + d8y(3));
    } else if dx == 0 && dy == 1 {
        assert(b.x as int == a.x as int + d8x(4) && b.y as int == a.y as int + d8y(4));
    } else if dx == 1 && dy == -1 {
        assert(b.x as int == a.x as int + d8x(5) && b.y as int == a.y as int + d8y(5));
    } else if dx == 1 && dy == 0 {
        assert(b.x as int == a.x as int + d8x(6) && b.y as int == a.y as int + d8y(6));
    } else {
        assert(b.x as int == a.x as int + d8x(7) && b.y as int == a.y as int + d8y(7));
    }
}

/// Reverse a path into a move queue consumed from the tail; the start cell,
/// where the agent already stands, is dropped.
pub fn path_to_queue(path: &Vec<CellIndex>) -> (r: Vec<CellIndex>)
    requires
        path@.len() >= 1,
    ensures
        r@.len() == path@.len() - 1,
        forall|j: int| 0 <= j < r@.len() ==> #[trigger] r@[j] == path@[path@.len() - 1 - j],
{
    let n = path.len();
    let mut r: Vec<CellIndex> = Vec::new();
    let mut i: usize = 0;
    while i < n - 1
        invariant
            n == path@.len(),
            n >= 1,
            i <= n - 1,
            r@.len() == i,
            forall|j: int| 0 <= j < i ==> #[trigger] r@[j] == path@[n - 1 - j],
        decreases n - 1 - i,
    {
        r.push(path[n - 1 - i]);
        i = i + 1;
    }
    r
}

/// A queue built by reversing a valid path is itself valid, within range, and
/// leads tail-first away from the path's start.
pub proof fn lemma_path_queue_valid(g: TileGrid, p: Seq<CellIndex>, q: Seq<CellIndex>, start: CellIndex, goals: Seq<CellIndex>)
    requires
        g.wf(),
        path_ok(g, p, start, goals),
        q.len() == p.len() - 1,
        forall|j: int| 0 <= j < q.len() ==> #[trigger] q[j] == p[p.len() - 1 - j],
    ensures
        queue_valid(g, q),
        queue_in_range(q),
        q.len() >= 1 ==> adjacent4(start, q[q.len() - 1]),
{
    g.lemma_wf_dims();
    let n = p.len() as int;
    assert forall|i: int| 0 <= i < q.len() implies g.spec_passable(#[trigger] q[i]) by {
        let a = n - 2 - i;
        assert(0 <= a && a + 1 < p.len());
        assert(adjacent4(p[a], p[a + 1]) && g.spec_passable(p[a + 1]));
        assert(q[i] == p[a + 1]);
    }
    assert forall|i: int| 0 <= i < q.len() implies cell_in_range(#[trigger] q[i]) by {
        g.lemma_passable_in_bounds(q[i]);
    }
    assert forall|i: int, j: int|
        #![trigger q[i], q[j]]
        0 <= i && j == i + 1 && j < q.len() implies adjacent8(q[j], q[i]) by {
        let a = n - 2 - i;
        assert(0 <= a && a + 1 < p.len());
        assert(adjacent4(p[a], p[a + 1]) && g.spec_passable(p[a + 1]));
        assert(q[j] == p[a] && q[i] == p[a + 1]);
    }
    if q.len() >= 1 {
        assert(adjacent4(p[0int], p[0int + 1]) && g.spec_passable(p[0int + 1]));
        assert(q[q.len() - 1] == p[1] && p[0] == start);
    }
}

/// Law: consuming the tail of a valid move queue leaves a valid queue, so
/// queue validity established at assignment time survives the movement ticks.
pub proof fn lemma_queue_valid_pop(g: TileGrid, q: Seq<CellIndex>)
    requires
        queue_valid(g, q),
        q.len() >= 1,
    ensures
        queue_valid(g, q.drop_last()),
{
    let q1 = q.drop_last();
    assert forall|i: int| 0 <= i < q1.len() implies g.spec_passable(#[trigger] q1[i]) by {
        assert(q1[i] == q[i]);
    }
    assert forall|i: int, j: int|
        #![trigger q1[i], q1[j]]
        0 <= i && j == i + 1 && j < q1.len() implies adjacent8(q1[j], q1[i]) by {
        assert(q1[i] == q[i] && q1[j] == q[j]);
        assert(adjacent8(q[j], q[i]));
    }
}

/// Whether any of the listed cells equals `cell`.
pub fn contains_cell(cells: &Vec<CellIndex>, cell: CellIndex) -> (r: bool)
    ensures
        r == cells@.contains(cell),
{
    let mut i: usize = 0;
    while i < cells.len()
        invariant
            i <= cells@.len(),
            forall|j: int| 0 <= j < i ==> cells@[j] != cell,
        decreases cells@.len() - i,
    {
        if cells[i] == cell {
            proof {
                assert(cells@[i as int] == cell);
            }
            return true;
        }
        i = i + 1;
    }
    proof {
        if cells@.contains(cell) {
            let j = choose|j: int| 0 <= j < cells@.len() && cells@[j] == cell;
            assert(false);
        }
    }
    false
}

/// A task an unassigned agent may bid for: unclaimed, with somewhere to stand,
/// and within the carried-object rules.
pub open spec fn candidate(tasks: Seq<Task>, t: int, obj: Option<ObjectId>) -> bool {
    &&& 0 <= t < tasks.len()
    &&& tasks[t].dweller is None
    &&& tasks[t].reachable_positions@.len() > 0
    &&& task_eligible_spec(tasks[t].kind, tasks[t].needs, obj)
}

/// `n` is the length of a shortest valid path from `start` into `goals`.
pub open spec fn shortest_to(g: TileGrid, start: CellIndex, goals: Seq<CellIndex>, n: int) -> bool {
    &&& exists|p: Seq<CellIndex>| path_ok(g, p, start, goals) && #[trigger] p.len() == n
    &&& forall|p: Seq<CellIndex>| path_ok(g, p, start, goals) ==> n <= #[trigger] p.len()
}

/// Scan all tasks and pick the best reachable candidate: highest priority
/// first, and among equal priorities the one whose shortest path is longest
/// (the documented tie-break). Returns the chosen task with a shortest path
/// to it.
pub fn select_task(tasks: &Vec<Task>, obj: Option<ObjectId>, cell: CellIndex, grid: &TileGrid) -> (r:
    Option<(usize, Vec<CellIndex>)>)
    requires
        grid.wf(),
    ensures
        match r {
            Some(tp) => {
                &&& candidate(tasks@, tp.0 as int, obj)
                &&& path_ok(*grid, tp.1@, cell, tasks@[tp.0 as int].reachable_positions@)
                &&& forall|q: Seq<CellIndex>|
                    path_ok(*grid, q, cell, tasks@[tp.0 as int].reachable_positions@)
                        ==> tp.1@.len() <= q.len()
                &&& forall|j: int, n: int|
                    candidate(tasks@, j, obj) && #[trigger] shortest_to(
                        *grid,
                        cell,
                        tasks@[j].reachable_positions@,
                        n,
                    ) ==> tasks@[j].priority < tasks@[tp.0 as int].priority || (tasks@[j].priority
                        == tasks@[tp.0 as int].priority && n <= tp.1@.len())
            },
            None => forall|j: int, q: Seq<CellIndex>|
                candidate(tasks@, j, obj) ==> !#[trigger] path_ok(
                    *grid,
                    q,
                    cell,
                    tasks@[j].reachable_positions@,
                ),
        },
{
    let mut best: Option<(usize, Vec<CellIndex>)> = None;
    let mut i: usize = 0;
    while i < tasks.len()
        invariant
            grid.wf(),
            i <= tasks@.len(),
            match best {
                Some(tp) => {
                    &&& candidate(tasks@, tp.0 as int, obj)
                    &&& path_ok(*grid, tp.1@, cell, tasks@[tp.0 as int].reachable_positions@)
                    &&& forall|q: Seq<CellIndex>|
                        path_ok(*grid, q, cell, tasks@[tp.0 as int].reachable_positions@)
                            ==> tp.1@.len() <= q.len()
                    &&& forall|j: int, n: int|
                        0 <= j < i && candidate(tasks@, j, obj) && #[trigger] shortest_to(
                            *grid,
                            cell,
                            tasks@[j].reachable_positions@,
                            n,
                        ) ==> tasks@[j].priority < tasks@[tp.0 as int].priority || (
                        tasks@[j].priority == tasks@[tp.0 as int].priority && n <= tp.1@.len())
                },
                None => forall|j: int, q: Seq<CellIndex>|
                    0 <= j < i && candidate(tasks@, j, obj) ==> !#[trigger] path_ok(
                        *grid,
                        q,
                        cell,
                        tasks@[j].reachable_positions@,
                    ),
            },
        decreases tasks@.len() - i,
    {
        let t = &tasks[i];
        let is_cand = t.dweller.is_none() && t.reachable_positions.len() > 0 && task_eligible(
            t,
            obj,
        );
        if is_cand {
            match t.pathfind(cell, grid) {
                Option::Some(p) => {
                    proof {
                        assert(shortest_to(*grid, cell, tasks@[i as int].reachable_positions@, p@.len() as int));
                    }
                    let take = match &best {
                        Option::Some(tp) => {
                            let bt = &tasks[tp.0];
                            t.priority > bt.priority || (t.priority == bt.priority && p.len()
                                > tp.1.len())
                        },
                        Option::None => true,
                    };
                    if take {
                        proof {
                            if best is Some {
                                let old_tp0 = best->Some_0.0 as int;
                                assert(candidate(tasks@, old_tp0, obj));
                            }
                        }
                        best = Some((i, p));
                    } else {
                        proof {
                            assert forall|n: int|
                                #[trigger] shortest_to(
                                    *grid,
                                    cell,
                                    tasks@[i as int].reachable_positions@,
                                    n,
                                ) implies n == p@.len() by {
                                assert(path_ok(*grid, p@, cell, tasks@[i as int].reachable_positions@));
                            }
                        }
                    }
                },
                Option::None => {
                },
            }
        }
        i = i + 1;
    }
    best
}


/// There is a valid walkable path from `c` into `goals`.
pub open spec fn reachable_set(g: TileGrid, c: CellIndex, goals: Seq<CellIndex>) -> bool {
    exists|q: Seq<CellIndex>| path_ok(g, q, c, goals)
}

/// Some eligible, unclaimed task is reachable from `c`: an idle unassigned
/// agent standing there will claim one this tick.
pub open spec fn claimable(g: TileGrid, tasks: Seq<Task>, obj: Option<ObjectId>, c: CellIndex) -> bool {
    exists|j: int, q: Seq<CellIndex>|
        candidate(tasks, j, obj) && #[trigger] path_ok(g, q, c, tasks[j].reachable_positions@)
}

/// The move queue holds a reversed shortest path from `c` into `goals`: its
/// length plus one is the shortest path length, its head is the goal reached,
/// its tail is one step from `c`; an empty queue means `c` is itself a goal.
pub open spec fn installed_queue(g: TileGrid, c: CellIndex, goals: Seq<CellIndex>, q: Seq<CellIndex>) -> bool {
    &&& queue_valid(g, q)
    &&& shortest_to(g, c, goals, q.len() as int + 1)
    &&& (q.len() >= 1 ==> adjacent4(c, q[q.len() - 1]) && goals.contains(q[0]))
    &&& (q.len() == 0 ==> goals.contains(c))
}

/// The claimed task beats every reachable candidate: higher priority, or equal
/// priority and a shortest path at least as long (the documented tie-break).
pub open spec fn best_candidate(g: TileGrid, tasks: Seq<Task>, obj: Option<ObjectId>, c: CellIndex, t: int, n: int) -> bool {
    forall|j: int, m: int|
        candidate(tasks, j, obj) && #[trigger] shortest_to(g, c, tasks[j].reachable_positions@, m)
            ==> tasks[j].priority < tasks[t].priority || (tasks[j].priority == tasks[t].priority
            && m <= n)
}

/// The wander outcome: whenever the agent's cell has a passable 8-neighbour
/// the queue becomes exactly one such cell, whichever the draw picked; with
/// no open neighbour the queue is left alone.
pub open spec fn wander_step(g: TileGrid, c: CellIndex, q0: Seq<CellIndex>, q1: Seq<CellIndex>) -> bool {
    if exists|c2: CellIndex| adjacent8(c, c2) && #[trigger] g.spec_passable(c2) {
        q1.len() == 1 && adjacent8(c, q1[0]) && g.spec_passable(q1[0])
    } else {
        q1 == q0
    }
}

/// The step of an idle agent whose discovered assignment is task `t`:
/// standing on a reachable cell it emits exactly one completion signal and
/// changes nothing else; otherwise it installs a shortest path when one
/// exists, and abandons the task (and only that) when none does.
pub open spec fn assigned_step(
    g: TileGrid,
    ts0: Seq<Task>,
    ts1: Seq<Task>,
    d0: Dweller,
    d1: Dweller,
    ev0: Seq<TaskCompletionEvent>,
    ev1: Seq<TaskCompletionEvent>,
    t: int,
) -> bool {
    let c = d0.spec_cell();
    if ts0[t].reachable_positions@.contains(c) {
        &&& ts1 == ts0
        &&& ev1 == ev0.push(TaskCompletionEvent { task: t as usize })
        &&& d1.spec_queue() == d0.spec_queue()
    } else if reachable_set(g, c, ts0[t].reachable_positions@) {
        &&& ts1 == ts0
        &&& ev1 == ev0
        &&& installed_queue(g, c, ts0[t].reachable_positions@, d1.spec_queue())
    } else {
        &&& ev1 == ev0
        &&& d1.spec_queue() == d0.spec_queue()
        &&& ts1[t].dweller is None
        &&& same_task_mod_assignment(ts0[t], ts1[t])
        &&& forall|t2: int| 0 <= t2 < ts0.len() && t2 != t ==> ts1[t2] == #[trigger] ts0[t2]
    }
}

/// The step of an idle agent with no assignment: when some eligible task is
/// reachable it claims the best one — a task that was unclaimed — and
/// installs a shortest path to it; otherwise tasks are untouched and the
/// agent wanders.
pub open spec fn unassigned_step(
    g: TileGrid,
    ts0: Seq<Task>,
    ts1: Seq<Task>,
    d0: Dweller,
    d1: Dweller,
    idx: usize,
    ev0: Seq<TaskCompletionEvent>,
    ev1: Seq<TaskCompletionEvent>,
) -> bool {
    let c = d0.spec_cell();
    let obj = d0.spec_object();
    &&& ev1 == ev0
    &&& if claimable(g, ts0, obj, c) {
        exists|t: int|
            #![trigger ts1[t]]
            {
                &&& candidate(ts0, t, obj)
                &&& ts1[t].dweller == Some(idx)
                &&& same_task_mod_assignment(ts0[t], ts1[t])
                &&& (forall|t2: int| 0 <= t2 < ts0.len() && t2 != t ==> ts1[t2] == #[trigger] ts0[t2])
                &&& installed_queue(g, c, ts0[t].reachable_positions@, d1.spec_queue())
                &&& best_candidate(g, ts0, obj, c, t, d1.spec_queue().len() as int + 1)
            }
    } else {
        &&& ts1 == ts0
        &&& wander_step(g, c, d0.spec_queue(), d1.spec_queue())
    }
}

/// One decision-tick step of a single agent, relating the agent, the task
/// table and the event list before and after the step.
pub open spec fn dweller_step(
    g: TileGrid,
    ts0: Seq<Task>,
    ts1: Seq<Task>,
    d0: Dweller,
    d1: Dweller,
    idx: usize,
    ev0: Seq<TaskCompletionEvent>,
    ev1: Seq<TaskCompletionEvent>,
) -> bool {
    &&& d1.spec_name() == d0.spec_name()
    &&& d1.spec_object() == d0.spec_object()
    &&& d1.spec_speed() == d0.spec_speed()
    &&& d1.spec_motion() == d0.spec_motion()
    &&& ts1.len() == ts0.len()
    &&& (d0.spec_queue().len() > 0 ==> d1 == d0 && ts1 == ts0 && ev1 == ev0)
    &&& (d0.spec_queue().len() == 0 ==> {
        ||| exists|t: int|
            is_discovered(ts0, idx, t) && #[trigger] assigned_step(g, ts0, ts1, d0, d1, ev0, ev1, t)
        ||| ((forall|j: int| 0 <= j < ts0.len() ==> (#[trigger] ts0[j]).dweller != Some(idx))
            && unassigned_step(g, ts0, ts1, d0, d1, idx, ev0, ev1))
    })
}

/// One decision tick for a single dweller, as the controller rules say: a
/// mid-move agent does nothing; an assigned agent signals completion when
/// standing on a reachable cell, else re-plans or abandons; an unassigned
/// agent bids for the best task, and failing that wanders one step.
pub fn update_dweller(d: &mut Dweller, idx: usize, tasks: &mut Vec<Task>, grid: &TileGrid, events: &mut Vec<TaskCompletionEvent>)
    requires
        grid.wf(),
        old(d).wf(),
    ensures
        final(d).wf(),
        dweller_step(
            *grid,
            old(tasks)@,
            final(tasks)@,
            *old(d),
            *final(d),
            idx,
            old(events)@,
            final(events)@,
        ),
        final(d).spec_queue() == old(d).spec_queue() || queue_valid(*grid, final(d).spec_queue()),
        forall|t: int|
            0 <= t < old(tasks)@.len() ==> same_task_mod_assignment(
                #[trigger] old(tasks)@[t],
                final(tasks)@[t],
            ),
        forall|t: int|
            0 <= t < old(tasks)@.len() ==> (#[trigger] final(tasks)@[t]).dweller == old(tasks)@[t].dweller || (old(tasks)@[t].dweller is None && final(tasks)@[t].dweller == Some(
                idx,
            )) || (old(tasks)@[t].dweller == Some(idx) && final(tasks)@[t].dweller is None),
        old(events)@.is_prefix_of(final(events)@),
        forall|e: int|
            old(events)@.len() <= e < final(events)@.len() ==> 0 <= (
            #[trigger] final(events)@[e]).task < final(tasks)@.len() && final(tasks)@[(
            final(events)@[e]).task as int].dweller == Some(idx),
{
    if self_queue_len(d) > 0 {
        return ;
    }
    let cell = d.cell();
    proof {
        assert(cell == old(d).spec_cell());
    }
    match find_assigned_task(tasks, idx) {
        Option::Some(t) => {
            if contains_cell(&tasks[t].reachable_positions, cell) {
                events.push(TaskCompletionEvent { task: t });
                proof {
                    assert(assigned_step(
                        *grid,
                        old(tasks)@,
                        tasks@,
                        *old(d),
                        *d,
                        old(events)@,
                        events@,
                        t as int,
                    ));
                }
            } else {
                match tasks[t].pathfind(cell, grid) {
                    Option::Some(p) => {
                        let q = path_to_queue(&p);
                        proof {
                            lemma_path_queue_valid(
                                *grid,
                                p@,
                                q@,
                                cell,
                                tasks@[t as int].reachable_positions@,
                            );
                            assert(reachable_set(*grid, cell, tasks@[t as int].reachable_positions@));
                            if p@.len() == 1 {
                                assert(tasks@[t as int].reachable_positions@.contains(p@[0]));
                                assert(false);
                            }
                            assert(q@[0] == p@[p@.len() - 1]);
                            assert(shortest_to(
                                *grid,
                                cell,
                                tasks@[t as int].reachable_positions@,
                                q@.len() as int + 1,
                            )) by {
                                assert(path_ok(*grid, p@, cell, tasks@[t as int].reachable_positions@)
                                    && p@.len() == q@.len() + 1);
                            }
                        }
                        d.move_queue = q;
                        proof {
                            assert(assigned_step(
                                *grid,
                                old(tasks)@,
                                tasks@,
                                *old(d),
                                *d,
                                old(events)@,
                                events@,
                                t as int,
                            ));
                        }
                    },
                    Option::None => {
                        let tr = &mut tasks[t];
                        tr.dweller = None;
                        proof {
                            assert(!reachable_set(*grid, cell, old(tasks)@[t as int].reachable_positions@));
                            assert(assigned_step(
                                *grid,
                                old(tasks)@,
                                tasks@,
                                *old(d),
                                *d,
                                old(events)@,
                                events@,
                                t as int,
                            ));
                        }
                    },
                }
            }
        },
        Option::None => {
            match select_task(tasks, d.object, cell, grid) {
                Option::Some((t, p)) => {
                    let q = path_to_queue(&p);
                    proof {
                        lemma_path_queue_valid(
                            *grid,
                            p@,
                            q@,
                            cell,
                            tasks@[t as int].reachable_positions@,
                        );
                        assert(claimable(*grid, tasks@, old(d).spec_object(), cell)) by {
                            assert(candidate(tasks@, t as int, old(d).spec_object()) && path_ok(
                                *grid,
                                p@,
                                cell,
                                tasks@[t as int].reachable_positions@,
                            ));
                        }
                        assert(q@.len() >= 1 ==> q@[0] == p@[p@.len() - 1]);
                        assert(q@.len() == 0 ==> p@[0] == cell
                            && tasks@[t as int].reachable_positions@.contains(cell));
                        assert(shortest_to(
                            *grid,
                            cell,
                            tasks@[t as int].reachable_positions@,
                            q@.len() as int + 1,
                        )) by {
                            assert(path_ok(*grid, p@, cell, tasks@[t as int].reachable_positions@)
                                && p@.len() == q@.len() + 1);
                        }
                    }
                    let tr = &mut tasks[t];
                    tr.dweller = Some(idx);
                    d.move_queue = q;
                    proof {
                        assert(tasks@[t as int].dweller == Some(idx));
                        assert(unassigned_step(
                            *grid,
                            old(tasks)@,
                            tasks@,
                            *old(d),
                            *d,
                            idx,
                            old(events)@,
                            events@,
                        ));
                    }
                },
                Option::None => {
                    proof {
                        assert(!claimable(*grid, tasks@, old(d).spec_object(), cell)) by {
                            if claimable(*grid, tasks@, old(d).spec_object(), cell) {
                                let (j, qq): (int, Seq<CellIndex>) = choose|j: int, qq: Seq<CellIndex>|
                                    candidate(tasks@, j, old(d).spec_object()) && #[trigger] path_ok(
                                        *grid,
                                        qq,
                                        cell,
                                        tasks@[j].reachable_positions@,
                                    );
                                assert(false);
                            }
                        }
                    }
                    // wander one step to a random open neighbour
                    let dirs = non_blocking_neighbours_pos(grid, cell, true);
                    if dirs.len() > 0 {
                        let pick = rand_between(0, (dirs.len() - 1) as u64);
                        let c = dirs[pick as usize];
                        proof {
                            grid.lemma_passable_in_bounds(c);
                            grid.lemma_wf_dims();
                        }
                        let mut q: Vec<CellIndex> = Vec::new();
                        q.push(c);
                        d.move_queue = q;
                        proof {
                            assert(adjacent8(cell, c) && grid.spec_passable(c));
                            assert(wander_step(*grid, cell, old(d).spec_queue(), d.spec_queue()));
                        }
                    } else {
                        proof {
                            assert forall|c2: CellIndex|
                                adjacent8(cell, c2) implies !(#[trigger] grid.spec_passable(
                                c2,
                            )) by {
                                if grid.spec_passable(c2) {
                                    assert(dirs@.contains(c2));
                                }
                            }
                            assert(wander_step(*grid, cell, old(d).spec_queue(), d.spec_queue()));
                        }
                    }
                    proof {
                        assert(unassigned_step(
                            *grid,
                            old(tasks)@,
                            tasks@,
                            *old(d),
                            *d,
                            idx,
                            old(events)@,
                            events@,
                        ));
                    }
                },
            }
        },
    }
}

/// Fields of a task other than its assignment.
pub open spec fn same_task_mod_assignment(a: Task, b: Task) -> bool {
    &&& a.kind == b.kind
    &&& a.priority == b.priority
    &&& a.needs == b.needs
    &&& a.pos == b.pos
    &&& a.reachable_positions == b.reachable_positions
}

fn self_queue_len(d: &Dweller) -> (r: usize)
    ensures
        r == d.spec_queue().len(),
{
    d.move_queue.len()
}

/// The whole decision tick as a chain of single-agent steps: `tc[j]` is the
/// task table before agent `j`'s step, `ec[j]` the event list, and each
/// consecutive pair is related by `dweller_step`. Agents are processed in
/// index order, so a later agent sees every earlier agent's commits.
pub open spec fn tick_chain(
    g: TileGrid,
    tc: Seq<Seq<Task>>,
    ec: Seq<Seq<TaskCompletionEvent>>,
    ds0: Seq<Dweller>,
    ds1: Seq<Dweller>,
    ts0: Seq<Task>,
    ts1: Seq<Task>,
    evs: Seq<TaskCompletionEvent>,
) -> bool {
    &&& tc.len() == ds0.len() + 1
    &&& ec.len() == ds0.len() + 1
    &&& tc[0] == ts0
    &&& ec[0] == Seq::<TaskCompletionEvent>::empty()
    &&& tc[ds0.len() as int] == ts1
    &&& ec[ds0.len() as int] == evs
    &&& ds1.len() == ds0.len()
    &&& forall|j: int|
        0 <= j < ds0.len() ==> #[trigger] dweller_step(
            g,
            tc[j],
            tc[j + 1],
            ds0[j],
            ds1[j],
            j as usize,
            ec[j],
            ec[j + 1],
        )
}

/// One decision tick over every dweller: completion signals are collected,
/// stale assignments are abandoned, free agents bid for tasks or wander.
pub fn update_dwellers(dwellers: &mut Vec<Dweller>, tasks: &mut Vec<Task>, grid: &TileGrid) -> (events: Vec<TaskCompletionEvent>)
    requires
        grid.wf(),
        forall|k: int| 0 <= k < old(dwellers)@.len() ==> (#[trigger] old(dwellers)@[k]).wf(),
    ensures
        final(dwellers)@.len() == old(dwellers)@.len(),
        final(tasks)@.len() == old(tasks)@.len(),
        exists|tc: Seq<Seq<Task>>, ec: Seq<Seq<TaskCompletionEvent>>|
            #[trigger] tick_chain(
                *grid,
                tc,
                ec,
                old(dwellers)@,
                final(dwellers)@,
                old(tasks)@,
                final(tasks)@,
                events@,
            ),
        forall|k: int|
            0 <= k < final(dwellers)@.len() ==> (#[trigger] final(dwellers)@[k]).wf() && final(dwellers)@[k].spec_motion() == old(dwellers)@[k].spec_motion() && final(dwellers)@[k].spec_name()
                == old(dwellers)@[k].spec_name() && final(dwellers)@[k].spec_object() == old(dwellers)@[k].spec_object(),
        forall|k: int|
            0 <= k < final(dwellers)@.len() ==> (#[trigger] final(dwellers)@[k]).spec_queue()
                == old(dwellers)@[k].spec_queue() || queue_valid(
                *grid,
                final(dwellers)@[k].spec_queue(),
            ),
        forall|t: int|
            0 <= t < old(tasks)@.len() ==> same_task_mod_assignment(
                #[trigger] old(tasks)@[t],
                final(tasks)@[t],
            ),
        forall|e: int|
            0 <= e < events@.len() ==> 0 <= (#[trigger] events@[e]).task < final(tasks)@.len(),
{
    let mut events: Vec<TaskCompletionEvent> = Vec::new();
    let n = dwellers.len();
    let mut k: usize = 0;
    let ghost mut tc: Seq<Seq<Task>> = seq![tasks@];
    let ghost mut ec: Seq<Seq<TaskCompletionEvent>> = seq![events@];
    proof {
        assert(events@ =~= Seq::<TaskCompletionEvent>::empty());
    }
    while k < n
        invariant
            grid.wf(),
            n == dwellers@.len(),
            k <= n,
            dwellers@.len() == old(dwellers)@.len(),
            tasks@.len() == old(tasks)@.len(),
            tc.len() == k + 1,
            ec.len() == k + 1,
            tc[0] == old(tasks)@,
            ec[0] == Seq::<TaskCompletionEvent>::empty(),
            tc[k as int] == tasks@,
            ec[k as int] == events@,
            forall|j: int|
                0 <= j < k ==> #[trigger] dweller_step(
                    *grid,
                    tc[j],
                    tc[j + 1],
                    old(dwellers)@[j],
                    dwellers@[j],
                    j as usize,
                    ec[j],
                    ec[j + 1],
                ),
            forall|j: int| k <= j < n ==> (#[trigger] dwellers@[j]) == old(dwellers)@[j],
            forall|j: int| k <= j < n ==> (#[trigger] dwellers@[j]).wf(),
            forall|j: int|
                0 <= j < n ==> (#[trigger] dwellers@[j]).wf() && dwellers@[j].spec_motion() == old(dwellers)@[j].spec_motion() && dwellers@[j].spec_name() == old(dwellers)@[j].spec_name()
                    && dwellers@[j].spec_object() == old(dwellers)@[j].spec_object(),
            forall|j: int|
                0 <= j < n ==> (#[trigger] dwellers@[j]).spec_queue() == old(dwellers)@[j].spec_queue() || queue_valid(*grid, dwellers@[j].spec_queue()),
            forall|t: int|
                0 <= t < old(tasks)@.len() ==> same_task_mod_assignment(
                    #[trigger] old(tasks)@[t],
                    tasks@[t],
                ),
            forall|e: int|
                0 <= e < events@.len() ==> 0 <= (#[trigger] events@[e]).task < tasks@.len(),
        decreases n - k,
    {
        let ghost events0 = events@;
        let ghost tasks0 = tasks@;
        let ghost dweller0 = dwellers@[k as int];
        update_dweller(&mut dwellers[k], k, tasks, grid, &mut events);
        proof {
            tc = tc.push(tasks@);
            ec = ec.push(events@);
            assert(dweller_step(
                *grid,
                tasks0,
                tasks@,
                dweller0,
                dwellers@[k as int],
                k,
                events0,
                events@,
            ));
            assert forall|j: int|
                0 <= j < k + 1 implies #[trigger] dweller_step(
                *grid,
                tc[j],
                tc[j + 1],
                old(dwellers)@[j],
                dwellers@[j],
                j as usize,
                ec[j],
                ec[j + 1],
            ) by {
                if j < k {
                    assert(dweller_step(
                        *grid,
                        tc[j],
                        tc[j + 1],
                        old(dwellers)@[j],
                        dwellers@[j],
                        j as usize,
                        ec[j],
                        ec[j + 1],
                    ));
                } else {
                    assert(tc[j] == tasks0 && tc[j + 1] == tasks@ && ec[j] == events0 && ec[j + 1]
                        == events@);
                    assert(old(dwellers)@[j] == dweller0);
                }
            }
            assert forall|e: int|
                0 <= e < events@.len() implies 0 <= (#[trigger] events@[e]).task
                < tasks@.len() by {
                if e < events0.len() {
                    assert(events@[e] == events0[e]);
                }
            }
        }
        k = k + 1;
    }
    proof {
        assert(tick_chain(
            *grid,
            tc,
            ec,
            old(dwellers)@,
            dwellers@,
            old(tasks)@,
            tasks@,
            events@,
        ));
    }
    events
}

/// The movement tick: advance every dweller toward the tail of its queue.
pub fn update_dwellers_movement(dwellers: &mut Vec<Dweller>, dt_ms: u32)
    requires
        forall|k: int| 0 <= k < old(dwellers)@.len() ==> (#[trigger] old(dwellers)@[k]).wf(),
    ensures
        final(dwellers)@.len() == old(dwellers)@.len(),
        forall|k: int|
            0 <= k < final(dwellers)@.len() ==> (#[trigger] final(dwellers)@[k]).wf() && final(dwellers)@[k].spec_name() == old(dwellers)@[k].spec_name() && final(dwellers)@[k].spec_object()
                == old(dwellers)@[k].spec_object() && final(dwellers)@[k].spec_speed() == old(dwellers)@[k].spec_speed(),
        forall|k: int|
            0 <= k < final(dwellers)@.len() ==> ((#[trigger] final(dwellers)@[k]).spec_motion(), final(dwellers)@[k].spec_queue()) == move_step(
                old(dwellers)@[k].spec_motion(),
                old(dwellers)@[k].spec_queue(),
                step_of(old(dwellers)@[k].spec_speed(), dt_ms),
            ),
        dt_ms == 0 ==> forall|k: int|
            0 <= k < final(dwellers)@.len() ==> (#[trigger] final(dwellers)@[k]).spec_motion() == old(dwellers)@[k].spec_motion() && final(dwellers)@[k].spec_queue() == old(dwellers)@[k].spec_queue(),
{
    let n = dwellers.len();
    let mut k: usize = 0;
    while k < n
        invariant
            n == dwellers@.len(),
            k <= n,
            dwellers@.len() == old(dwellers)@.len(),
            forall|j: int| k <= j < n ==> (#[trigger] dwellers@[j]) == old(dwellers)@[j],
            forall|j: int| k <= j < n ==> (#[trigger] dwellers@[j]).wf(),
            forall|j: int|
                0 <= j < k ==> (#[trigger] dwellers@[j]).wf() && dwellers@[j].spec_name() == old(dwellers)@[j].spec_name() && dwellers@[j].spec_object()
                    == old(dwellers)@[j].spec_object() && dwellers@[j].spec_speed() == old(dwellers)@[j].spec_speed(),
            forall|j: int|
                0 <= j < k ==> ((#[trigger] dwellers@[j]).spec_motion(), dwellers@[j].spec_queue()) == move_step(
                    old(dwellers)@[j].spec_motion(),
                    old(dwellers)@[j].spec_queue(),
                    step_of(old(dwellers)@[j].spec_speed(), dt_ms),
                ),
        decreases n - k,
    {
        let ghost before = dwellers@[k as int];
        {
            let d = &mut dwellers[k];
            let step = tick_step(d.speed, dt_ms);
            proof {
                assert(step == step_of(before.spec_speed(), dt_ms));
            }
            advance_motion(&mut d.motion, &mut d.move_queue, step);
        }
        proof {
            let after = dwellers@[k as int];
            assert(after.spec_speed() == before.spec_speed() && after.spec_name()
                == before.spec_name() && after.spec_object() == before.spec_object());
            assert((after.spec_motion(), after.spec_queue()) == move_step(
                before.spec_motion(),
                before.spec_queue(),
                step_of(before.spec_speed(), dt_ms),
            ));
            assert(after.spec_queue() == before.spec_queue() || after.spec_queue()
                == before.spec_queue().drop_last());
            assert forall|i: int|
                0 <= i < after.spec_queue().len() implies cell_in_range(
                #[trigger] after.spec_queue()[i],
            ) by {
                assert(after.spec_queue()[i] == before.spec_queue()[i]);
            }
        }
        k = k + 1;
    }
}

/// All nine cells around (and including) the given coordinates are passable:
/// a safe spot to spawn a group of agents.
pub open spec fn spawn_ok(g: TileGrid, cx: int, cy: int) -> bool {
    forall|i: int, j: int|
        -1 <= i <= 1 && -1 <= j <= 1 ==> #[trigger] pass_at(g, cx + i, cy + j)
}

/// Whether the cell at the given mathematical coordinates is passable.
pub open spec fn pass_at(g: TileGrid, x: int, y: int) -> bool {
    exists|c: CellIndex| (#[trigger] c.x) as int == x && c.y as int == y && g.spec_passable(c)
}

/// No safe 3-by-3 spawn block exists within `rad` of (cx, cy).
pub open spec fn no_spawn_near(g: TileGrid, cx: int, cy: int, rad: int) -> bool {
    forall|x: int, y: int| cheb(x, y, cx, cy) <= rad ==> !#[trigger] spawn_ok(g, x, y)
}

/// Chebyshev distance of two coordinate pairs.
pub open spec fn cheb(ax: int, ay: int, bx: int, by: int) -> int {
    let dx = if ax - bx >= 0 {
        ax - bx
    } else {
        bx - ax
    };
    let dy = if ay - by >= 0 {
        ay - by
    } else {
        by - ay
    };
    if dx >= dy {
        dx
    } else {
        dy
    }
}

/// Check all nine cells of the 3-by-3 block centred on (cx, cy).
pub fn is_spawn_ok(g: &TileGrid, cx: i64, cy: i64) -> (r: bool)
    requires
        g.wf(),
        -0x200000 <= cx <= 0x200000,
        -0x200000 <= cy <= 0x200000,
    ensures
        r == spawn_ok(*g, cx as int, cy as int),
{
    let mut i: i64 = -1;
    while i <= 1
        invariant
            g.wf(),
            -1 <= i <= 2,
            -0x200000 <= cx <= 0x200000,
            -0x200000 <= cy <= 0x200000,
            forall|a: int, b: int|
                -1 <= a < i && -1 <= b <= 1 ==> #[trigger] pass_at(*g, cx + a, cy + b),
        decreases 2 - i,
    {
        let mut j: i64 = -1;
        while j <= 1
            invariant
                g.wf(),
                -1 <= i <= 1,
                -1 <= j <= 2,
                -0x200000 <= cx <= 0x200000,
                -0x200000 <= cy <= 0x200000,
                forall|b: int| -1 <= b < j ==> #[trigger] pass_at(*g, cx + i, cy + b),
            decreases 2 - j,
        {
            let x = cx + i;
            let y = cy + j;
            let ok = if -0x80000000i64 <= x && x < 0x80000000i64 && -0x80000000i64 <= y && y
                < 0x80000000i64 {
                g.is_passable(CellIndex { x: x as i32, y: y as i32 })
            } else {
                false
            };
            if !ok {
                proof {
                    assert forall|c: CellIndex|
                        c.x as int == cx + i && c.y as int == cy + j implies !g.spec_passable(
                        c,
                    ) by {
                    }
                    assert(!pass_at(*g, cx as int + i as int, cy as int + j as int));
                }
                return false;
            }
            proof {
                let c = CellIndex { x: x as i32, y: y as i32 };
                assert(c.x as int == cx + i && c.y as int == cy + j && g.spec_passable(c));
                assert(pass_at(*g, cx as int + i as int, cy as int + j as int));
            }
            j = j + 1;
        }
        i = i + 1;
    }
    true
}

/// Search outward from `center`, by growing Chebyshev rings, for a cell whose
/// whole 3-by-3 neighbourhood is passable. `None` means no such cell lies
/// within the search bound.
pub fn find_valid_spawn(g: &TileGrid, center: CellIndex, radius: u32) -> (r: Option<CellIndex>)
    requires
        g.wf(),
        cell_in_range(center),
        radius <= 64,
    ensures
        match r {
            Some(c) => spawn_ok(*g, c.x as int, c.y as int) && cheb(
                c.x as int,
                c.y as int,
                center.x as int,
                center.y as int,
            ) <= radius && forall|x: int, y: int|
                cheb(x, y, center.x as int, center.y as int) < cheb(
                    c.x as int,
                    c.y as int,
                    center.x as int,
                    center.y as int,
                ) ==> !#[trigger] spawn_ok(*g, x, y),
            None => forall|x: int, y: int|
                cheb(x, y, center.x as int, center.y as int) <= radius ==> !#[trigger] spawn_ok(
                    *g,
                    x,
                    y,
                ),
        },
{
    let cx = center.x as i64;
    let cy = center.y as i64;
    let rad = radius as i64;
    let mut ring: i64 = 0;
    while ring <= rad
        invariant
            g.wf(),
            0 <= ring <= rad + 1,
            rad == radius as i64,
            radius <= 64,
            cx == center.x as i64 && cy == center.y as i64,
            -0x100000 <= cx <= 0x100000 && -0x100000 <= cy <= 0x100000,
            forall|x: int, y: int|
                cheb(x, y, cx as int, cy as int) < ring ==> !#[trigger] spawn_ok(*g, x, y),
        decreases rad + 1 - ring,
    {
        let mut dx: i64 = -ring;
        while dx <= ring
            invariant
                g.wf(),
                0 <= ring <= rad,
                -ring <= dx <= ring + 1,
                rad == radius as i64,
                radius <= 64,
                cx == center.x as i64 && cy == center.y as i64,
                -0x100000 <= cx <= 0x100000 && -0x100000 <= cy <= 0x100000,
                forall|x: int, y: int|
                    cheb(x, y, cx as int, cy as int) < ring ==> !#[trigger] spawn_ok(*g, x, y),
                forall|x: int, y: int|
                    cheb(x, y, cx as int, cy as int) == ring && x - cx < dx ==> !#[trigger] spawn_ok(
                        *g,
                        x,
                        y,
                    ),
            decreases ring + 1 - dx,
        {
            let mut dy: i64 = -ring;
            while dy <= ring
                invariant
                    g.wf(),
                    0 <= ring <= rad,
                    -ring <= dx <= ring,
                    -ring <= dy <= ring + 1,
                    rad == radius as i64,
                    radius <= 64,
                    cx == center.x as i64 && cy == center.y as i64,
                    -0x100000 <= cx <= 0x100000 && -0x100000 <= cy <= 0x100000,
                    forall|x: int, y: int|
                        cheb(x, y, cx as int, cy as int) < ring ==> !#[trigger] spawn_ok(*g, x, y),
                    forall|x: int, y: int|
                        cheb(x, y, cx as int, cy as int) == ring && x - cx < dx
                            ==> !#[trigger] spawn_ok(*g, x, y),
                    forall|x: int, y: int|
                        cheb(x, y, cx as int, cy as int) == ring && x - cx == dx && y - cy < dy
                            ==> !#[trigger] spawn_ok(*g, x, y),
                decreases ring + 1 - dy,
            {
                let on_ring = dx == -ring || dx == ring || dy == -ring || dy == ring;
                if on_ring {
                    if is_spawn_ok(g, cx + dx, cy + dy) {
                        let c = CellIndex { x: (cx + dx) as i32, y: (cy + dy) as i32 };
                        proof {
                            assert(c.x as int == cx + dx && c.y as int == cy + dy);
                            assert(cheb(c.x as int, c.y as int, cx as int, cy as int) == ring);
                        }
                        return Some(c);
                    }
                } else {
                    proof {
                        // interior cells of the square were ruled out by
                        // earlier, smaller rings
                        assert(cheb(cx + dx, cy + dy, cx as int, cy as int) < ring);
                    }
                }
                dy = dy + 1;
            }
            dx = dx + 1;
        }
        ring = ring + 1;
    }
    None
}

/// Populate a chunk with the five named dwellers, standing on a safe spot
/// near the chunk's centre; `None` when no such spot exists nearby.
pub fn spawn_dwellers(grid: &TileGrid, chunk_index: CellIndex) -> (r: Option<Vec<Dweller>>)
    requires
        grid.wf(),
        -0x8000 <= chunk_index.x <= 0x8000,
        -0x8000 <= chunk_index.y <= 0x8000,
    ensures
        match r {
            Some(v) => {
                &&& v@.len() == 5
                &&& exists|sp: CellIndex|
                    #[trigger] spawn_ok(*grid, sp.x as int, sp.y as int) && cheb(
                        sp.x as int,
                        sp.y as int,
                        chunk_index.x as int * CHUNK_SIZE + CHUNK_SIZE / 2,
                        chunk_index.y as int * CHUNK_SIZE + CHUNK_SIZE / 2,
                    ) <= SPAWN_SEARCH_RADIUS && forall|k: int|
                        0 <= k < v@.len() ==> (#[trigger] v@[k]).wf() && v@[k].spec_motion().x
                            == center_x(sp) && v@[k].spec_motion().y == center_y(sp)
                            && v@[k].spec_queue().len() == 0 && v@[k].spec_object() is None
                            && v@[k].spec_speed() == SPEED
                &&& v@[0].spec_name() == "Alice"@
                &&& v@[1].spec_name() == "Bob"@
                &&& v@[2].spec_name() == "Charlie"@
                &&& v@[3].spec_name() == "Dave"@
                &&& v@[4].spec_name() == "Eve"@
            },
            None => forall|x: int, y: int|
                cheb(
                    x,
                    y,
                    chunk_index.x as int * CHUNK_SIZE + CHUNK_SIZE / 2,
                    chunk_index.y as int * CHUNK_SIZE + CHUNK_SIZE / 2,
                ) <= SPAWN_SEARCH_RADIUS ==> !#[trigger] spawn_ok(*grid, x, y),
        },
{
    let ccx = (chunk_index.x as i64) * (CHUNK_SIZE as i64) + (CHUNK_SIZE as i64) / 2;
    let ccy = (chunk_index.y as i64) * (CHUNK_SIZE as i64) + (CHUNK_SIZE as i64) / 2;
    let center = CellIndex { x: ccx as i32, y: ccy as i32 };
    match find_valid_spawn(grid, center, SPAWN_SEARCH_RADIUS) {
        Option::Some(sp) => {
            proof {
                assert(cell_in_range(sp)) by {
                    assert(spawn_ok(*grid, sp.x as int, sp.y as int));
                    assert(pass_at(*grid, sp.x as int + 0, sp.y as int + 0));
                    let c = choose|c: CellIndex|
                        (#[trigger] c.x) as int == sp.x as int + 0 && c.y as int == sp.y as int + 0
                            && grid.spec_passable(c);
                    grid.lemma_passable_in_bounds(c);
                    grid.lemma_wf_dims();
                }
                assert(center.x as int == chunk_index.x as int * CHUNK_SIZE + CHUNK_SIZE / 2
                    && center.y as int == chunk_index.y as int * CHUNK_SIZE + CHUNK_SIZE / 2);
            }
            let mut v: Vec<Dweller> = Vec::new();
            v.push(Dweller::new(String::from_str("Alice"), sp, SPEED));
            v.push(Dweller::new(String::from_str("Bob"), sp, SPEED));
            v.push(Dweller::new(String::from_str("Charlie"), sp, SPEED));
            v.push(Dweller::new(String::from_str("Dave"), sp, SPEED));
            v.push(Dweller::new(String::from_str("Eve"), sp, SPEED));
            Some(v)
        },
        Option::None => None,
    }
}

} // verus!
