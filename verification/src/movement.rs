//! Tick-based movement: advance a continuous position toward the tail of a
//! discrete move queue at a fixed speed, popping waypoints on arrival.
//! Positions are kept in fine integer units, `TILE_FINE` per grid cell.

use vstd::prelude::*;
use vstd::arithmetic::div_mod::{lemma_div_is_ordered, lemma_div_multiples_vanish};

use crate::grid::{adjacent4, CellIndex};

verus! {

broadcast use vstd::group_vstd_default;

/// Number of fine position units per grid cell.
pub const TILE_FINE: u32 = 256;

/// Positions stay within this bound, in fine units.
pub const POS_LIMIT: i64 = 0x4000_0000;

/// Cells handled by the integrator stay within this coordinate bound.
pub const CELL_LIMIT: i32 = 0x100000;

/// A continuous position with the horizontal facing of the sprite.
#[derive(Clone, Copy, PartialEq, Eq, Structural, Debug)]
pub struct Motion {
    pub x: i64,
    pub y: i64,
    pub facing_left: bool,
}

pub open spec fn motion_wf(m: Motion) -> bool {
    -POS_LIMIT <= m.x <= POS_LIMIT && -POS_LIMIT <= m.y <= POS_LIMIT
}

pub open spec fn cell_in_range(c: CellIndex) -> bool {
    -CELL_LIMIT <= c.x <= CELL_LIMIT && -CELL_LIMIT <= c.y <= CELL_LIMIT
}

pub open spec fn queue_in_range(q: Seq<CellIndex>) -> bool {
    forall|i: int| 0 <= i < q.len() ==> cell_in_range(#[trigger] q[i])
}

/// World-space centre of a cell, in fine units.
pub open spec fn center_x(c: CellIndex) -> int {
    c.x * TILE_FINE
}

pub open spec fn center_y(c: CellIndex) -> int {
    c.y * TILE_FINE
}

pub open spec fn iabs(x: int) -> int {
    if x < 0 {
        -x
    } else {
        x
    }
}

/// `r` is the integer square root of `n`.
pub open spec fn is_isqrt(n: int, r: int) -> bool {
    0 <= r && r * r <= n < (r + 1) * (r + 1)
}

pub open spec fn isqrt_spec(n: int) -> int {
    choose|r: int| is_isqrt(n, r)
}

proof fn lemma_isqrt_exists(n: nat)
    ensures
        exists|r: int| is_isqrt(n as int, r),
    decreases n,
{
    if n == 0 {
        assert(is_isqrt(0, 0));
    } else {
        lemma_isqrt_exists((n - 1) as nat);
        let n1: int = n as int - 1;
        let r = choose|r: int| is_isqrt(n1, r);
        if (r + 1) * (r + 1) <= n as int {
            assert(is_isqrt(n as int, r + 1)) by (nonlinear_arith)
                requires
                    is_isqrt(n as int - 1, r),
                    ((r + 1) * (r + 1)) <= n as int,
            ;
        } else {
            assert(is_isqrt(n as int, r));
        }
    }
}

proof fn lemma_isqrt_unique(n: int, r1: int, r2: int)
    requires
        is_isqrt(n, r1),
        is_isqrt(n, r2),
    ensures
        r1 == r2,
{
    assert(r1 == r2) by (nonlinear_arith)
        requires
            0 <= r1 && r1 * r1 <= n < (r1 + 1) * (r1 + 1),
            0 <= r2 && r2 * r2 <= n < (r2 + 1) * (r2 + 1),
    ;
}

/// Integer square root by binary search.
pub fn isqrt(n: u64) -> (r: u64)
    ensures
        is_isqrt(n as int, r as int),
        r as int == isqrt_spec(n as int),
{
    let mut lo: u64 = 0;
    let mut hi: u64 = 0xFFFF_FFFF;
    while lo < hi
        invariant
            lo <= hi,
            hi <= 0xFFFF_FFFF,
            lo as int * lo as int <= n as int,
            (n as int) < (hi as int + 1) * (hi as int + 1),
        decreases hi - lo,
    {
        let mid = (lo + hi + 1) / 2;
        proof {
            assert((mid as int * mid as int) <= 0xFFFF_FFFFu64 as int * 0xFFFF_FFFFu64 as int)
                by (nonlinear_arith)
                requires
                    0 <= (mid as int) <= 0xFFFF_FFFFu64 as int,
            ;
        }
        let sq = (mid as u128) * (mid as u128);
        if sq <= n as u128 {
            lo = mid;
        } else {
            hi = mid - 1;
        }
    }
    proof {
        assert(is_isqrt(n as int, lo as int));
        lemma_isqrt_exists(n as nat);
        lemma_isqrt_unique(n as int, lo as int, isqrt_spec(n as int));
    }
    lo
}

/// One integrator step over mathematical integers: the model that
/// `advance_motion` computes exactly. With an empty queue or zero elapsed
/// step nothing changes; within `step` of the next waypoint the position
/// snaps to it and the waypoint is popped; otherwise the position advances by
/// `step` along the direction, with the facing following the horizontal sign.
pub open spec fn move_step(m: Motion, q: Seq<CellIndex>, step: int) -> (Motion, Seq<CellIndex>) {
    if q.len() == 0 || step <= 0 {
        (m, q)
    } else {
        let t = q[q.len() - 1];
        let dx = center_x(t) - m.x;
        let dy = center_y(t) - m.y;
        let d2 = dx * dx + dy * dy;
        if d2 < step * step {
            (Motion { x: center_x(t) as i64, y: center_y(t) as i64, facing_left: m.facing_left },
            q.drop_last())
        } else {
            let len = isqrt_spec(d2);
            let mx = iabs(dx) * step / len;
            let my = iabs(dy) * step / len;
            (Motion {
                x: (m.x + (if dx < 0 { -mx } else { mx })) as i64,
                y: (m.y + (if dy < 0 { -my } else { my })) as i64,
                facing_left: dx < 0,
            }, q)
        }
    }
}

/// Law: the movement step with zero elapsed time never mutates position,
/// facing or queue.
pub proof fn lemma_zero_elapsed_identity(m: Motion, q: Seq<CellIndex>)
    ensures
        move_step(m, q, 0) == (m, q),
{
}

/// Advance a position one tick toward the tail of its move queue, as the
/// model `move_step` says, popping the waypoint on arrival.
pub fn advance_motion(m: &mut Motion, queue: &mut Vec<CellIndex>, step: u32)
    requires
        motion_wf(*old(m)),
        queue_in_range(old(queue)@),
    ensures
        motion_wf(*final(m)),
        (*final(m), final(queue)@) == move_step(*old(m), old(queue)@, step as int),
        step == 0 ==> *final(m) == *old(m) && final(queue)@ == old(queue)@,
        final(queue)@ == old(queue)@ || final(queue)@ == old(queue)@.drop_last(),
{
    if queue.len() == 0 || step == 0 {
        return ;
    }
    let t = queue[queue.len() - 1];
    proof {
        assert(cell_in_range(t));
    }
    let tx = (t.x as i64) * (TILE_FINE as i64);
    let ty = (t.y as i64) * (TILE_FINE as i64);
    let dx = tx - m.x;
    let dy = ty - m.y;
    let adx = (if dx < 0 {
        -dx
    } else {
        dx
    }) as u64;
    let ady = (if dy < 0 {
        -dy
    } else {
        dy
    }) as u64;
    proof {
        assert(adx as int == iabs(dx as int) && ady as int == iabs(dy as int));
        assert(adx < 0x8000_0000 && ady < 0x8000_0000);
        assert(adx as int * adx as int == dx as int * dx as int) by (nonlinear_arith)
            requires
                adx as int == iabs(dx as int),
        ;
        assert(ady as int * ady as int == dy as int * dy as int) by (nonlinear_arith)
            requires
                ady as int == iabs(dy as int),
        ;
        assert((adx as int * adx as int) < 0x4000_0000_0000_0000int && (ady as int * ady as int)
            < 0x4000_0000_0000_0000int) by (nonlinear_arith)
            requires
                0 <= adx < 0x8000_0000,
                0 <= ady < 0x8000_0000,
        ;
    }
    let d2 = adx * adx + ady * ady;
    let s = step as u64;
    proof {
        assert((s as int * s as int) < 0x1_0000_0000_0000_0000int) by (nonlinear_arith)
            requires
                0 <= (s as int) < 0x1_0000_0000int,
        ;
    }
    let s2 = s * s;
    if d2 < s2 {
        m.x = tx;
        m.y = ty;
        queue.pop();
        proof {
            assert((d2 as int) < (step as int) * (step as int));
        }
    } else {
        let len = isqrt(d2);
        proof {
            if len == 0 {
                assert(((len as int) + 1) * ((len as int) + 1) == 1) by (nonlinear_arith)
                    requires
                        len as int == 0,
                ;
                assert((d2 as int) < 1);
                assert((s2 as int) >= 1) by (nonlinear_arith)
                    requires
                        step >= 1,
                        s2 as int == step as int * step as int,
                ;
                assert(false);
            }
            // step fits under the distance, so the move shortens the gap
            assert((step as int) <= (len as int)) by (nonlinear_arith)
                requires
                    is_isqrt(d2 as int, len as int),
                    (step as int * step as int) <= d2 as int,
                    0 <= (step as int),
                    0 <= (len as int),
            ;
            assert((adx as int * s as int) <= (adx as int * len as int)) by (nonlinear_arith)
                requires
                    (s as int) <= (len as int),
                    0 <= (adx as int),
            ;
            assert((ady as int * s as int) <= (ady as int * len as int)) by (nonlinear_arith)
                requires
                    (s as int) <= (len as int),
                    0 <= (ady as int),
            ;
            lemma_div_is_ordered(adx as int * s as int, adx as int * len as int, len as int);
            lemma_div_is_ordered(ady as int * s as int, ady as int * len as int, len as int);
            lemma_div_multiples_vanish(adx as int, len as int);
            lemma_div_multiples_vanish(ady as int, len as int);
            assert(adx as int * len as int == len as int * adx as int) by (nonlinear_arith);
            assert(ady as int * len as int == len as int * ady as int) by (nonlinear_arith);
            assert((adx as int * s as int / (len as int)) <= adx as int);
            assert((ady as int * s as int / (len as int)) <= ady as int);
            assert((adx as int * s as int) <= 0x8000_0000_0000_0000int) by (nonlinear_arith)
                requires
                    0 <= (adx as int) < 0x8000_0000,
                    0 <= (s as int) <= 0x1_0000_0000,
            ;
            assert((ady as int * s as int) <= 0x8000_0000_0000_0000int) by (nonlinear_arith)
                requires
                    0 <= (ady as int) < 0x8000_0000,
                    0 <= (s as int) <= 0x1_0000_0000,
            ;
        }
        let mx = adx * s / len;
        let my = ady * s / len;
        if dx < 0 {
            m.x = m.x - (mx as i64);
        } else {
            m.x = m.x + (mx as i64);
        }
        if dy < 0 {
            m.y = m.y - (my as i64);
        } else {
            m.y = m.y + (my as i64);
        }
        m.facing_left = dx < 0;
        proof {
            assert((mx as int) <= iabs(dx as int) && (my as int) <= iabs(dy as int));
        }
    }
}

/// Iterate the movement model `n` ticks.
pub open spec fn walk(m: Motion, q: Seq<CellIndex>, step: int, n: nat) -> (Motion, Seq<CellIndex>)
    decreases n,
{
    if n == 0 {
        (m, q)
    } else {
        let s = move_step(m, q, step);
        walk(s.0, s.1, step, (n - 1) as nat)
    }
}

/// Law: a move queue holding a 4-connected path, consumed from the tail by an
/// agent standing on the centre of a cell adjacent to the next waypoint,
/// terminates in exactly as many ticks as there are waypoints, with the
/// position on the centre of the final waypoint, whenever each tick covers
/// more than one tile.
pub proof fn lemma_queue_walk_arrives(m: Motion, q: Seq<CellIndex>, step: int)
    requires
        q.len() >= 1,
        step > TILE_FINE,
        forall|i: int, j: int|
            #![trigger q[i], q[j]]
            0 <= i && j == i + 1 && j < q.len() ==> adjacent4(q[j], q[i]),
        exists|c: CellIndex|
            m.x == center_x(c) && m.y == center_y(c) && adjacent4(c, #[trigger] q[q.len() - 1]),
    ensures
        walk(m, q, step, q.len()).1.len() == 0,
        walk(m, q, step, q.len()).0.x == center_x(q[0]),
        walk(m, q, step, q.len()).0.y == center_y(q[0]),
    decreases q.len(),
{
    let c = choose|c: CellIndex|
        m.x == center_x(c) && m.y == center_y(c) && adjacent4(c, q[q.len() - 1]);
    let t = q[q.len() - 1];
    let dx = center_x(t) - m.x;
    let dy = center_y(t) - m.y;
    assert(dx == (t.x - c.x) * TILE_FINE && dy == (t.y - c.y) * TILE_FINE) by (nonlinear_arith)
        requires
            m.x == c.x * TILE_FINE,
            m.y == c.y * TILE_FINE,
            dx == t.x * TILE_FINE - m.x,
            dy == t.y * TILE_FINE - m.y,
    ;
    let d2 = dx * dx + dy * dy;
    assert(d2 == TILE_FINE * TILE_FINE) by (nonlinear_arith)
        requires
            adjacent4(c, t),
            dx == (t.x - c.x) * TILE_FINE,
            dy == (t.y - c.y) * TILE_FINE,
            d2 == dx * dx + dy * dy,
    ;
    assert(d2 < step * step) by (nonlinear_arith)
        requires
            d2 == TILE_FINE * TILE_FINE,
            step > TILE_FINE,
    ;
    let s = move_step(m, q, step);
    assert(s.0.x == center_x(t) && s.0.y == center_y(t) && s.1 == q.drop_last());
    if q.len() == 1 {
        assert(walk(m, q, step, 1) == walk(s.0, s.1, step, 0));
    } else {
        let q1 = q.drop_last();
        assert(q1[q1.len() - 1] == q[q.len() - 2]);
        assert(adjacent4(q[q.len() - 1], q[q.len() - 2]));
        assert(s.0.x == center_x(t) && s.0.y == center_y(t) && adjacent4(t, q1[q1.len() - 1]));
        assert forall|i: int, j: int|
            #![trigger q1[i], q1[j]]
            0 <= i && j == i + 1 && j < q1.len() implies adjacent4(q1[j], q1[i]) by {
            assert(q1[i] == q[i] && q1[j] == q[j]);
        }
        lemma_queue_walk_arrives(s.0, q1, step);
        assert(q1[0] == q[0]);
    }
}

/// The fine-unit distance covered in one tick by an agent of the given speed
/// (fine units per second) over `dt_ms` milliseconds, capped at the largest
/// representable step.
pub open spec fn step_of(speed: u32, dt_ms: u32) -> int {
    if speed * dt_ms / 1000 > u32::MAX {
        u32::MAX as int
    } else {
        speed * dt_ms / 1000
    }
}

/// Compute the tick step, exactly as `step_of` says.
pub fn tick_step(speed: u32, dt_ms: u32) -> (r: u32)
    ensures
        r == step_of(speed, dt_ms),
{
    proof {
        assert((speed as int * dt_ms as int) < 0x1_0000_0000_0000_0000int) by (nonlinear_arith)
            requires
                0 <= (speed as int) < 0x1_0000_0000int,
                0 <= (dt_ms as int) < 0x1_0000_0000int,
        ;
    }
    let q = (speed as u64) * (dt_ms as u64) / 1000;
    if q > 0xFFFF_FFFF {
        0xFFFF_FFFF
    } else {
        q as u32
    }
}

} // verus!
