//! Mobs: freely-roaming agents that wander intermittently and yield loot.

use vstd::prelude::*;

use crate::dwellers::{cell_of_motion, find_valid_spawn, no_spawn_near, non_blocking_neighbours_pos, queue_valid, spawn_ok, CHUNK_SIZE};
use crate::grid::adjacent8;
use crate::grid::{CellIndex, TileGrid};
use crate::movement::{
    advance_motion, cell_in_range, center_x, center_y, motion_wf, move_step, queue_in_range,
    step_of, tick_step, Motion, TILE_FINE,
};
use crate::objects::ObjectId;
use crate::rng::{rand_between, rand_chance};

verus! {

broadcast use vstd::group_vstd_default;

/// How far outward from the sampled cell a mob spawn location is searched.
pub const MOB_SPAWN_SEARCH_RADIUS: u32 = 16;

/// The mob species.
#[derive(Clone, Copy, PartialEq, Eq, Structural, Debug, Hash)]
pub enum MobId {
    Sheep,
    Boar,
}

/// Static data describing one mob species.
pub struct MobData {
    sprite_name: &'static str,
    speed: u32,
    loot: ObjectId,
}

impl MobData {
    pub closed spec fn spec_sprite_name(self) -> Seq<char> {
        self.sprite_name@
    }

    pub closed spec fn spec_speed(self) -> u32 {
        self.speed
    }

    pub closed spec fn spec_loot(self) -> ObjectId {
        self.loot
    }

    pub fn new(sprite_name: &'static str, speed: u32, loot: ObjectId) -> (r: Self)
        ensures
            r.spec_sprite_name() == sprite_name@,
            r.spec_speed() == speed,
            r.spec_loot() == loot,
    {
        MobData { sprite_name, speed, loot }
    }

    pub fn sprite_name(&self) -> (r: &'static str)
        ensures
            r@ == self.spec_sprite_name(),
    {
        self.sprite_name
    }

    pub fn speed(&self) -> (r: u32)
        ensures
            r == self.spec_speed(),
    {
        self.speed
    }

    pub fn loot(&self) -> (r: ObjectId)
        ensures
            r == self.spec_loot(),
    {
        self.loot
    }
}

impl MobId {
    /// The species table: sprite, walking speed in fine units per second, and
    /// the loot dropped when harvested.
    pub fn data(&self) -> (r: MobData)
        ensures
            *self == MobId::Sheep ==> r.spec_sprite_name() == "sheep"@ && r.spec_speed() == 960
                && r.spec_loot() == ObjectId(1),
            *self == MobId::Boar ==> r.spec_sprite_name() == "boar"@ && r.spec_speed() == 1120
                && r.spec_loot() == ObjectId(2),
    {
        match self {
            MobId::Sheep => MobData::new("sheep", 960, ObjectId(1)),
            MobId::Boar => MobData::new("boar", 1120, ObjectId(2)),
        }
    }
}

/// A roaming agent with a move queue consumed from the tail.
pub struct Mob {
    speed: u32,
    loot: ObjectId,
    move_queue: Vec<CellIndex>,
    motion: Motion,
}

impl Mob {
    pub closed spec fn spec_speed(self) -> u32 {
        self.speed
    }

    pub closed spec fn spec_loot(self) -> ObjectId {
        self.loot
    }

    pub closed spec fn spec_queue(self) -> Seq<CellIndex> {
        self.move_queue@
    }

    pub closed spec fn spec_motion(self) -> Motion {
        self.motion
    }

    pub open spec fn wf(self) -> bool {
        motion_wf(self.spec_motion()) && queue_in_range(self.spec_queue())
    }

    /// A fresh mob of the given species standing on the centre of `index`.
    pub fn new(id: MobId, index: CellIndex) -> (r: Mob)
        requires
            cell_in_range(index),
        ensures
            r.wf(),
            r.spec_queue().len() == 0,
            r.spec_motion().x == center_x(index),
            r.spec_motion().y == center_y(index),
            id == MobId::Sheep ==> r.spec_speed() == 960 && r.spec_loot() == ObjectId(1),
            id == MobId::Boar ==> r.spec_speed() == 1120 && r.spec_loot() == ObjectId(2),
    {
        let data = id.data();
        let x = (index.x as i64) * (TILE_FINE as i64);
        let y = (index.y as i64) * (TILE_FINE as i64);
        Mob {
            speed: data.speed(),
            loot: data.loot(),
            move_queue: Vec::new(),
            motion: Motion { x, y, facing_left: false },
        }
    }

    pub fn speed(&self) -> (r: u32)
        ensures
            r == self.spec_speed(),
    {
        self.speed
    }

    pub fn loot(&self) -> (r: ObjectId)
        ensures
            r == self.spec_loot(),
    {
        self.loot
    }

    pub fn move_queue(&self) -> (r: &Vec<CellIndex>)
        ensures
            r@ == self.spec_queue(),
    {
        &self.move_queue
    }

    pub fn motion(&self) -> (r: Motion)
        ensures
            r == self.spec_motion(),
    {
        self.motion
    }

    /// The logical cell of the continuous position.
    pub open spec fn spec_cell(self) -> CellIndex {
        cell_of_motion(self.spec_motion())
    }

    pub fn cell(&self) -> (r: CellIndex)
        requires
            self.wf(),
        ensures
            r == self.spec_cell(),
            r.x as int == crate::dwellers::coord_cell(self.spec_motion().x as int),
            r.y as int == crate::dwellers::coord_cell(self.spec_motion().y as int),
    {
        proof {
            crate::dwellers::lemma_cell_of_motion_bounds(self.spec_motion());
        }
        CellIndex {
            x: crate::dwellers::coord_to_cell(self.motion.x),
            y: crate::dwellers::coord_to_cell(self.motion.y),
        }
    }
}

/// A sheep-then-boar group: `ns` sheep followed by `nb` boars, told apart by
/// their species stats.
pub open spec fn mob_group(v: Seq<Mob>, ns: int, nb: int) -> bool {
    &&& v.len() == ns + nb
    &&& forall|k: int|
        0 <= k < ns ==> (#[trigger] v[k]).spec_speed() == 960 && v[k].spec_loot() == ObjectId(1)
    &&& forall|k: int|
        ns <= k < v.len() ==> (#[trigger] v[k]).spec_speed() == 1120 && v[k].spec_loot() == ObjectId(
            2,
        )
}

/// The cell at the given offset inside a chunk, on the x axis.
pub open spec fn chunk_cell_x(chunk: CellIndex, off: int) -> int {
    chunk.x * CHUNK_SIZE + off
}

/// The cell at the given offset inside a chunk, on the y axis.
pub open spec fn chunk_cell_y(chunk: CellIndex, off: int) -> int {
    chunk.y * CHUNK_SIZE + off
}

/// Populate a chunk with a random group of sheep and boars on a safe spot
/// near a random cell of the chunk; `None` when no safe spot exists nearby.
#[verifier::rlimit(50)]
pub fn spawn_mobs(grid: &TileGrid, chunk_index: CellIndex) -> (r: Option<Vec<Mob>>)
    requires
        grid.wf(),
        -0x8000 <= chunk_index.x <= 0x8000,
        -0x8000 <= chunk_index.y <= 0x8000,
    ensures
        match r {
            Some(v) => {
                &&& 2 <= v@.len() <= 12
                &&& exists|ns: int, nb: int|
                    1 <= ns <= 7 && 1 <= nb <= 5 && #[trigger] mob_group(v@, ns, nb)
                &&& exists|sp: CellIndex|
                    #[trigger] spawn_ok(*grid, sp.x as int, sp.y as int) && forall|k: int|
                        0 <= k < v@.len() ==> (#[trigger] v@[k]).wf() && v@[k].spec_motion().x
                            == center_x(sp) && v@[k].spec_motion().y == center_y(sp)
                            && v@[k].spec_queue().len() == 0
            },
            None => exists|ox: int, oy: int|
                0 <= ox < CHUNK_SIZE && 0 <= oy < CHUNK_SIZE && #[trigger] no_spawn_near(
                    *grid,
                    chunk_cell_x(chunk_index, ox),
                    chunk_cell_y(chunk_index, oy),
                    MOB_SPAWN_SEARCH_RADIUS as int,
                ),
        },
{
    let ox = rand_between(0, (CHUNK_SIZE - 1) as u64);
    let oy = rand_between(0, (CHUNK_SIZE - 1) as u64);
    let ccx = (chunk_index.x as i64) * (CHUNK_SIZE as i64) + (ox as i64);
    let ccy = (chunk_index.y as i64) * (CHUNK_SIZE as i64) + (oy as i64);
    let center = CellIndex { x: ccx as i32, y: ccy as i32 };
    match find_valid_spawn(grid, center, MOB_SPAWN_SEARCH_RADIUS) {
        Option::Some(sp) => {
            proof {
                assert(cell_in_range(sp)) by {
                    assert(spawn_ok(*grid, sp.x as int, sp.y as int));
                    assert(crate::dwellers::pass_at(*grid, sp.x as int + 0, sp.y as int + 0));
                    let c = choose|c: CellIndex|
                        (#[trigger] c.x) as int == sp.x as int + 0 && c.y as int == sp.y as int + 0
                            && grid.spec_passable(c);
                    grid.lemma_passable_in_bounds(c);
                    grid.lemma_wf_dims();
                }
            }
            let nb_sheeps = rand_between(1, 7);
            let nb_boars = rand_between(1, 5);
            let mut v: Vec<Mob> = Vec::new();
            let mut i: u64 = 0;
            while i < nb_sheeps
                invariant
                    cell_in_range(sp),
                    spawn_ok(*grid, sp.x as int, sp.y as int),
                    i <= nb_sheeps <= 7,
                    v@.len() == i,
                    forall|k: int|
                        0 <= k < v@.len() ==> (#[trigger] v@[k]).wf() && v@[k].spec_motion().x
                            == center_x(sp) && v@[k].spec_motion().y == center_y(sp)
                            && v@[k].spec_queue().len() == 0,
                    forall|k: int|
                        0 <= k < v@.len() ==> (#[trigger] v@[k]).spec_speed() == 960
                            && v@[k].spec_loot() == ObjectId(1),
                decreases nb_sheeps - i,
            {
                v.push(Mob::new(MobId::Sheep, sp));
                i = i + 1;
            }
            let mut j: u64 = 0;
            while j < nb_boars
                invariant
                    cell_in_range(sp),
                    spawn_ok(*grid, sp.x as int, sp.y as int),
                    j <= nb_boars <= 5,
                    1 <= nb_sheeps <= 7,
                    v@.len() == nb_sheeps + j,
                    forall|k: int|
                        0 <= k < v@.len() ==> (#[trigger] v@[k]).wf() && v@[k].spec_motion().x
                            == center_x(sp) && v@[k].spec_motion().y == center_y(sp)
                            && v@[k].spec_queue().len() == 0,
                    forall|k: int|
                        0 <= k < nb_sheeps ==> (#[trigger] v@[k]).spec_speed() == 960
                            && v@[k].spec_loot() == ObjectId(1),
                    forall|k: int|
                        nb_sheeps <= k < v@.len() ==> (#[trigger] v@[k]).spec_speed() == 1120
                            && v@[k].spec_loot() == ObjectId(2),
                decreases nb_boars - j,
            {
                v.push(Mob::new(MobId::Boar, sp));
                j = j + 1;
            }
            proof {
                assert(mob_group(v@, nb_sheeps as int, nb_boars as int));
                assert(exists|ns: int, nb: int|
                    1 <= ns <= 7 && 1 <= nb <= 5 && #[trigger] mob_group(v@, ns, nb));
                assert(spawn_ok(*grid, sp.x as int, sp.y as int) && forall|k: int|
                    0 <= k < v@.len() ==> (#[trigger] v@[k]).wf() && v@[k].spec_motion().x
                        == center_x(sp) && v@[k].spec_motion().y == center_y(sp)
                        && v@[k].spec_queue().len() == 0);
            }
            Some(v)
        },
        Option::None => {
            proof {
                assert(center.x as int == chunk_cell_x(chunk_index, ox as int) && center.y as int
                    == chunk_cell_y(chunk_index, oy as int));
                assert(no_spawn_near(
                    *grid,
                    chunk_cell_x(chunk_index, ox as int),
                    chunk_cell_y(chunk_index, oy as int),
                    MOB_SPAWN_SEARCH_RADIUS as int,
                ));
            }
            None
        },
    }
}

/// One decision tick for the mobs: an idle mob wanders one step with one
/// chance in five, staying put when no open neighbour exists.
pub fn update_mobs(mobs: &mut Vec<Mob>, grid: &TileGrid)
    requires
        grid.wf(),
        forall|k: int| 0 <= k < old(mobs)@.len() ==> (#[trigger] old(mobs)@[k]).wf(),
    ensures
        final(mobs)@.len() == old(mobs)@.len(),
        forall|k: int|
            0 <= k < final(mobs)@.len() ==> (#[trigger] final(mobs)@[k]).wf() && final(mobs)@[k].spec_motion() == old(mobs)@[k].spec_motion() && final(mobs)@[k].spec_speed()
                == old(mobs)@[k].spec_speed() && final(mobs)@[k].spec_loot() == old(mobs)@[k].spec_loot(),
        // a mid-move mob is untouched
        forall|k: int|
            0 <= k < final(mobs)@.len() && old(mobs)@[k].spec_queue().len() > 0 ==> (
            #[trigger] final(mobs)@[k]) == old(mobs)@[k],
        // an idle mob either stays put (the chance gate) or steps to one open
        // neighbour of its own cell; a walled-in mob always stays put
        forall|k: int|
            0 <= k < final(mobs)@.len() ==> (#[trigger] final(mobs)@[k]).spec_queue() == old(mobs)@[k].spec_queue() || (final(mobs)@[k].spec_queue().len() == 1 && adjacent8(
                old(mobs)@[k].spec_cell(),
                final(mobs)@[k].spec_queue()[0],
            ) && grid.spec_passable(final(mobs)@[k].spec_queue()[0])),
    {
    let n = mobs.len();
    let mut k: usize = 0;
    while k < n
        invariant
            grid.wf(),
            n == mobs@.len(),
            k <= n,
            mobs@.len() == old(mobs)@.len(),
            forall|j: int| k <= j < n ==> (#[trigger] mobs@[j]) == old(mobs)@[j],
            forall|j: int| 0 <= j < n ==> (#[trigger] mobs@[j]).wf(),
            forall|j: int|
                0 <= j < n ==> (#[trigger] mobs@[j]).spec_motion() == old(mobs)@[j].spec_motion()
                    && mobs@[j].spec_speed() == old(mobs)@[j].spec_speed()
                    && mobs@[j].spec_loot() == old(mobs)@[j].spec_loot(),
            forall|j: int|
                0 <= j < n && old(mobs)@[j].spec_queue().len() > 0 ==> (#[trigger] mobs@[j]) == old(
                    mobs,
                )@[j],
            forall|j: int|
                0 <= j < n ==> (#[trigger] mobs@[j]).spec_queue() == old(mobs)@[j].spec_queue() || (
                mobs@[j].spec_queue().len() == 1 && adjacent8(
                    old(mobs)@[j].spec_cell(),
                    mobs@[j].spec_queue()[0],
                ) && grid.spec_passable(mobs@[j].spec_queue()[0])),
        decreases n - k,
    {
        let idle = mobs[k].move_queue.len() == 0;
        if idle {
            if rand_chance(1, 5) {
                let cell = mobs[k].cell();
                let dirs = non_blocking_neighbours_pos(grid, cell, true);
                if dirs.len() > 0 {
                    let pick = rand_between(0, (dirs.len() - 1) as u64);
                    let c = dirs[pick as usize];
                    proof {
                        grid.lemma_passable_in_bounds(c);
                        grid.lemma_wf_dims();
                        assert(adjacent8(old(mobs)@[k as int].spec_cell(), c));
                    }
                    let mut q: Vec<CellIndex> = Vec::new();
                    q.push(c);
                    let m = &mut mobs[k];
                    m.move_queue = q;
                }
            }
        }
        k = k + 1;
    }
}

/// The movement tick: advance every mob toward the tail of its queue.
pub fn update_mobs_movement(mobs: &mut Vec<Mob>, dt_ms: u32)
    requires
        forall|k: int| 0 <= k < old(mobs)@.len() ==> (#[trigger] old(mobs)@[k]).wf(),
    ensures
        final(mobs)@.len() == old(mobs)@.len(),
        forall|k: int|
            0 <= k < final(mobs)@.len() ==> (#[trigger] final(mobs)@[k]).wf() && final(mobs)@[k].spec_speed() == old(mobs)@[k].spec_speed() && final(mobs)@[k].spec_loot() == old(mobs)@[k].spec_loot(),
        forall|k: int|
            0 <= k < final(mobs)@.len() ==> ((#[trigger] final(mobs)@[k]).spec_motion(), final(mobs)@[k].spec_queue()) == move_step(
                old(mobs)@[k].spec_motion(),
                old(mobs)@[k].spec_queue(),
                step_of(old(mobs)@[k].spec_speed(), dt_ms),
            ),
        dt_ms == 0 ==> forall|k: int|
            0 <= k < final(mobs)@.len() ==> (#[trigger] final(mobs)@[k]).spec_motion() == old(mobs)@[k].spec_motion() && final(mobs)@[k].spec_queue() == old(mobs)@[k].spec_queue(),
{
    let n = mobs.len();
    let mut k: usize = 0;
    while k < n
        invariant
            n == mobs@.len(),
            k <= n,
            mobs@.len() == old(mobs)@.len(),
            forall|j: int| k <= j < n ==> (#[trigger] mobs@[j]) == old(mobs)@[j],
            forall|j: int| k <= j < n ==> (#[trigger] mobs@[j]).wf(),
            forall|j: int|
                0 <= j < k ==> (#[trigger] mobs@[j]).wf() && mobs@[j].spec_speed() == old(mobs)@[j].spec_speed() && mobs@[j].spec_loot() == old(mobs)@[j].spec_loot(),
            forall|j: int|
                0 <= j < k ==> ((#[trigger] mobs@[j]).spec_motion(), mobs@[j].spec_queue())
                    == move_step(
                    old(mobs)@[j].spec_motion(),
                    old(mobs)@[j].spec_queue(),
                    step_of(old(mobs)@[j].spec_speed(), dt_ms),
                ),
        decreases n - k,
    {
        let ghost before = mobs@[k as int];
        {
            let m = &mut mobs[k];
            let step = tick_step(m.speed, dt_ms);
            proof {
                assert(step == step_of(before.spec_speed(), dt_ms));
            }
            advance_motion(&mut m.motion, &mut m.move_queue, step);
        }
        proof {
            let after = mobs@[k as int];
            assert(after.spec_speed() == before.spec_speed() && after.spec_loot()
                == before.spec_loot());
            assert((after.spec_motion(), after.spec_queue()) == move_step(
                before.spec_motion(),
                before.spec_queue(),
                step_of(before.spec_speed(), dt_ms),
            ));
            assert(after.spec_queue() == before.spec_queue() || after.spec_queue()
                == before.spec_queue().drop_last());
            assert forall|i: int|
                0 <= i < after.spec_queue().len() implies cell_in_range(
                #[trigger] after.spec_queue()[i],
            ) by {
                assert(after.spec_queue()[i] == before.spec_queue()[i]);
            }
        }
        k = k + 1;
    }
}

} // verus!
