//! Tasks: units of assignable work bound to reachable grid cells, claimed by
//! at most one dweller at a time.

use vstd::prelude::*;

use crate::grid::{CellIndex, TileGrid};
use crate::objects::ObjectId;
use crate::pathfind::{path_ok, pathfind};

verus! {

/// Identity of a tile kind, as a build result.
#[derive(Clone, Copy, PartialEq, Eq, Structural, Debug, Hash)]
pub struct TileId(pub u32);

/// What a build task leaves behind when completed.
#[derive(Clone, Copy, PartialEq, Eq, Structural, Debug)]
pub enum BuildResult {
    Object(ObjectId),
    Tile(TileId),
}

/// The closed set of task operations.
#[derive(Clone, Copy, PartialEq, Eq, Structural, Debug)]
pub enum TaskKind {
    Dig,
    Chop,
    Haul,
    Build { result: BuildResult },
}

/// What a dweller must carry to be eligible for a task.
#[derive(Clone, Debug)]
pub enum TaskNeeds {
    Nothing,
    EmptyHands,
    Objects(Vec<ObjectId>),
    AnyObject,
    Impossible,
}

/// A unit of assignable work. `dweller` is the single source of truth for
/// whether the work is claimed: it holds the index of the agent pursuing it.
pub struct Task {
    pub kind: TaskKind,
    pub priority: i32,
    pub needs: TaskNeeds,
    pub pos: CellIndex,
    pub reachable_positions: Vec<CellIndex>,
    pub dweller: Option<usize>,
}

/// Announces that the task at the carried index has been reached; external
/// task-kind handlers apply the effect and remove the task.
#[derive(Clone, Copy, PartialEq, Eq, Structural, Debug)]
pub struct TaskCompletionEvent {
    pub task: usize,
}

/// Whether a dweller carrying `obj` is eligible for the work. A build task whose
/// declared output equals the carried object is eligible even when the
/// carried object is not in the task's own object list.
pub open spec fn task_eligible_spec(kind: TaskKind, needs: TaskNeeds, obj: Option<ObjectId>) -> bool {
    match needs {
        TaskNeeds::Nothing => true,
        TaskNeeds::EmptyHands => obj is None,
        TaskNeeds::Objects(objs) => match obj {
            Option::None => false,
            Option::Some(o) => objs@.contains(o) || (match kind {
                TaskKind::Build { result } => result == BuildResult::Object(o),
                _ => false,
            }),
        },
        TaskNeeds::AnyObject => obj is Some,
        TaskNeeds::Impossible => false,
    }
}

/// The task index an agent discovers as its own: the first task whose
/// assignment field names the agent.
pub open spec fn is_discovered(tasks: Seq<Task>, agent: usize, t: int) -> bool {
    &&& 0 <= t < tasks.len()
    &&& tasks[t].dweller == Some(agent)
    &&& forall|j: int| 0 <= j < t ==> (#[trigger] tasks[j]).dweller != Some(agent)
}

/// Law: at all times, at most one agent's discovered assignment resolves to
/// any one task, since the task's own assignment field names a single agent.
pub proof fn lemma_assignment_exclusive(tasks: Seq<Task>, a: usize, b: usize, t: int)
    requires
        is_discovered(tasks, a, t),
        is_discovered(tasks, b, t),
    ensures
        a == b,
{
}

/// Find the task assigned to the given agent, scanning in task order.
pub fn find_assigned_task(tasks: &Vec<Task>, agent: usize) -> (r: Option<usize>)
    ensures
        match r {
            Some(t) => is_discovered(tasks@, agent, t as int),
            None => forall|j: int| 0 <= j < tasks@.len() ==> (#[trigger] tasks@[j]).dweller != Some(
                agent,
            ),
        },
{
    let mut i: usize = 0;
    while i < tasks.len()
        invariant
            i <= tasks@.len(),
            forall|j: int| 0 <= j < i ==> (#[trigger] tasks@[j]).dweller != Some(agent),
        decreases tasks@.len() - i,
    {
        let found = match tasks[i].dweller {
            Option::Some(a) => a == agent,
            Option::None => false,
        };
        if found {
            return Some(i);
        }
        i = i + 1;
    }
    None
}

/// Whether a dweller carrying `obj` may take the task, exactly as the
/// eligibility rules say.
pub fn task_eligible(task: &Task, obj: Option<ObjectId>) -> (r: bool)
    ensures
        r == task_eligible_spec(task.kind, task.needs, obj),
{
    match &task.needs {
        TaskNeeds::Nothing => true,
        TaskNeeds::EmptyHands => obj.is_none(),
        TaskNeeds::Objects(objs) => {
            match obj {
                Option::None => false,
                Option::Some(o) => {
                    let mut i: usize = 0;
                    let mut in_list = false;
                    while i < objs.len()
                        invariant
                            i <= objs@.len(),
                            in_list == exists|j: int| 0 <= j < i && objs@[j] == o,
                        decreases objs@.len() - i,
                    {
                        if objs[i] == o {
                            in_list = true;
                        }
                        i = i + 1;
                    }
                    proof {
                        if objs@.contains(o) {
                            let j = choose|j: int| 0 <= j < objs@.len() && objs@[j] == o;
                            assert(in_list);
                        }
                    }
                    if in_list {
                        true
                    } else {
                        match task.kind {
                            TaskKind::Build { result } => result == BuildResult::Object(o),
                            _ => false,
                        }
                    }
                },
            }
        },
        TaskNeeds::AnyObject => obj.is_some(),
        TaskNeeds::Impossible => false,
    }
}

impl Task {
    /// A fresh, unassigned task.
    pub fn new(kind: TaskKind, priority: i32, needs: TaskNeeds, pos: CellIndex, reachable_positions: Vec<CellIndex>) -> (r: Task)
        ensures
            r.kind == kind,
            r.priority == priority,
            r.needs == needs,
            r.pos == pos,
            r.reachable_positions == reachable_positions,
            r.dweller is None,
    {
        Task { kind, priority, needs, pos, reachable_positions, dweller: None }
    }

    /// A shortest path from `start` to any of the task's reachable positions,
    /// or `None` exactly when none is reachable.
    pub fn pathfind(&self, start: CellIndex, grid: &TileGrid) -> (r: Option<Vec<CellIndex>>)
        requires
            grid.wf(),
        ensures
            match r {
                Some(p) => path_ok(*grid, p@, start, self.reachable_positions@) && forall|
                    q: Seq<CellIndex>,
                |
                    path_ok(*grid, q, start, self.reachable_positions@) ==> p@.len() <= q.len(),
                None => forall|q: Seq<CellIndex>|
                    !path_ok(*grid, q, start, self.reachable_positions@),
            },
    {
        pathfind(grid, start, &self.reachable_positions)
    }
}

} // verus!
