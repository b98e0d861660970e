use dungeons::dwellers::{
    find_valid_spawn, non_blocking_neighbours_pos, path_to_queue, spawn_dwellers, update_dweller,
    update_dwellers, update_dwellers_movement, Dweller, SPEED,
};
use dungeons::grid::{CellIndex, TileGrid};
use dungeons::mobs::{spawn_mobs, update_mobs, update_mobs_movement, Mob, MobData, MobId};
use dungeons::movement::isqrt;
use dungeons::objects::{ObjectData, ObjectId, ObjectSlot};
use dungeons::pathfind::pathfind;
use dungeons::streaming::{cell_to_chunk, update_dwellers_load_chunks};
use dungeons::tasks::{
    find_assigned_task, task_eligible, BuildResult, Task, TaskKind, TaskNeeds,
};
use dungeons::utils::Map2D;

fn cell(x: i32, y: i32) -> CellIndex {
    CellIndex { x, y }
}

fn open_grid(w: usize, h: usize) -> TileGrid {
    TileGrid::new_open(w, h)
}

#[test]
fn pathfind_straight_line() {
    let g = open_grid(10, 10);
    let p = pathfind(&g, cell(0, 0), &vec![cell(5, 5)]).expect("reachable");
    assert_eq!(p.len(), 11); // 10 steps, 11 cells
    assert_eq!(p[0], cell(0, 0));
    assert_eq!(p[10], cell(5, 5));
}

#[test]
fn pathfind_around_wall() {
    let mut g = open_grid(5, 5);
    // vertical wall at x = 2 with a gap at y = 4
    for y in 0..4 {
        g.set_blocking(cell(2, y), true);
    }
    let p = pathfind(&g, cell(0, 0), &vec![cell(4, 0)]).expect("reachable");
    // detour through the gap: 4 right + 8 vertical = 12 steps
    assert_eq!(p.len(), 13);
    assert_eq!(p[0], cell(0, 0));
    assert_eq!(*p.last().unwrap(), cell(4, 0));
}

#[test]
fn pathfind_unreachable() {
    let mut g = open_grid(5, 5);
    for y in 0..5 {
        g.set_blocking(cell(2, y), true);
    }
    assert!(pathfind(&g, cell(0, 0), &vec![cell(4, 0)]).is_none());
}

#[test]
fn pathfind_start_is_goal() {
    let g = open_grid(3, 3);
    let p = pathfind(&g, cell(1, 1), &vec![cell(1, 1)]).expect("trivial");
    assert_eq!(p, vec![cell(1, 1)]);
}

#[test]
fn pathfind_picks_nearest_goal() {
    let g = open_grid(10, 1);
    let p = pathfind(&g, cell(0, 0), &vec![cell(9, 0), cell(3, 0)]).expect("reachable");
    assert_eq!(p.len(), 4);
    assert_eq!(*p.last().unwrap(), cell(3, 0));
}

#[test]
fn isqrt_exact_values() {
    assert_eq!(isqrt(0), 0);
    assert_eq!(isqrt(1), 1);
    assert_eq!(isqrt(2), 1);
    assert_eq!(isqrt(255), 15);
    assert_eq!(isqrt(256), 16);
    assert_eq!(isqrt(65536), 256);
    assert_eq!(isqrt(u64::MAX), 0xFFFF_FFFF);
}

// Scenario: fully open 10x10 grid, one task at (5,5), one agent at (0,0):
// the task is assigned at once, the path has 10 steps, and the completion
// signal fires after exactly 10 movement arrivals.
#[test]
fn scenario_assign_walk_complete() {
    let g = open_grid(10, 10);
    let mut dwellers = vec![Dweller::new("Alice".to_string(), cell(0, 0), SPEED)];
    let mut tasks = vec![Task::new(
        TaskKind::Dig,
        1,
        TaskNeeds::Nothing,
        cell(5, 5),
        vec![cell(5, 5)],
    )];
    let events = update_dwellers(&mut dwellers, &mut tasks, &g);
    assert!(events.is_empty());
    assert_eq!(tasks[0].dweller, Some(0));
    assert_eq!(dwellers[0].move_queue().len(), 10);

    // one second per tick at SPEED covers more than one tile per tick
    let mut arrivals = 0;
    for _ in 0..10 {
        let before = dwellers[0].move_queue().len();
        update_dwellers_movement(&mut dwellers, 1000);
        let after = dwellers[0].move_queue().len();
        assert_eq!(before - 1, after);
        arrivals += 1;
    }
    assert_eq!(arrivals, 10);
    assert!(dwellers[0].move_queue().is_empty());

    let events = update_dwellers(&mut dwellers, &mut tasks, &g);
    assert_eq!(events.len(), 1);
    assert_eq!(events[0].task, 0);
}

// Scenario: two unassigned tasks with priorities 5 and 1: the priority-5 task
// is selected regardless of distance.
#[test]
fn scenario_priority_wins() {
    let g = open_grid(10, 10);
    let mut dwellers = vec![Dweller::new("Bob".to_string(), cell(0, 0), SPEED)];
    let mut tasks = vec![
        Task::new(TaskKind::Dig, 1, TaskNeeds::Nothing, cell(2, 0), vec![cell(2, 0)]),
        Task::new(TaskKind::Chop, 5, TaskNeeds::Nothing, cell(3, 0), vec![cell(3, 0)]),
    ];
    update_dwellers(&mut dwellers, &mut tasks, &g);
    assert_eq!(tasks[0].dweller, None);
    assert_eq!(tasks[1].dweller, Some(0));
}

// Scenario: two tasks of equal priority, reachable in 2 and 5 steps: the
// farther one wins the tie-break.
#[test]
fn scenario_equal_priority_farther_wins() {
    let g = open_grid(10, 10);
    let mut dwellers = vec![Dweller::new("Eve".to_string(), cell(0, 0), SPEED)];
    let mut tasks = vec![
        Task::new(TaskKind::Dig, 1, TaskNeeds::Nothing, cell(2, 0), vec![cell(2, 0)]),
        Task::new(TaskKind::Dig, 1, TaskNeeds::Nothing, cell(5, 0), vec![cell(5, 0)]),
    ];
    update_dwellers(&mut dwellers, &mut tasks, &g);
    assert_eq!(tasks[0].dweller, None);
    assert_eq!(tasks[1].dweller, Some(0));
    assert_eq!(dwellers[0].move_queue().len(), 5);
}

// Scenario: an assigned task whose reachable positions all become blocked is
// abandoned: it reverts to unassigned and the agent stays idle.
#[test]
fn scenario_unreachable_task_abandoned() {
    let mut g = open_grid(6, 6);
    let mut dwellers = vec![Dweller::new("Dave".to_string(), cell(0, 0), SPEED)];
    let mut tasks = vec![Task::new(
        TaskKind::Build { result: BuildResult::Object(ObjectId(7)) },
        1,
        TaskNeeds::Nothing,
        cell(4, 4),
        vec![cell(4, 4)],
    )];
    tasks[0].dweller = Some(0);
    // the world changes: the target becomes walled in
    g.set_blocking(cell(4, 4), true);
    let events = update_dwellers(&mut dwellers, &mut tasks, &g);
    assert!(events.is_empty());
    assert_eq!(tasks[0].dweller, None);
}

// Scenario: zero non-blocking neighbours around an idle agent: the move queue
// stays empty.
#[test]
fn scenario_walled_in_agent_stays() {
    let mut g = open_grid(3, 3);
    for x in 0..3 {
        for y in 0..3 {
            if !(x == 1 && y == 1) {
                g.set_blocking(cell(x, y), true);
            }
        }
    }
    let mut dwellers = vec![Dweller::new("Carol".to_string(), cell(1, 1), SPEED)];
    let mut tasks: Vec<Task> = vec![];
    for _ in 0..5 {
        update_dwellers(&mut dwellers, &mut tasks, &g);
        assert!(dwellers[0].move_queue().is_empty());
    }
    let dirs = non_blocking_neighbours_pos(&g, cell(1, 1), true);
    assert!(dirs.is_empty());
}

// Scenario: zero dwellers present: no unload request is emitted for any
// loaded chunk.
#[test]
fn scenario_no_dwellers_no_unload() {
    let dwellers: Vec<Dweller> = vec![];
    let loaded = vec![cell(0, 0), cell(1, 0), cell(2, 2)];
    let (loads, unloads) = update_dwellers_load_chunks(&dwellers, &loaded);
    assert!(loads.is_empty());
    assert!(unloads.is_empty());
}

#[test]
fn streaming_loads_and_unloads() {
    let dwellers = vec![Dweller::new("Alice".to_string(), cell(0, 0), SPEED)];
    let far = cell(100, 100);
    let near = cell(0, 0);
    let loaded = vec![near, far];
    let (loads, unloads) = update_dwellers_load_chunks(&dwellers, &loaded);
    // the dweller is in chunk (0,0): nine chunks around it are requested
    assert_eq!(loads.len(), 9);
    assert!(loads.contains(&cell(0, 0)));
    assert!(loads.contains(&cell(-1, -1)));
    assert!(loads.contains(&cell(1, 1)));
    assert_eq!(unloads, vec![far]);
}

#[test]
fn chunk_coordinates_floor() {
    assert_eq!(cell_to_chunk(0), 0);
    assert_eq!(cell_to_chunk(15), 0);
    assert_eq!(cell_to_chunk(16), 1);
    assert_eq!(cell_to_chunk(-1), -1);
    assert_eq!(cell_to_chunk(-16), -1);
    assert_eq!(cell_to_chunk(-17), -2);
}

#[test]
fn movement_zero_elapsed_is_identity() {
    let g = open_grid(10, 10);
    let mut dwellers = vec![Dweller::new("Alice".to_string(), cell(0, 0), SPEED)];
    let mut tasks = vec![Task::new(
        TaskKind::Dig,
        1,
        TaskNeeds::Nothing,
        cell(5, 5),
        vec![cell(5, 5)],
    )];
    update_dwellers(&mut dwellers, &mut tasks, &g);
    let queue_before = dwellers[0].move_queue().clone();
    let motion_before = dwellers[0].motion();
    update_dwellers_movement(&mut dwellers, 0);
    assert_eq!(*dwellers[0].move_queue(), queue_before);
    assert_eq!(dwellers[0].motion(), motion_before);
}

#[test]
fn eligibility_rules() {
    let dig = Task::new(TaskKind::Dig, 1, TaskNeeds::Nothing, cell(0, 0), vec![cell(0, 0)]);
    assert!(task_eligible(&dig, None));
    assert!(task_eligible(&dig, Some(ObjectId(3))));

    let empty = Task::new(TaskKind::Dig, 1, TaskNeeds::EmptyHands, cell(0, 0), vec![cell(0, 0)]);
    assert!(task_eligible(&empty, None));
    assert!(!task_eligible(&empty, Some(ObjectId(3))));

    let objs = Task::new(
        TaskKind::Dig,
        1,
        TaskNeeds::Objects(vec![ObjectId(1), ObjectId(2)]),
        cell(0, 0),
        vec![cell(0, 0)],
    );
    assert!(!task_eligible(&objs, None));
    assert!(task_eligible(&objs, Some(ObjectId(2))));
    assert!(!task_eligible(&objs, Some(ObjectId(9))));

    // the build escape valve: carrying exactly what the build produces
    let build = Task::new(
        TaskKind::Build { result: BuildResult::Object(ObjectId(9)) },
        1,
        TaskNeeds::Objects(vec![ObjectId(1)]),
        cell(0, 0),
        vec![cell(0, 0)],
    );
    assert!(task_eligible(&build, Some(ObjectId(9))));
    assert!(!task_eligible(&build, Some(ObjectId(8))));

    let any = Task::new(TaskKind::Haul, 1, TaskNeeds::AnyObject, cell(0, 0), vec![cell(0, 0)]);
    assert!(!task_eligible(&any, None));
    assert!(task_eligible(&any, Some(ObjectId(1))));

    let imp = Task::new(TaskKind::Haul, 1, TaskNeeds::Impossible, cell(0, 0), vec![cell(0, 0)]);
    assert!(!task_eligible(&imp, None));
    assert!(!task_eligible(&imp, Some(ObjectId(1))));
}

#[test]
fn impossible_task_never_assigned() {
    let g = open_grid(5, 5);
    let mut dwellers = vec![Dweller::new("Bob".to_string(), cell(0, 0), SPEED)];
    let mut tasks = vec![Task::new(
        TaskKind::Haul,
        9,
        TaskNeeds::Impossible,
        cell(1, 1),
        vec![cell(1, 1)],
    )];
    update_dwellers(&mut dwellers, &mut tasks, &g);
    assert_eq!(tasks[0].dweller, None);
}

#[test]
fn find_assigned_scans_in_order() {
    let mut tasks = vec![
        Task::new(TaskKind::Dig, 1, TaskNeeds::Nothing, cell(0, 0), vec![cell(0, 0)]),
        Task::new(TaskKind::Dig, 1, TaskNeeds::Nothing, cell(1, 0), vec![cell(1, 0)]),
    ];
    assert_eq!(find_assigned_task(&tasks, 0), None);
    tasks[1].dweller = Some(0);
    assert_eq!(find_assigned_task(&tasks, 0), Some(1));
    assert_eq!(find_assigned_task(&tasks, 1), None);
}

#[test]
fn spawn_dwellers_names_and_position() {
    let g = open_grid(32, 32);
    let v = spawn_dwellers(&g, cell(0, 0)).expect("open grid has a spawn spot");
    assert_eq!(v.len(), 5);
    let names: Vec<&str> = v.iter().map(|d| d.name().as_str()).collect();
    assert_eq!(names, vec!["Alice", "Bob", "Charlie", "Dave", "Eve"]);
    let m0 = v[0].motion();
    for d in &v {
        assert_eq!(d.motion().x, m0.x);
        assert_eq!(d.motion().y, m0.y);
        assert!(d.move_queue().is_empty());
        assert_eq!(d.object(), None);
    }
}

#[test]
fn spawn_dwellers_fails_on_blocked_world() {
    let mut g = open_grid(8, 8);
    for x in 0..8 {
        for y in 0..8 {
            g.set_blocking(cell(x, y), true);
        }
    }
    assert!(spawn_dwellers(&g, cell(0, 0)).is_none());
}

#[test]
fn spawn_mobs_counts() {
    let g = open_grid(64, 64);
    let v = spawn_mobs(&g, cell(1, 1)).expect("open grid has a spawn spot");
    assert!(v.len() >= 2 && v.len() <= 12);
    for m in &v {
        assert!(m.move_queue().is_empty());
    }
}

#[test]
fn mobs_wander_and_move() {
    let g = open_grid(8, 8);
    let mut mobs = vec![Mob::new(MobId::Sheep, cell(4, 4))];
    for _ in 0..50 {
        update_mobs(&mut mobs, &g);
        update_mobs_movement(&mut mobs, 100);
    }
    assert_eq!(mobs.len(), 1);
}

#[test]
fn mob_species_data() {
    let sheep = MobId::Sheep.data();
    assert_eq!(sheep.sprite_name(), "sheep");
    assert_eq!(sheep.speed(), 960);
    assert_eq!(sheep.loot(), ObjectId(1));
    let boar = MobId::Boar.data();
    assert_eq!(boar.sprite_name(), "boar");
    assert_eq!(boar.speed(), 1120);
    assert_eq!(boar.loot(), ObjectId(2));
    let custom = MobData::new("wolf", 2000, ObjectId(5));
    assert_eq!(custom.sprite_name(), "wolf");
}

#[test]
fn object_data_catalogue() {
    let grass = ObjectData::passable("grass");
    assert!(!grass.is_blocking());
    assert!(grass.is_carriable());
    assert_eq!(grass.filename(), "grass");
    assert_eq!(grass.sprite_path(), "tiles/objects/grass.png");

    let wall = ObjectData::blocking("wall");
    assert!(wall.is_blocking());
    assert!(wall.is_carriable());

    let water = ObjectData::passable_non_carriable("water");
    assert!(!water.is_carriable());
    assert!(matches!(water.slot(), ObjectSlot::Uncarriable));

    let rock = ObjectData::blocking_non_carriable("rock");
    assert!(rock.is_blocking());
    assert!(!rock.is_carriable());

    let pick = ObjectData::tool("pickaxe");
    assert!(matches!(pick.slot(), ObjectSlot::Tool));
    assert!(pick.is_carriable());

    let helm = ObjectData::armor("helmet");
    assert!(matches!(helm.slot(), ObjectSlot::Armor));
}

#[test]
fn map2d_get_set() {
    let mut m: Map2D<4, u8> = Map2D::new(7);
    assert_eq!(m.get(cell(0, 0)), Some(7));
    assert_eq!(m.get(cell(3, 3)), Some(7));
    assert_eq!(m.get(cell(4, 0)), None);
    assert_eq!(m.get(cell(-1, 0)), None);
    m.set(cell(2, 1), 9);
    assert_eq!(m.get(cell(2, 1)), Some(9));
    assert_eq!(m.get(cell(1, 2)), Some(7));
    m.set(cell(-1, 0), 3); // out of range: ignored
    assert_eq!(m.get(cell(0, 0)), Some(7));
}

#[test]
fn find_valid_spawn_avoids_blocks() {
    let mut g = open_grid(16, 16);
    g.set_blocking(cell(8, 8), true);
    let sp = find_valid_spawn(&g, cell(8, 8), 16).expect("nearby spot exists");
    // the found spot's whole 3x3 block avoids the blocked centre
    for dx in -1..=1 {
        for dy in -1..=1 {
            assert!(!(sp.x + dx == 8 && sp.y + dy == 8));
        }
    }
}

#[test]
fn path_to_queue_reverses_tail() {
    let p = vec![cell(0, 0), cell(1, 0), cell(2, 0)];
    let q = path_to_queue(&p);
    assert_eq!(q, vec![cell(2, 0), cell(1, 0)]);
}

#[test]
fn wander_step_is_adjacent_and_open() {
    let mut g = open_grid(5, 5);
    g.set_blocking(cell(1, 2), true);
    let mut d = Dweller::new("Bob".to_string(), cell(2, 2), SPEED);
    let mut tasks: Vec<Task> = vec![];
    let mut events = Vec::new();
    update_dweller(&mut d, 0, &mut tasks, &g, &mut events);
    let q = d.move_queue();
    assert_eq!(q.len(), 1);
    let c = q[0];
    assert!((c.x - 2).abs() <= 1 && (c.y - 2).abs() <= 1);
    assert!(!(c.x == 2 && c.y == 2));
    assert!(!(c.x == 1 && c.y == 2));
}

// Scenario: a walled-in mob's queue stays empty regardless of the random
// wander gate.
#[test]
fn scenario_walled_in_mob_stays() {
    let mut g = open_grid(3, 3);
    for x in 0..3 {
        for y in 0..3 {
            if !(x == 1 && y == 1) {
                g.set_blocking(cell(x, y), true);
            }
        }
    }
    let mut mobs = vec![Mob::new(MobId::Boar, cell(1, 1))];
    for _ in 0..20 {
        update_mobs(&mut mobs, &g);
        assert!(mobs[0].move_queue().is_empty());
    }
}

#[test]
fn spawn_mobs_group_is_sheep_then_boars() {
    let g = open_grid(64, 64);
    let v = spawn_mobs(&g, cell(1, 1)).expect("open grid has a spawn spot");
    let ns = v.iter().take_while(|m| m.speed() == 960).count();
    assert!((1..=7).contains(&ns));
    assert!((1..=5).contains(&(v.len() - ns)));
    for (k, m) in v.iter().enumerate() {
        if k < ns {
            assert_eq!(m.speed(), 960);
            assert_eq!(m.loot(), ObjectId(1));
        } else {
            assert_eq!(m.speed(), 1120);
            assert_eq!(m.loot(), ObjectId(2));
        }
    }
}

#[test]
fn streaming_unloads_once_per_chunk() {
    let dwellers = vec![Dweller::new("Alice".to_string(), cell(0, 0), SPEED)];
    let far = cell(100, 100);
    // the same far chunk listed twice is unloaded once
    let loaded = vec![far, far];
    let (loads, unloads) = update_dwellers_load_chunks(&dwellers, &loaded);
    assert_eq!(loads.len(), 9);
    assert_eq!(unloads, vec![far]);
}

#[test]
fn neighbours_enumeration_is_exact() {
    let mut g = open_grid(5, 5);
    g.set_blocking(cell(1, 2), true);
    let dirs = non_blocking_neighbours_pos(&g, cell(2, 2), true);
    // all eight neighbours but the blocked one, each exactly once
    assert_eq!(dirs.len(), 7);
    let four = non_blocking_neighbours_pos(&g, cell(2, 2), false);
    assert_eq!(four.len(), 3);
    assert!(!four.contains(&cell(1, 2)));
}
