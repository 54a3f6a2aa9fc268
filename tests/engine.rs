use tick_engine::{Engine, Event, Scheduler, DEFAULT_MAX_EXECUTIONS_PER_TICK};

struct TestWorld {
    gold: i32,
    logs: Vec<String>,
}

enum SimEvent {
    // recurs every 5 ticks
    Miner { amount: i32 },
    Explosion { power: i32 },
}

impl Event<TestWorld> for SimEvent {
    fn execute(&self, world: &mut TestWorld, tick: u64, scheduler: &mut Scheduler<SimEvent>) {
        match self {
            SimEvent::Miner { amount } => {
                world.gold += amount;
                world.logs.push(format!("Tick {}: Mined {}", tick, amount));
                scheduler.schedule(SimEvent::Miner { amount: *amount }, 5);
            }
            SimEvent::Explosion { power } => {
                world.logs.push(format!("Tick {}: BOOM {}", tick, power));
            }
        }
    }
}

#[test]
fn test_simulation_workflow() {
    let mut world = TestWorld {
        gold: 0,
        logs: vec![],
    };

    let mut engine = Engine::build()
        .max_executions_per_tick(100)
        .initial_event_pool(vec![
            (SimEvent::Miner { amount: 10 }, 1),
            (SimEvent::Explosion { power: 9000 }, 12),
        ]);

    // Expected Miner Activations: Tick 1, 6, 11, 16. (Total 4 times)
    // Expected Explosion: Tick 12.
    engine.step_until(20, &mut world);

    assert_eq!(world.gold, 40, "Gold should be 40 after 4 mining cycles");

    assert_eq!(world.logs[0], "Tick 1: Mined 10");
    assert_eq!(world.logs[1], "Tick 6: Mined 10");
    assert_eq!(world.logs[2], "Tick 11: Mined 10");
    assert_eq!(world.logs[3], "Tick 12: BOOM 9000");
    assert_eq!(world.logs[4], "Tick 16: Mined 10");

    assert_eq!(engine.get_current_tick(), 20);
}

// A world that records which event ran at which tick.
struct Trace {
    runs: Vec<(u64, &'static str)>,
}

enum Probe {
    // records its name
    Note(&'static str),
    // records its name, then schedules a note with the given delay
    Spawn(&'static str, &'static str, u64),
    // records its name, then cancels the given id
    Cancel(&'static str, u64),
}

impl Event<Trace> for Probe {
    fn execute(&self, world: &mut Trace, tick: u64, scheduler: &mut Scheduler<Probe>) {
        match self {
            Probe::Note(name) => world.runs.push((tick, name)),
            Probe::Spawn(name, child, delay) => {
                world.runs.push((tick, name));
                scheduler.schedule(Probe::Note(child), *delay);
            }
            Probe::Cancel(name, id) => {
                world.runs.push((tick, name));
                scheduler.cancel(*id);
            }
        }
    }
}

fn trace() -> Trace {
    Trace { runs: vec![] }
}

#[test]
fn zero_delay_event_runs_within_the_same_step() {
    let mut world = trace();
    let mut engine = Engine::build().max_executions_per_tick(10);
    engine.schedule(Probe::Spawn("parent", "child", 0), 1);
    engine.schedule(Probe::Note("later"), 2);
    engine.step(&mut world);
    assert_eq!(world.runs, vec![(1, "parent"), (1, "child")]);
    assert_eq!(engine.get_total_events_executed(), 2);
    assert_eq!(engine.get_queue_size(), 1);
}

#[test]
fn same_tick_events_run_in_scheduling_order() {
    let mut world = trace();
    let mut engine = Engine::build();
    let first = engine.schedule(Probe::Note("first"), 3);
    let second = engine.schedule(Probe::Note("second"), 3);
    assert!(first < second);
    engine.step_until(3, &mut world);
    assert_eq!(world.runs, vec![(3, "first"), (3, "second")]);
}

#[test]
fn smaller_due_tick_runs_first_whatever_the_id() {
    let mut world = trace();
    let mut engine = Engine::build();
    engine.schedule(Probe::Note("late"), 4);
    engine.schedule(Probe::Note("early"), 2);
    engine.step_until(5, &mut world);
    assert_eq!(world.runs, vec![(2, "early"), (4, "late")]);
}

#[test]
fn schedule_hands_out_increasing_ids_from_one() {
    let mut engine: Engine<Probe> = Engine::build();
    assert_eq!(engine.schedule(Probe::Note("a"), 0), 1);
    assert_eq!(engine.schedule(Probe::Note("b"), 0), 2);
    assert_eq!(engine.schedule(Probe::Note("c"), 9), 3);
    assert_eq!(engine.get_queue_size(), 3);
    assert_eq!(engine.scheduler().due_tick(3), Some(9));
}

#[test]
fn budget_caps_executions_per_step() {
    let mut world = trace();
    let mut engine = Engine::build().max_executions_per_tick(2);
    for name in ["a", "b", "c", "d", "e"] {
        engine.schedule(Probe::Note(name), 0);
    }
    engine.step(&mut world);
    assert_eq!(world.runs, vec![(1, "a"), (1, "b")]);
    assert_eq!(engine.get_total_events_executed(), 2);
    assert_eq!(engine.get_queue_size(), 3);
    // overdue events are taken up on the next step, still in order
    engine.step(&mut world);
    assert_eq!(world.runs[2..], [(2, "c"), (2, "d")]);
    engine.step(&mut world);
    assert_eq!(world.runs[4..], [(3, "e")]);
    assert_eq!(engine.get_total_events_executed(), 5);
}

#[test]
fn default_budget_is_five() {
    let mut world = trace();
    let mut engine = Engine::build();
    assert_eq!(engine.get_max_executions_per_tick(), DEFAULT_MAX_EXECUTIONS_PER_TICK);
    assert_eq!(DEFAULT_MAX_EXECUTIONS_PER_TICK, 5);
    for _ in 0..7 {
        engine.schedule(Probe::Note("n"), 1);
    }
    engine.step(&mut world);
    assert_eq!(world.runs.len(), 5);
    assert_eq!(engine.get_queue_size(), 2);
}

#[test]
fn zero_budget_runs_nothing_but_the_tick_advances() {
    let mut world = trace();
    let mut engine = Engine::build().max_executions_per_tick(0);
    engine.schedule(Probe::Note("n"), 0);
    engine.step(&mut world);
    assert!(world.runs.is_empty());
    assert_eq!(engine.get_current_tick(), 1);
    assert_eq!(engine.get_queue_size(), 1);
}

#[test]
fn tick_advances_by_exactly_one_per_step() {
    let mut world = trace();
    let mut engine: Engine<Probe> = Engine::build();
    assert_eq!(engine.get_current_tick(), 0);
    engine.step(&mut world);
    assert_eq!(engine.get_current_tick(), 1);
    for _ in 0..5 {
        engine.schedule(Probe::Note("n"), 0);
    }
    engine.step(&mut world);
    assert_eq!(engine.get_current_tick(), 2);
    engine.step(&mut world);
    assert_eq!(engine.get_current_tick(), 3);
}

#[test]
fn cancelled_event_never_runs_and_costs_no_budget() {
    let mut world = trace();
    let mut engine = Engine::build().max_executions_per_tick(1);
    let doomed = engine.schedule(Probe::Note("doomed"), 1);
    engine.schedule(Probe::Note("kept"), 1);
    engine.cancel(doomed);
    assert!(engine.scheduler().is_cancelled(doomed));
    engine.step(&mut world);
    assert_eq!(world.runs, vec![(1, "kept")]);
    assert_eq!(engine.get_total_events_executed(), 1);
    assert_eq!(engine.get_queue_size(), 0);
    // the mark is used up when the entry is dropped
    assert!(!engine.scheduler().is_cancelled(doomed));
    engine.step_until(10, &mut world);
    assert_eq!(world.runs, vec![(1, "kept")]);
}

#[test]
fn cancel_after_execution_has_no_effect() {
    let mut world = trace();
    let mut engine = Engine::build();
    let id = engine.schedule(Probe::Note("once"), 1);
    engine.schedule(Probe::Note("other"), 2);
    engine.step(&mut world);
    engine.cancel(id);
    engine.step_until(4, &mut world);
    assert_eq!(world.runs, vec![(1, "once"), (2, "other")]);
    assert_eq!(engine.get_total_events_executed(), 2);
}

#[test]
fn event_can_cancel_a_pending_event() {
    let mut world = trace();
    let mut engine = Engine::build();
    engine.schedule(Probe::Cancel("canceller", 2), 1);
    engine.schedule(Probe::Note("victim"), 3);
    engine.step_until(5, &mut world);
    assert_eq!(world.runs, vec![(1, "canceller")]);
}

#[test]
fn pre_run_zero_delay_is_due_on_the_first_step() {
    let mut world = trace();
    let mut engine = Engine::build().initial_event_pool(vec![(Probe::Note("now"), 0), (Probe::Note("next"), 2)]);
    assert_eq!(engine.scheduler().latest_id(), 2);
    engine.step(&mut world);
    assert_eq!(world.runs, vec![(1, "now")]);
    engine.step(&mut world);
    assert_eq!(world.runs, vec![(1, "now"), (2, "next")]);
}

fn spawn_setup() -> Engine<Probe> {
    Engine::build()
        .max_executions_per_tick(2)
        .initial_event_pool(vec![
            (Probe::Spawn("s1", "c1", 0), 1),
            (Probe::Spawn("s2", "c2", 3), 1),
            (Probe::Note("n1"), 1),
            (Probe::Note("n2"), 4),
            (Probe::Spawn("s3", "c3", 1), 6),
        ])
}

#[test]
fn step_until_matches_repeated_steps() {
    let mut world_a = trace();
    let mut engine_a = spawn_setup();
    engine_a.step_until(12, &mut world_a);

    let mut world_b = trace();
    let mut engine_b = spawn_setup();
    for _ in 0..12 {
        engine_b.step(&mut world_b);
    }

    assert_eq!(world_a.runs, world_b.runs);
    assert_eq!(engine_a.get_current_tick(), 12);
    assert_eq!(engine_b.get_current_tick(), 12);
    assert_eq!(engine_a.get_total_events_executed(), engine_b.get_total_events_executed());
    assert_eq!(engine_a.get_queue_size(), engine_b.get_queue_size());
    assert_eq!(
        world_a.runs,
        vec![
            (1, "s1"),
            (1, "s2"),
            (2, "n1"),
            (2, "c1"),
            (4, "n2"),
            (4, "c2"),
            (6, "s3"),
            (7, "c3"),
        ]
    );
}

#[test]
fn step_until_at_or_below_current_tick_does_nothing() {
    let mut world = trace();
    let mut engine = Engine::build();
    engine.schedule(Probe::Note("n"), 1);
    engine.step_until(3, &mut world);
    engine.step_until(2, &mut world);
    engine.step_until(3, &mut world);
    assert_eq!(engine.get_current_tick(), 3);
    assert_eq!(world.runs, vec![(1, "n")]);
}
