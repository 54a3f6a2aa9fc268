use tick_engine::{Event, Scheduler};

struct TestWorld {
    counter: u32,
}

// events of the test world: one that increments the counter, and one that
// schedules `schedule_count` increments at the following ticks
enum TestEvent {
    Increment { amount: u32 },
    Scheduling { schedule_count: usize },
}

impl Event<TestWorld> for TestEvent {
    fn execute(&self, world: &mut TestWorld, _current_tick: u64, scheduler: &mut Scheduler<TestEvent>) {
        match self {
            TestEvent::Increment { amount } => world.counter += amount,
            TestEvent::Scheduling { schedule_count } => {
                for i in 0..*schedule_count {
                    scheduler.schedule(TestEvent::Increment { amount: 1 }, i as u64 + 1);
                }
            }
        }
    }
}

#[test]
fn test_event_executes_and_modifies_world() {
    let mut world = TestWorld { counter: 0 };
    let event = TestEvent::Increment { amount: 5 };
    let mut scheduler = Scheduler::new(0);

    event.execute(&mut world, 0, &mut scheduler);

    assert_eq!(world.counter, 5);
    assert_eq!(scheduler.len(), 0);
}

#[test]
fn test_event_returns_no_scheduled_events() {
    let mut world = TestWorld { counter: 0 };
    let event = TestEvent::Increment { amount: 1 };
    let mut scheduler = Scheduler::new(10);

    event.execute(&mut world, 10, &mut scheduler);

    assert!(scheduler.len() == 0);
}

#[test]
fn test_event_returns_scheduled_events() {
    let mut world = TestWorld { counter: 0 };
    let event = TestEvent::Scheduling { schedule_count: 3 };
    let mut scheduler = Scheduler::new(10);

    event.execute(&mut world, 10, &mut scheduler);

    assert_eq!(scheduler.len(), 3);
    assert_eq!(scheduler.due_tick(1), Some(11));
    assert_eq!(scheduler.due_tick(2), Some(12));
    assert_eq!(scheduler.due_tick(3), Some(13));
}

#[test]
fn test_event_current_tick_parameter() {
    let mut world = TestWorld { counter: 0 };
    let event = TestEvent::Scheduling { schedule_count: 1 };
    let mut scheduler_tick_5 = Scheduler::new(5);
    let mut scheduler_tick_100 = Scheduler::new(100);

    event.execute(&mut world, 5, &mut scheduler_tick_5);
    event.execute(&mut world, 100, &mut scheduler_tick_100);

    assert_eq!(scheduler_tick_5.due_tick(1), Some(6));
    assert_eq!(scheduler_tick_100.due_tick(1), Some(101));
}

#[test]
fn test_event_with_zero_schedules() {
    let mut world = TestWorld { counter: 0 };
    let event = TestEvent::Scheduling { schedule_count: 0 };
    let mut scheduler = Scheduler::new(10);

    event.execute(&mut world, 10, &mut scheduler);

    assert_eq!(scheduler.len(), 0);
}

#[test]
fn scheduler_ids_start_at_one_and_increase() {
    let mut scheduler: Scheduler<TestEvent> = Scheduler::new(3);
    assert_eq!(scheduler.latest_id(), 0);
    assert_eq!(scheduler.schedule(TestEvent::Increment { amount: 1 }, 0), 1);
    assert_eq!(scheduler.schedule(TestEvent::Increment { amount: 1 }, 4), 2);
    assert_eq!(scheduler.latest_id(), 2);
    assert_eq!(scheduler.due_tick(1), Some(3));
    assert_eq!(scheduler.due_tick(2), Some(7));
    assert_eq!(scheduler.due_tick(3), None);
    assert_eq!(scheduler.current_tick(), 3);
}

#[test]
fn scheduler_due_tick_saturates() {
    let mut scheduler: Scheduler<TestEvent> = Scheduler::new(10);
    let id = scheduler.schedule(TestEvent::Increment { amount: 1 }, u64::MAX - 3);
    assert_eq!(scheduler.due_tick(id), Some(u64::MAX));
}

#[test]
fn scheduler_cancel_marks_only() {
    let mut scheduler: Scheduler<TestEvent> = Scheduler::new(0);
    let id = scheduler.schedule(TestEvent::Increment { amount: 1 }, 2);
    assert!(!scheduler.is_cancelled(id));
    scheduler.cancel(id);
    scheduler.cancel(id);
    assert!(scheduler.is_cancelled(id));
    assert!(scheduler.is_cancelled(id));
    assert_eq!(scheduler.len(), 1);
    assert_eq!(scheduler.due_tick(id), Some(2));
    scheduler.cancel(99);
    assert!(scheduler.is_cancelled(99));
}
