use parallel_world::world::recover;
use parallel_world::{AnyWorld, World, WorldError, WorldStatus};
use std::cell::Cell;
use std::rc::Rc;

type Job<R> = Box<dyn FnOnce() -> R>;
type Fallible<R> = Box<dyn FnOnce() -> Result<R, String>>;

fn call<R>(f: Job<R>) -> Result<R, String> {
    Ok(f())
}

fn attempt<R>(f: Fallible<R>) -> Result<R, String> {
    f()
}

#[test]
fn test_world_creation_and_run() {
    let mut world: World<(), Job<()>> = World::from(Box::new(|| {
        println!("World 1 executing synchronously!");
    }));
    assert_eq!(world.progress(), WorldStatus::Ready);
    let result = world.run(call);
    assert!(result.is_ok());
    assert_eq!(world.progress(), WorldStatus::Finished);

    let mut world_fail: World<(), Fallible<()>> = World::from(Box::new(|| {
        println!("World 2 executing synchronously and failing!");
        Err("Oops, something went wrong!".to_string())
    }));
    assert_eq!(world_fail.progress(), WorldStatus::Ready);
    let result_fail = world_fail.run(attempt);
    assert!(result_fail.is_err());
    assert!(matches!(world_fail.progress(), WorldStatus::Failed(_)));
}

#[test]
fn new_world_is_ready_and_holds_no_callable() {
    let mut world: World<(), Job<()>> = World::new();
    assert_eq!(world.progress(), WorldStatus::Ready);
    assert!(matches!(world.start(), Err(WorldError::NoCallable)));
    assert_eq!(world.progress(), WorldStatus::Ready);
    assert_eq!(world.status(), Some(Err(WorldError::NotRunning)));

    let mut other: World<(), Job<()>> = World::default();
    assert_eq!(other.progress(), WorldStatus::Ready);
    assert!(matches!(other.start(), Err(WorldError::NoCallable)));
}

#[test]
fn from_runs_nothing() {
    let calls = Rc::new(Cell::new(0));
    let seen = Rc::clone(&calls);
    let world: World<i32, Job<i32>> = World::from(Box::new(move || {
        seen.set(seen.get() + 1);
        42
    }));
    assert_eq!(world.progress(), WorldStatus::Ready);
    assert_eq!(calls.get(), 0);
}

#[test]
fn started_and_waited_yields_the_value() {
    let mut world: World<i32, Job<i32>> = World::from(Box::new(|| 100));
    let job = world.start().ok().unwrap();
    assert_eq!(world.progress(), WorldStatus::Running);
    assert_eq!(world.status(), None);
    world.finish(job());
    assert_eq!(world.progress(), WorldStatus::Finished);
    assert_eq!(world.status(), Some(Ok(100)));
    assert_eq!(world.progress(), WorldStatus::Finished);
}

#[test]
fn second_wait_reports_result_already_retrieved() {
    let mut world: World<i32, Job<i32>> = World::from(Box::new(|| 7));
    let job = world.start().ok().unwrap();
    world.finish(job());
    assert_eq!(world.status(), Some(Ok(7)));
    assert_eq!(world.status(), Some(Err(WorldError::ResultAlreadyRetrieved)));
    assert_eq!(world.status(), Some(Err(WorldError::ResultAlreadyRetrieved)));
    assert_eq!(world.progress(), WorldStatus::Finished);
}

#[test]
fn fault_is_kept_as_failed_with_its_diagnostic() {
    let mut world: World<i32, Fallible<i32>> =
        World::from(Box::new(|| Err("task went boom".to_string())));
    let job = world.start().ok().unwrap();
    match job() {
        Ok(value) => world.finish(value),
        Err(reason) => world.fail(reason),
    }
    match world.status() {
        Some(Err(WorldError::Failed(diagnostic))) => assert!(diagnostic.contains("boom")),
        other => panic!("unexpected wait result: {:?}", other),
    }
    assert_eq!(world.progress(), WorldStatus::Failed("task went boom".to_string()));
    assert_eq!(
        world.status(),
        Some(Err(WorldError::Failed("task went boom".to_string())))
    );
}

#[test]
fn second_start_is_refused_and_the_callable_runs_once() {
    let counter = Rc::new(Cell::new(0));
    let seen = Rc::clone(&counter);
    let mut world: World<(), Job<()>> = World::from(Box::new(move || {
        seen.set(seen.get() + 1);
    }));
    let first = world.start();
    let second = world.start();
    assert!(first.is_ok());
    assert!(matches!(second, Err(WorldError::AlreadyRunning)));
    assert_eq!(world.progress(), WorldStatus::Running);
    let job = first.ok().unwrap();
    world.finish(job());
    assert!(matches!(world.start(), Err(WorldError::AlreadyCompleted)));
    assert_eq!(world.status(), Some(Ok(())));
    assert_eq!(counter.get(), 1);
}

#[test]
fn completed_worlds_are_not_restarted() {
    let mut done: World<i32, Job<i32>> = World::from(Box::new(|| 1));
    let job = done.start().ok().unwrap();
    done.finish(job());
    assert!(matches!(done.start(), Err(WorldError::AlreadyCompleted)));
    assert_eq!(done.progress(), WorldStatus::Finished);
    assert_eq!(done.status(), Some(Ok(1)));

    let mut broken: World<i32, Job<i32>> = World::from(Box::new(|| 1));
    let _ = broken.start();
    broken.fail("bad".to_string());
    assert!(matches!(broken.start(), Err(WorldError::AlreadyCompleted)));
    assert_eq!(broken.progress(), WorldStatus::Failed("bad".to_string()));
}

#[test]
fn stop_is_immediate_and_only_a_signal() {
    let counter = Rc::new(Cell::new(0));
    let seen = Rc::clone(&counter);
    let mut world: World<i32, Job<i32>> = World::from(Box::new(move || {
        for _ in 0..10 {
            seen.set(seen.get() + 1);
        }
        seen.get()
    }));
    let job = world.start().ok().unwrap();
    assert!(world.stop().is_ok());
    assert_eq!(world.progress(), WorldStatus::Stopped);
    assert_eq!(counter.get(), 0);

    let value = job();
    assert_eq!(counter.get(), 10);
    world.finish(value);
    assert_eq!(world.progress(), WorldStatus::Stopped);
    assert_eq!(world.status(), Some(Err(WorldError::Stopped)));
    assert!(matches!(world.start(), Err(WorldError::NoCallable)));
    assert!(matches!(world.stop(), Err(WorldError::NotRunning)));
}

#[test]
fn fault_after_stop_is_dropped() {
    let mut world: World<i32, Job<i32>> = World::from(Box::new(|| 1));
    let _ = world.start();
    assert!(world.stop().is_ok());
    world.fail("late".to_string());
    assert_eq!(world.progress(), WorldStatus::Stopped);
    assert_eq!(world.status(), Some(Err(WorldError::Stopped)));
}

#[test]
fn stop_needs_a_running_world() {
    let mut ready: World<i32, Job<i32>> = World::from(Box::new(|| 1));
    assert!(matches!(ready.stop(), Err(WorldError::NotRunning)));
    assert_eq!(ready.progress(), WorldStatus::Ready);
    assert!(ready.start().is_ok());

    let mut done: World<i32, Job<i32>> = World::from(Box::new(|| 1));
    let job = done.start().ok().unwrap();
    done.finish(job());
    assert!(matches!(done.stop(), Err(WorldError::NotRunning)));
    assert_eq!(done.progress(), WorldStatus::Finished);
    assert_eq!(done.status(), Some(Ok(1)));
}

#[test]
fn reports_on_a_world_that_is_not_running_are_dropped() {
    let mut world: World<i32, Job<i32>> = World::from(Box::new(|| 1));
    world.finish(5);
    world.fail("early".to_string());
    assert_eq!(world.progress(), WorldStatus::Ready);
    assert_eq!(world.status(), Some(Err(WorldError::NotRunning)));
    let job = world.start().ok().unwrap();
    world.finish(job());
    world.finish(9);
    world.fail("late".to_string());
    assert_eq!(world.progress(), WorldStatus::Finished);
    assert_eq!(world.status(), Some(Ok(1)));
}

#[test]
fn run_is_start_then_wait() {
    let mut world: World<i32, Job<i32>> = World::from(Box::new(|| 123));
    assert_eq!(world.run(call), Ok(123));
    assert_eq!(world.progress(), WorldStatus::Finished);
    assert_eq!(world.status(), Some(Err(WorldError::ResultAlreadyRetrieved)));

    let mut failing: World<i32, Fallible<i32>> =
        World::from(Box::new(|| Err("Oops!".to_string())));
    assert_eq!(failing.run(attempt), Err(WorldError::Failed("Oops!".to_string())));
    assert_eq!(failing.progress(), WorldStatus::Failed("Oops!".to_string()));
}

#[test]
fn run_reports_a_refused_start_without_running_anything() {
    let called = Rc::new(Cell::new(false));
    let seen = Rc::clone(&called);
    let mut empty: World<i32, Job<i32>> = World::new();
    let ran = empty.run(move |f: Job<i32>| {
        seen.set(true);
        Ok(f())
    });
    assert_eq!(ran, Err(WorldError::NoCallable));
    assert!(!called.get());

    let mut world: World<i32, Job<i32>> = World::from(Box::new(|| 1));
    let _ = world.start();
    assert_eq!(world.run(call), Err(WorldError::AlreadyRunning));
    assert_eq!(world.progress(), WorldStatus::Running);
    world.finish(3);
    assert_eq!(world.run(call), Err(WorldError::AlreadyCompleted));
    assert_eq!(world.status(), Some(Ok(3)));
}

#[test]
fn recover_maps_a_missing_value_to_type_mismatch() {
    assert_eq!(recover(Some(5)), Ok(5));
    assert_eq!(recover::<i32>(None), Err(WorldError::TypeMismatch));
}

#[test]
fn typed_wait_on_a_single_world() {
    let as_even = |n: i32| if n % 2 == 0 { Some(n / 2) } else { None };
    let mut even: World<i32, Job<i32>> = World::from(Box::new(|| 10));
    assert_eq!(even.status_as(as_even), Some(Err(WorldError::NotRunning)));
    let job = even.start().ok().unwrap();
    assert_eq!(even.status_as(as_even), None);
    even.finish(job());
    assert_eq!(even.status_as(as_even), Some(Ok(5)));
    assert_eq!(even.status_as(as_even), Some(Err(WorldError::ResultAlreadyRetrieved)));

    let mut odd: World<i32, Job<i32>> = World::from(Box::new(|| 11));
    let job = odd.start().ok().unwrap();
    odd.finish(job());
    assert_eq!(odd.status_as(as_even), Some(Err(WorldError::TypeMismatch)));
    assert_eq!(odd.status(), Some(Err(WorldError::ResultAlreadyRetrieved)));
}

fn drive<W: AnyWorld>(world: &mut W) -> (WorldStatus, bool, WorldStatus) {
    let before = world.any_progress();
    let started = world.any_start().is_ok();
    (before, started, world.any_progress())
}

#[test]
fn worlds_with_different_results_share_one_interface() {
    let mut number: World<i32, Job<i32>> = World::from(Box::new(|| 1));
    let mut text: World<String, Job<String>> = World::from(Box::new(|| "one".to_string()));
    assert_eq!(drive(&mut number), (WorldStatus::Ready, true, WorldStatus::Running));
    assert_eq!(drive(&mut text), (WorldStatus::Ready, true, WorldStatus::Running));
    assert_eq!(drive(&mut text), (WorldStatus::Running, false, WorldStatus::Running));
    assert_eq!(number.any_status(), None);
    number.finish(1);
    assert_eq!(number.any_status(), Some(Ok(1)));
    assert!(text.any_stop().is_ok());
    assert!(matches!(text.any_stop(), Err(WorldError::NotRunning)));
    assert_eq!(text.any_status(), Some(Err(WorldError::Stopped)));
}
