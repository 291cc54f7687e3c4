use coroutine_core::RuntimeError;
use coroutine_core::event_loop::EventLoop;
use coroutine_core::join::JoinHandle;
use coroutine_core::pool::EventLoops;
use coroutine_core::scheduler::Computation;

#[test]
fn join_test() {
    let mut event_loop = EventLoop::new().unwrap();
    let handle1 = event_loop
        .submit(Computation::Finish(3), None)
        .expect("submit failed !");
    let handle2 = event_loop
        .submit(Computation::Finish(4), None)
        .expect("submit failed !");
    assert_eq!(handle1.join(&mut event_loop).unwrap().unwrap(), 3);
    assert_eq!(handle2.join(&mut event_loop).unwrap().unwrap(), 4);
}

#[test]
fn timed_join_test() {
    let mut event_loop = EventLoop::new().unwrap();
    let handle = event_loop
        .submit(Computation::Finish(5), None)
        .expect("submit failed !");
    let error = handle.timeout_join(&mut event_loop, 0).unwrap_err();
    assert_eq!(error, RuntimeError::TimedOut);
    assert_eq!(
        handle
            .timeout_join(&mut event_loop, 1_000_000_000)
            .unwrap()
            .unwrap(),
        5
    );
}

#[test]
fn submit_and_join() {
    let mut event_loop = EventLoop::new().unwrap();
    let handle = event_loop.submit(Computation::Finish(3), None).unwrap();
    assert_eq!(handle.join(&mut event_loop).unwrap(), Some(3));
}

#[test]
fn join_twice_sees_same_result() {
    let mut event_loop = EventLoop::new().unwrap();
    let handle = event_loop.submit(Computation::Finish(3), None).unwrap();
    assert_eq!(handle.join(&mut event_loop).unwrap(), Some(3));
    assert_eq!(handle.join(&mut event_loop).unwrap(), Some(3));
}

#[test]
fn sentinel_handle_joins_empty() {
    let mut event_loop = EventLoop::new().unwrap();
    let handle = JoinHandle::error();
    assert_eq!(handle.join(&mut event_loop).unwrap(), None);
    assert_eq!(handle.timeout_join(&mut event_loop, 0).unwrap(), None);
}

#[test]
fn narrowing() {
    let mut event_loop = EventLoop::new().unwrap();
    event_loop.add_read_event(7).unwrap();
    event_loop.add_write_event(7).unwrap();
    event_loop.del_read_event(7).unwrap();
    assert!(!event_loop.readable_registered(7));
    assert!(event_loop.writable_registered(7));
    assert_eq!(event_loop.selector_read_token(7), None);
    assert_eq!(event_loop.selector_write_token(7), Some(0));
}

#[test]
fn narrowing_preserves_write_token() {
    let mut event_loop = EventLoop::new().unwrap();
    let h_read = event_loop
        .submit(Computation::AwaitRead(9, 1), None)
        .unwrap();
    let h_write = event_loop
        .submit(Computation::AwaitWrite(9, 2), None)
        .unwrap();
    assert_eq!(h_read.co_name(), 1);
    assert_eq!(h_write.co_name(), 2);
    // One wait runs both computations: each registers its interest under
    // its own name as the token and suspends.
    event_loop.wait_event(Some(0)).unwrap();
    assert_eq!(event_loop.selector_read_token(9), Some(1));
    assert_eq!(event_loop.selector_write_token(9), Some(2));
    event_loop.del_read_event(9).unwrap();
    assert!(!event_loop.readable_registered(9));
    assert!(event_loop.writable_registered(9));
    assert_eq!(event_loop.selector_read_token(9), None);
    assert_eq!(event_loop.selector_write_token(9), Some(2));
}

#[test]
fn add_read_is_idempotent() {
    let mut event_loop = EventLoop::new().unwrap();
    event_loop.add_read_event(7).unwrap();
    event_loop.add_read_event(7).unwrap();
    assert!(event_loop.readable_registered(7));
    assert_eq!(event_loop.selector_read_token(7), Some(0));
}

#[test]
fn first_registration_wins() {
    let mut event_loop = EventLoop::new().unwrap();
    let handle = event_loop
        .submit(Computation::AwaitRead(9, 5), None)
        .unwrap();
    assert_eq!(handle.co_name(), 1);
    event_loop.wait_event(Some(0)).unwrap();
    assert_eq!(event_loop.selector_read_token(9), Some(1));
    // A later registration for the same descriptor is a no-op: the stored
    // token stays the first one.
    event_loop.add_read_event(9).unwrap();
    assert_eq!(event_loop.selector_read_token(9), Some(1));
}

#[test]
fn await_read_completes_on_readiness() {
    let mut event_loop = EventLoop::new().unwrap();
    let handle = event_loop
        .submit(Computation::AwaitRead(5, 42), None)
        .unwrap();
    // First wait schedules the computation: it registers and suspends.
    event_loop.wait_event(Some(0)).unwrap();
    assert!(event_loop.readable_registered(5));
    assert_eq!(event_loop.get_result(handle.co_name()), None);
    // The host reports readiness; the next wait delivers the event, removes
    // the one-shot registration and resumes the computation by its token.
    event_loop.notify_readable(5);
    event_loop.wait_event(Some(0)).unwrap();
    assert!(!event_loop.readable_registered(5));
    assert_eq!(
        handle
            .timeout_join(&mut event_loop, 1_000_000_000)
            .unwrap(),
        Some(42)
    );
}

#[test]
fn join_awaits_queued_readiness() {
    let mut event_loop = EventLoop::new().unwrap();
    let handle = event_loop
        .submit(Computation::AwaitRead(5, 42), None)
        .unwrap();
    event_loop.wait_event(Some(0)).unwrap();
    event_loop.notify_readable(5);
    // The computation is suspended and its readiness is queued: the
    // unbounded join delivers the report, resumes it and returns.
    assert_eq!(handle.join(&mut event_loop).unwrap(), Some(42));
}

#[test]
fn await_without_readiness_times_out() {
    let mut event_loop = EventLoop::new().unwrap();
    let handle = event_loop
        .submit(Computation::AwaitRead(5, 42), None)
        .unwrap();
    let error = handle
        .timeout_join(&mut event_loop, 30_000_000)
        .unwrap_err();
    assert_eq!(error, RuntimeError::TimedOut);
    // The computation stays alive: readiness later still completes it.
    event_loop.notify_readable(5);
    assert_eq!(
        handle
            .timeout_join(&mut event_loop, 1_000_000_000)
            .unwrap(),
        Some(42)
    );
}

#[test]
fn idle_wait_consumes_the_budget() {
    let mut event_loop = EventLoop::new().unwrap();
    assert_eq!(event_loop.now(), 0);
    event_loop.wait_event(Some(5)).unwrap();
    assert_eq!(event_loop.now(), 5);
    event_loop.wait_just(Some(7)).unwrap();
    assert_eq!(event_loop.now(), 12);
}

#[test]
fn wait_read_event_registers_then_waits() {
    let mut event_loop = EventLoop::new().unwrap();
    event_loop.wait_read_event(3, Some(7)).unwrap();
    assert!(event_loop.readable_registered(3));
    assert_eq!(event_loop.now(), 7);
}

#[test]
fn try_timeout_schedule_drains_and_reports_budget() {
    let mut event_loop = EventLoop::new().unwrap();
    let handle = event_loop.submit(Computation::Finish(8), None).unwrap();
    let left = event_loop.try_timeout_schedule(100).unwrap();
    assert_eq!(left, 100);
    assert_eq!(event_loop.get_result(handle.co_name()), Some(8));
}

#[test]
fn pool_dispatch() {
    let mut pool = EventLoops::with_loop_count(3).unwrap();
    assert_eq!(pool.next(), 0);
    assert_eq!(pool.next(), 1);
    assert_eq!(pool.next(), 2);
    assert_eq!(pool.next(), 0);
}

#[test]
fn pool_index_increases_per_draw() {
    let mut pool = EventLoops::with_loop_count(2).unwrap();
    assert_eq!(pool.index(), 0);
    let first = pool.next();
    assert_eq!(pool.index(), 1);
    let second = pool.next();
    assert_eq!(pool.index(), 2);
    assert_ne!(first, second);
}

#[test]
fn pool_monitor_is_loop_zero() {
    let mut pool = EventLoops::with_loop_count(2).unwrap();
    assert_eq!(pool.monitor(), 0);
    assert_eq!(pool.monitor(), 0);
}

#[test]
fn pool_sized_to_cpus() {
    let pool = EventLoops::new().unwrap();
    assert!(pool.loop_count() >= 1);
    assert!(!pool.started());
}

#[test]
fn pool_submit_and_join() {
    let mut pool = EventLoops::with_loop_count(2).unwrap();
    let slot = pool.index() % pool.loop_count();
    let handle = pool.submit(Computation::Finish(9), None).unwrap();
    assert!(pool.started());
    assert_eq!(handle.join(pool.loop_mut(slot)).unwrap(), Some(9));
    pool.stop();
    assert!(!pool.started());
}

#[test]
fn pool_wait_event_consumes_budget_on_one_loop() {
    let mut pool = EventLoops::with_loop_count(2).unwrap();
    pool.wait_event(Some(25_000_000)).unwrap();
    assert_eq!(pool.index(), 1);
    assert_eq!(pool.loop_mut(0).now(), 25_000_000);
    assert_eq!(pool.loop_mut(1).now(), 0);
}

#[test]
fn pool_del_event_clears_every_loop() {
    let mut pool = EventLoops::with_loop_count(2).unwrap();
    pool.loop_mut(0).add_read_event(7).unwrap();
    pool.loop_mut(1).add_read_event(7).unwrap();
    pool.del_event(7);
    assert!(!pool.loop_mut(0).readable_registered(7));
    assert!(!pool.loop_mut(1).readable_registered(7));
}

#[test]
fn pool_del_read_event_narrows_every_loop() {
    let mut pool = EventLoops::with_loop_count(2).unwrap();
    pool.loop_mut(0).add_read_event(7).unwrap();
    pool.loop_mut(0).add_write_event(7).unwrap();
    pool.loop_mut(1).add_read_event(7).unwrap();
    pool.del_read_event(7);
    assert!(!pool.loop_mut(0).readable_registered(7));
    assert!(pool.loop_mut(0).writable_registered(7));
    assert!(!pool.loop_mut(1).readable_registered(7));
}

#[test]
fn pool_wait_read_event_registers_on_next_loop() {
    let mut pool = EventLoops::with_loop_count(2).unwrap();
    pool.wait_read_event(11, Some(5)).unwrap();
    assert!(pool.loop_mut(0).readable_registered(11));
    assert_eq!(pool.loop_mut(0).now(), 5);
}

#[test]
fn narrowing_write_side() {
    let mut event_loop = EventLoop::new().unwrap();
    event_loop.add_read_event(7).unwrap();
    event_loop.add_write_event(7).unwrap();
    event_loop.del_write_event(7).unwrap();
    assert!(event_loop.readable_registered(7));
    assert!(!event_loop.writable_registered(7));
    assert_eq!(event_loop.selector_read_token(7), Some(0));
    assert_eq!(event_loop.selector_write_token(7), None);
    // With only one interest left, deleting it removes the registration.
    event_loop.del_read_event(7).unwrap();
    assert!(!event_loop.readable_registered(7));
    assert_eq!(event_loop.selector_read_token(7), None);
}

#[test]
fn clock_saturates() {
    let mut event_loop = EventLoop::new().unwrap();
    event_loop.wait_event(Some(u64::MAX)).unwrap();
    assert_eq!(event_loop.now(), u64::MAX);
    event_loop.wait_event(Some(5)).unwrap();
    assert_eq!(event_loop.now(), u64::MAX);
}

#[test]
fn try_timeout_schedule_past_deadline() {
    let mut event_loop = EventLoop::new().unwrap();
    event_loop.wait_event(Some(50)).unwrap();
    assert_eq!(event_loop.try_timeout_schedule(20).unwrap(), 0);
}

#[test]
fn wait_write_event_registers_then_waits() {
    let mut event_loop = EventLoop::new().unwrap();
    event_loop.wait_write_event(4, Some(9)).unwrap();
    assert!(event_loop.writable_registered(4));
    assert_eq!(event_loop.now(), 9);
}

#[test]
fn await_write_completes_on_readiness() {
    let mut event_loop = EventLoop::new().unwrap();
    let handle = event_loop
        .submit(Computation::AwaitWrite(6, 11), None)
        .unwrap();
    event_loop.wait_event(Some(0)).unwrap();
    assert!(event_loop.writable_registered(6));
    event_loop.notify_writable(6);
    event_loop.wait_event(Some(0)).unwrap();
    assert!(!event_loop.writable_registered(6));
    assert_eq!(
        handle
            .timeout_join(&mut event_loop, 1_000_000_000)
            .unwrap(),
        Some(11)
    );
}

#[test]
fn loop_knows_submitted_names() {
    let mut event_loop = EventLoop::new().unwrap();
    assert!(event_loop.can_submit());
    let handle = event_loop.submit(Computation::Finish(1), None).unwrap();
    assert!(event_loop.knows_name(handle.co_name()));
    assert!(!event_loop.knows_name(77));
}
