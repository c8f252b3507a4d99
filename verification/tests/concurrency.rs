use rust_labs::barrier::CyclicBarrier;
use rust_labs::bounded_queue::CircularBuffer;
use rust_labs::cancellable_latch::{CancellableLatch, WaitResult};
use rust_labs::countdown_lock::CountDownLock;
use rust_labs::delayed_executor::DelayedExecutor;
use rust_labs::delayed_queue::DelayedQueue;
use rust_labs::exchange::Exchange;
use rust_labs::executor::SingleThreadExecutor;
use rust_labs::latch::{CountDownLatch, LatchError};
use rust_labs::looper::{looper_step, LooperStep, Message};
use rust_labs::mpmc::MpMcChannel;
use rust_labs::prod_cons::Buffer;

#[test]
fn test_submit_after_close_fails() {
    let mut executor: SingleThreadExecutor<fn()> = SingleThreadExecutor::new();
    executor.close();
    fn task() {
        println!("non dovrebbe eseguire");
    }
    let res = executor.submit(task);
    assert!(res.is_err());
}

#[test]
fn executor_runs_tasks_in_order_and_reports_closed() {
    let mut executor: SingleThreadExecutor<u32> = SingleThreadExecutor::new();
    assert!(executor.submit(1).is_ok());
    assert!(executor.submit(2).is_ok());
    executor.close();
    assert_eq!(executor.submit(3), Err("Executor is closed".to_string()));
    assert_eq!(executor.next_task(), Some(1));
    assert_eq!(executor.next_task(), Some(2));
    assert_eq!(executor.next_task(), None);
}

#[test]
fn test_basic_send_recv() {
    let mut channel = MpMcChannel::new(3);

    assert_eq!(channel.send(1), Some(()));
    assert_eq!(channel.send(2), Some(()));
    assert_eq!(channel.send(3), Some(()));

    assert_eq!(channel.recv(), Some(1));
    assert_eq!(channel.recv(), Some(2));
    assert_eq!(channel.recv(), Some(3));
}

#[test]
fn test_shutdown_behavior() {
    let mut channel = MpMcChannel::new(3);

    assert_eq!(channel.send(1), Some(()));
    assert_eq!(channel.send(2), Some(()));

    assert_eq!(channel.shutdown(), Some(()));

    assert_eq!(channel.send(3), None);

    assert_eq!(channel.recv(), Some(1));
    assert_eq!(channel.recv(), Some(2));

    assert_eq!(channel.recv(), None);
}

#[test]
fn channel_full_and_empty_states() {
    let mut channel = MpMcChannel::new(2);
    assert!(channel.is_empty());
    assert!(!channel.can_recv());
    channel.send('a');
    channel.send('b');
    assert!(channel.is_full());
    assert!(!channel.can_send());
    assert_eq!(channel.recv(), Some('a'));
    assert!(channel.can_send());
}

#[test]
fn an_empty_queue_returns_none() {
    let q = DelayedQueue::<i32>::new();
    assert_eq!(q.size(), 0);
}

#[test]
fn items_are_returned_in_order() {
    let mut q = DelayedQueue::<i32>::new();
    let now: u64 = 0;
    q.offer(1500, now + 10);
    q.offer(500, now + 5);

    assert_eq!(q.take(now + 11), Some(500));
    assert_eq!(q.take(now + 11), Some(1500));
    assert_eq!(q.take(now + 11), None);
}

#[test]
fn delayed_queue_due_only_after_deadline() {
    let mut q = DelayedQueue::<&str>::new();
    q.offer("late", 20);
    q.offer("early", 10);
    q.offer("early too", 10);
    assert!(!q.is_due(5));
    assert!(q.is_due(11));
    assert_eq!(q.take(11), Some("early"));
    assert_eq!(q.take(11), Some("early too"));
    assert_eq!(q.size(), 1);
}

#[test]
fn exchange_swaps_values() {
    let mut e: Exchange<i32> = Exchange::new();
    assert!(e.can_offer());
    assert_eq!(e.exchange(1), None);
    assert!(!e.is_ready());
    assert_eq!(e.exchange(2), Some(1));
    assert!(e.is_ready());
    assert!(!e.can_offer());
    assert_eq!(e.collect(), 2);
    assert!(!e.is_ready());
    assert!(e.can_offer());
}

#[test]
fn producer_consumer_buffer_rules() {
    let mut b: Buffer<i32, String> = Buffer::new();
    b.next(1);
    b.next(2);
    b.terminate();
    assert_eq!(b.consume(), Ok(Some(1)));
    assert_eq!(b.consume(), Ok(Some(2)));
    assert_eq!(b.consume(), Ok(None));

    let mut f: Buffer<i32, String> = Buffer::new();
    f.next(7);
    f.fail("boom".to_string());
    assert_eq!(f.consume(), Ok(Some(7)));
    assert_eq!(f.consume(), Err("boom".to_string()));
}

#[test]
fn bounded_queue_timed_operations() {
    let mut q: CircularBuffer<i32> = CircularBuffer::new(1);
    assert!(q.can_insert());
    q.insert(5);
    assert!(!q.can_insert());
    assert_eq!(q.try_insert_for(6, false), Err(6));
    assert_eq!(q.try_insert_for(6, true), Ok(false));
    assert_eq!(q.extract(), 5);
    assert_eq!(q.try_insert_for(6, false), Ok(true));
    assert_eq!(q.try_extract_for(false), Some((Some(6), true)));
    assert_eq!(q.try_extract_for(false), None);
    assert_eq!(q.try_extract_for(true), Some((None, false)));
}

#[test]
fn cancellable_latch_outcomes() {
    let mut l = CancellableLatch::new(2);
    assert_eq!(l.wait_timeout(true), Some(WaitResult::Timeout));
    assert!(!l.count_down());
    assert!(l.count_down());
    assert_eq!(l.wait(), Some(WaitResult::Success));

    let mut c = CancellableLatch::new(3);
    c.cancel();
    assert_eq!(c.wait(), Some(WaitResult::Cancelled));
}

#[test]
fn countdown_lock_opens_at_zero() {
    let mut l = CountDownLock::new(2);
    assert!(!l.wait());
    assert!(!l.count_down());
    assert!(!l.count_down());
    assert!(l.wait());
    assert!(l.count_down());
}

#[test]
fn countdown_latch_timeout_error() {
    let mut l = CountDownLatch::new(1);
    match l.wait_zero(true) {
        Some(Err(LatchError::Error(m))) => assert_eq!(m, "Timed out"),
        _ => panic!("expected a timeout error"),
    }
    assert!(matches!(l.wait_zero(false), None));
    assert!(!l.count_down());
    assert!(matches!(l.wait_zero(false), Some(Ok(()))));
}

#[test]
fn cyclic_barrier_round() {
    let mut b = CyclicBarrier::new(2);
    assert!(b.outer_is_open());
    assert!(!b.enter());
    assert!(b.enter());
    assert!(b.inner_is_open());
    assert!(!b.leave());
    assert!(b.leave());
    assert!(b.outer_is_open());
}

#[test]
fn delayed_executor_orders_by_deadline() {
    let mut e: DelayedExecutor<u32> = DelayedExecutor::new();
    assert!(e.execute(2, 20));
    assert!(e.execute(1, 10));
    e.close(false);
    assert!(!e.execute(3, 5));
    assert!(!e.worker_should_exit());
    assert_eq!(e.next_deadline(), Some(10));
    assert!(e.worker_must_wait(5));
    assert!(e.worker_must_wait(10));
    assert!(!e.worker_must_wait(11));
    assert_eq!(e.worker_take(11), 1);
    assert!(e.worker_must_wait(15));
    assert_eq!(e.worker_take(21), 2);
    assert!(e.worker_should_exit());
}

#[test]
fn delayed_executor_drops_pending_jobs() {
    let mut e: DelayedExecutor<u32> = DelayedExecutor::new();
    assert!(e.execute(7, 1_000_000));
    assert!(e.worker_must_wait(0));
    e.close(true);
    assert!(!e.worker_must_wait(0));
    assert!(e.worker_should_exit());
    assert_eq!(e.pending(), 0);
}

#[test]
fn looper_processes_then_cleans_up() {
    match looper_step(Some(Message::Msg("hi".to_string()))) {
        LooperStep::Process(Message::Msg(s)) => assert_eq!(s, "hi"),
        _ => panic!("expected the message to be processed"),
    }
    assert!(matches!(looper_step(None), LooperStep::CleanUpAndStop));
}
