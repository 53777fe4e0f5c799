//! Whole-pass tests: arrival-order delivery, drain, redelivery after
//! rollback or disconnect, and the concrete three-payload scenario.

use ackqueue::drain::run_pass;
use ackqueue::drain::Response;
use ackqueue::Consumer;
use ackqueue::LoopState;
use ackqueue::Queue;

#[test]
fn cooperative_consumer_receives_all_in_arrival_order() {
    let mut q = Queue::new();
    q.ingest(b"first".to_vec());
    q.ingest(b"second".to_vec());
    q.ingest(b"third".to_vec());
    let mut c = Consumer::connect();
    let rs = vec![Response::Ack, Response::Ack, Response::Ack];
    let delivered = run_pass(&mut q, &mut c, &rs);
    assert_eq!(
        delivered,
        vec![b"first".to_vec(), b"second".to_vec(), b"third".to_vec()]
    );
    // a fully acknowledged drain empties the store and keeps the loop alive
    assert_eq!(q.pending_count(), 0);
    assert!(matches!(c.state, LoopState::Scanning));
}

#[test]
fn empty_payload_is_delivered_byte_exact() {
    let mut q = Queue::new();
    q.ingest(Vec::new());
    let mut c = Consumer::connect();
    let delivered = run_pass(&mut q, &mut c, &vec![Response::Ack]);
    assert_eq!(delivered, vec![Vec::<u8>::new()]);
    assert_eq!(q.pending_count(), 0);
}

#[test]
fn empty_store_pass_delivers_nothing() {
    let mut q = Queue::new();
    let mut c = Consumer::connect();
    let delivered = run_pass(&mut q, &mut c, &Vec::new());
    assert!(delivered.is_empty());
    assert!(matches!(c.state, LoopState::Scanning));
}

#[test]
fn disconnect_preserves_unacknowledged_tail_for_redelivery() {
    let mut q = Queue::new();
    q.ingest(b"a".to_vec());
    q.ingest(b"b".to_vec());
    let mut c = Consumer::connect();
    // the consumer receives "b" but disconnects before acknowledging it
    let rs = vec![Response::Ack, Response::Disconnect];
    let delivered = run_pass(&mut q, &mut c, &rs);
    assert_eq!(delivered, vec![b"a".to_vec(), b"b".to_vec()]);
    assert!(matches!(c.state, LoopState::Terminated));
    // "b" is still stored; the acknowledged "a" is not redelivered
    assert_eq!(q.pending_count(), 1);
    let mut c2 = Consumer::connect();
    let redelivered = run_pass(&mut q, &mut c2, &vec![Response::Ack]);
    assert_eq!(redelivered, vec![b"b".to_vec()]);
    assert_eq!(q.pending_count(), 0);
}

#[test]
fn nack_rolls_back_one_entry_and_the_pass_continues() {
    let mut q = Queue::new();
    q.ingest(b"a".to_vec());
    q.ingest(b"b".to_vec());
    let mut c = Consumer::connect();
    // "a" is refused; the loop does not terminate and still offers "b"
    let rs = vec![Response::Nack, Response::Ack];
    let delivered = run_pass(&mut q, &mut c, &rs);
    assert_eq!(delivered, vec![b"a".to_vec(), b"b".to_vec()]);
    assert!(matches!(c.state, LoopState::Scanning));
    // "a" was rolled back and is redelivered on the next pass
    assert_eq!(q.pending_count(), 1);
    // the wake from the ingests is still pending, so the pass ends in an
    // immediate rescan from the start
    assert!(c.end_pass(&mut q));
    let redelivered = run_pass(&mut q, &mut c, &vec![Response::Ack]);
    assert_eq!(redelivered, vec![b"a".to_vec()]);
    assert_eq!(q.pending_count(), 0);
}

#[test]
fn send_failure_delivers_nothing_and_preserves_the_store() {
    let mut q = Queue::new();
    q.ingest(b"a".to_vec());
    q.ingest(b"b".to_vec());
    let mut c = Consumer::connect();
    let delivered = run_pass(&mut q, &mut c, &vec![Response::SendFail, Response::Ack]);
    assert!(delivered.is_empty());
    assert_eq!(q.pending_count(), 2);
    assert!(matches!(c.state, LoopState::Terminated));
}

#[test]
fn ingest_with_no_consumer_is_delivered_on_first_scan() {
    let mut q = Queue::new();
    q.ingest(b"parked".to_vec());
    // a consumer connects only afterwards
    let mut c = Consumer::connect();
    let delivered = run_pass(&mut q, &mut c, &vec![Response::Ack]);
    assert_eq!(delivered, vec![b"parked".to_vec()]);
    assert_eq!(q.pending_count(), 0);
}

#[test]
fn back_to_back_ingests_are_delivered_in_order_without_lost_wake() {
    let mut q = Queue::new();
    let mut c = Consumer::connect();
    // both arrive before the consumer's next scan
    q.ingest(b"one".to_vec());
    q.ingest(b"two".to_vec());
    let delivered = run_pass(&mut q, &mut c, &vec![Response::Ack, Response::Ack]);
    assert_eq!(delivered, vec![b"one".to_vec(), b"two".to_vec()]);
    // the triggers fired mid-cycle still make end_pass rescan promptly
    assert!(c.end_pass(&mut q));
    assert!(matches!(c.state, LoopState::Scanning));
}

#[test]
fn scenario_a_b_then_c_after_idle() {
    let mut q = Queue::new();
    q.ingest(b"a".to_vec());
    q.ingest(b"b".to_vec());
    let mut c = Consumer::connect();
    // the consumer receives "a" then "b", acknowledging each
    let delivered = run_pass(&mut q, &mut c, &vec![Response::Ack, Response::Ack]);
    assert_eq!(delivered, vec![b"a".to_vec(), b"b".to_vec()]);
    // the wake from the earlier ingests forces one more (empty) rescan
    assert!(c.end_pass(&mut q));
    let delivered = run_pass(&mut q, &mut c, &Vec::new());
    assert!(delivered.is_empty());
    // now nothing is pending: the loop blocks on the signal
    assert!(!c.end_pass(&mut q));
    assert!(matches!(c.state, LoopState::IdleWait));
    // a third ingest arrives and wakes the loop, which delivers it
    q.ingest(b"c".to_vec());
    assert!(q.wake_pending);
    c.on_signal(&mut q);
    let delivered = run_pass(&mut q, &mut c, &vec![Response::Ack]);
    assert_eq!(delivered, vec![b"c".to_vec()]);
    assert_eq!(q.pending_count(), 0);
}
