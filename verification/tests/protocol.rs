//! Step-level tests of the delivery protocol: claiming, acknowledgment
//! matching, rollback, termination, and the wake-up signal.

use ackqueue::delivery::is_ack_token;
use ackqueue::AckEvent;
use ackqueue::Consumer;
use ackqueue::LoopState;
use ackqueue::Queue;

#[test]
fn ack_token_is_exact_and_case_sensitive() {
    assert!(is_ack_token(&b"ACK".to_vec()));
    assert!(!is_ack_token(&b"ack".to_vec()));
    assert!(!is_ack_token(&b"NACK".to_vec()));
    assert!(!is_ack_token(&b"ACKX".to_vec()));
    assert!(!is_ack_token(&b"AC".to_vec()));
    assert!(!is_ack_token(&b"".to_vec()));
}

#[test]
fn ingest_assigns_monotone_ids_and_triggers_wake() {
    let mut q = Queue::new();
    assert_eq!(q.pending_count(), 0);
    assert!(!q.wake_pending);
    let a = q.ingest(b"one".to_vec());
    let b = q.ingest(b"two".to_vec());
    let c = q.ingest(b"three".to_vec());
    assert!(a < b && b < c);
    assert_eq!(q.pending_count(), 3);
    assert!(q.wake_pending);
}

#[test]
fn take_wake_coalesces_triggers() {
    let mut q = Queue::new();
    q.ingest(b"x".to_vec());
    q.ingest(b"y".to_vec());
    // two triggers coalesce into a single pending wake
    assert!(q.take_wake());
    assert!(!q.take_wake());
}

#[test]
fn stepwise_claim_ack_commit() {
    let mut q = Queue::new();
    q.ingest(b"a".to_vec());
    q.ingest(b"b".to_vec());
    let mut c = Consumer::connect();

    let e1 = c.poll_next(&q).expect("first entry");
    assert_eq!(e1.payload, b"a".to_vec());
    assert!(matches!(c.state, LoopState::AwaitingAck));
    c.on_send_result(true);
    let committed = c.on_ack_event(&mut q, AckEvent::Message(b"ACK".to_vec()));
    assert!(committed);
    assert_eq!(q.pending_count(), 1);
    assert!(matches!(c.state, LoopState::Scanning));

    let e2 = c.poll_next(&q).expect("second entry");
    assert_eq!(e2.payload, b"b".to_vec());
    c.on_send_result(true);
    assert!(c.on_ack_event(&mut q, AckEvent::Message(b"ACK".to_vec())));
    assert_eq!(q.pending_count(), 0);

    assert!(c.poll_next(&q).is_none());
}

#[test]
fn non_token_message_rolls_back_and_continues() {
    let mut q = Queue::new();
    q.ingest(b"a".to_vec());
    q.ingest(b"b".to_vec());
    let mut c = Consumer::connect();

    let e1 = c.poll_next(&q).expect("first entry");
    assert_eq!(e1.payload, b"a".to_vec());
    c.on_send_result(true);
    let committed = c.on_ack_event(&mut q, AckEvent::Message(b"nope".to_vec()));
    assert!(!committed);
    // the entry is preserved and the loop keeps scanning
    assert_eq!(q.pending_count(), 2);
    assert!(matches!(c.state, LoopState::Scanning));

    // the same pass moves on to the next entry, not back to the first
    let e2 = c.poll_next(&q).expect("second entry");
    assert_eq!(e2.payload, b"b".to_vec());
}

#[test]
fn malformed_message_rolls_back_and_continues() {
    let mut q = Queue::new();
    q.ingest(b"a".to_vec());
    let mut c = Consumer::connect();
    c.poll_next(&q).expect("entry");
    c.on_send_result(true);
    assert!(!c.on_ack_event(&mut q, AckEvent::Malformed));
    assert_eq!(q.pending_count(), 1);
    assert!(matches!(c.state, LoopState::Scanning));
}

#[test]
fn closed_connection_rolls_back_and_terminates() {
    let mut q = Queue::new();
    q.ingest(b"a".to_vec());
    let mut c = Consumer::connect();
    c.poll_next(&q).expect("entry");
    c.on_send_result(true);
    assert!(!c.on_ack_event(&mut q, AckEvent::Closed));
    assert_eq!(q.pending_count(), 1);
    assert!(matches!(c.state, LoopState::Terminated));
}

#[test]
fn send_failure_rolls_back_and_terminates() {
    let mut q = Queue::new();
    q.ingest(b"a".to_vec());
    let mut c = Consumer::connect();
    c.poll_next(&q).expect("entry");
    c.on_send_result(false);
    assert_eq!(q.pending_count(), 1);
    assert!(matches!(c.state, LoopState::Terminated));
}

#[test]
fn end_pass_consumes_pending_wake_and_rescans() {
    let mut q = Queue::new();
    let mut c = Consumer::connect();
    // a trigger fired mid-scan must not be lost: end_pass rescans at once
    q.ingest(b"late".to_vec());
    let rescan = c.end_pass(&mut q);
    assert!(rescan);
    assert!(matches!(c.state, LoopState::Scanning));
    assert!(!q.wake_pending);
}

#[test]
fn end_pass_without_trigger_goes_idle_until_signal() {
    let mut q = Queue::new();
    let mut c = Consumer::connect();
    let rescan = c.end_pass(&mut q);
    assert!(!rescan);
    assert!(matches!(c.state, LoopState::IdleWait));
    // an ingest while idle fires the signal; waking resumes scanning
    q.ingest(b"new".to_vec());
    assert!(q.wake_pending);
    c.on_signal(&mut q);
    assert!(matches!(c.state, LoopState::Scanning));
    let e = c.poll_next(&q).expect("the new entry");
    assert_eq!(e.payload, b"new".to_vec());
}
