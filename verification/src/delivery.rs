//! The transactional delivery loop, one per consumer connection.
//!
//! A `Consumer` scans the store in ascending identifier order, claims one
//! entry at a time by staging its deletion, hands the payload out for
//! transmission, and then commits the deletion exactly on receipt of the
//! acknowledgment token. Every other outcome rolls the staged deletion
//! back, so the entry keeps its identifier and therefore its position in
//! delivery order.

use vstd::prelude::*;

use crate::queue::Entry;
use crate::queue::Queue;
use crate::queue::copy_payload;

verus! {

/// The exact acknowledgment token a consumer must send to confirm receipt
/// of an entry, as a byte sequence ("ACK").
pub open spec fn ack_token() -> Seq<u8> {
    seq![65u8, 67u8, 75u8]
}

/// Case-sensitive exact match of a received message against the
/// acknowledgment token.
pub fn is_ack_token(msg: &Vec<u8>) -> (b: bool)
    ensures
        b == (msg@ == ack_token()),
{
    let r = msg.len() == 3 && msg[0] == 65 && msg[1] == 67 && msg[2] == 75;
    proof {
        if r {
            assert(msg@ =~= ack_token());
        }
        if msg@ == ack_token() {
            assert(msg@.len() == 3);
        }
    }
    r
}

/// The acknowledgment token as a concrete message.
pub fn ack_message() -> (v: Vec<u8>)
    ensures
        v@ == ack_token(),
{
    let mut v: Vec<u8> = Vec::new();
    v.push(65);
    v.push(67);
    v.push(75);
    proof {
        assert(v@ =~= ack_token());
    }
    v
}

/// The phases of one delivery loop.
pub enum LoopState {
    /// Walking the store in ascending identifier order.
    Scanning,
    /// A payload has been handed out; its entry's deletion is staged and
    /// the loop blocks until the consumer responds.
    AwaitingAck,
    /// The store held nothing new; the loop sleeps on the wake-up signal.
    IdleWait,
    /// The connection is gone; the loop has exited.
    Terminated,
}

/// What the consumer sent back while the loop awaited acknowledgment.
pub enum AckEvent {
    /// A message arrived; these are the bytes of its content.
    Message(Vec<u8>),
    /// A message arrived but could not be decoded.
    Malformed,
    /// The connection closed before any response.
    Closed,
}

/// Whether the event is a well-formed acknowledgment.
pub open spec fn event_is_ack(ev: AckEvent) -> bool {
    match ev {
        AckEvent::Message(m) => m@ == ack_token(),
        AckEvent::Malformed => false,
        AckEvent::Closed => false,
    }
}

/// Whether an entry lies strictly past the scan cursor.
pub open spec fn above(e: Entry, cursor: Option<u64>) -> bool {
    match cursor {
        None => true,
        Some(c) => e.id > c,
    }
}

/// Whether index `i` holds the first entry strictly past the cursor.
pub open spec fn is_next(s: Seq<Entry>, cursor: Option<u64>, i: int) -> bool {
    &&& 0 <= i < s.len()
    &&& above(s[i], cursor)
    &&& forall|j: int| 0 <= j < i ==> !above(s[j], cursor)
}

/// The per-connection delivery loop state.
pub struct Consumer {
    /// The current phase.
    pub state: LoopState,
    /// The identifier of the last entry claimed in this scan pass, if any;
    /// the next claim takes the first entry past it.
    pub cursor: Option<u64>,
    /// The identifier whose deletion is staged in the open transaction,
    /// present exactly while awaiting acknowledgment.
    pub staged: Option<u64>,
}

impl Consumer {
    /// The staged deletion always belongs to an entry that is still in the
    /// store, sits exactly at the cursor, and exists exactly while the loop
    /// awaits an acknowledgment.
    pub open spec fn inv(self, q: Queue) -> bool {
        &&& (self.state == LoopState::AwaitingAck <==> self.staged != None::<u64>)
        &&& match self.staged {
            Some(id) => self.cursor == Some(id) && exists|i: int|
                0 <= i < q.entries@.len() && q.entries@[i].id == id,
            None => true,
        }
    }

    /// A fresh delivery loop for a newly connected consumer: it starts
    /// scanning the store from its beginning.
    pub fn connect() -> (c: Consumer)
        ensures
            c.state == LoopState::Scanning,
            c.cursor == None::<u64>,
            c.staged == None::<u64>,
    {
        Consumer { state: LoopState::Scanning, cursor: None, staged: None }
    }

    /// One scanning step: claim the first pending entry past the cursor,
    /// stage its deletion, and hand back a copy for transmission. Returns
    /// nothing when the scan pass is exhausted.
    ///
    /// The store is read live, so an entry whose deletion another loop has
    /// already committed is simply no longer offered; a claim never lands
    /// on a vanished entry.
    pub fn poll_next(&mut self, q: &Queue) -> (r: Option<Entry>)
        requires
            q.wf(),
            old(self).inv(*q),
            old(self).state == LoopState::Scanning,
        ensures
            final(self).inv(*q),
            match r {
                Some(e) => {
                    &&& exists|i: int|
                        is_next(q.entries@, old(self).cursor, i) && e.id == q.entries@[i].id
                            && e.payload@ == q.entries@[i].payload@
                    &&& final(self).state == LoopState::AwaitingAck
                    &&& final(self).cursor == Some(e.id)
                    &&& final(self).staged == Some(e.id)
                },
                None => {
                    &&& forall|j: int|
                        0 <= j < q.entries@.len() ==> !above(q.entries@[j], old(self).cursor)
                    &&& *final(self) == *old(self)
                },
            },
    {
        match self.find_next(q) {
            Some(i) => {
                let id = q.entries[i].id;
                let payload = copy_payload(&q.entries[i].payload);
                self.cursor = Some(id);
                self.staged = Some(id);
                self.state = LoopState::AwaitingAck;
                Some(Entry { id, payload })
            },
            None => None,
        }
    }

    /// The index of the first entry past the cursor, if any.
    fn find_next(&self, q: &Queue) -> (r: Option<usize>)
        ensures
            match r {
                Some(i) => is_next(q.entries@, self.cursor, i as int),
                None => forall|j: int|
                    0 <= j < q.entries@.len() ==> !above(q.entries@[j], self.cursor),
            },
    {
        let mut i: usize = 0;
        let n = q.entries.len();
        while i < n
            invariant
                i <= n,
                n == q.entries@.len(),
                forall|j: int| 0 <= j < i ==> !above(q.entries@[j], self.cursor),
            decreases n - i,
        {
            let hit = match self.cursor {
                None => true,
                Some(c) => q.entries[i].id > c,
            };
            if hit {
                return Some(i);
            }
            i = i + 1;
        }
        None
    }

    /// Outcome of transmitting the claimed payload. A failed send rolls the
    /// staged deletion back and terminates the loop; the entry is preserved
    /// for redelivery.
    pub fn on_send_result(&mut self, ok: bool)
        requires
            old(self).state == LoopState::AwaitingAck,
        ensures
            ok ==> *final(self) == *old(self),
            !ok ==> final(self).state == LoopState::Terminated
                && final(self).staged == None::<u64> && final(self).cursor == old(self).cursor,
    {
        if !ok {
            self.staged = None;
            self.state = LoopState::Terminated;
        }
    }

    /// Resolve the acknowledgment wait for the staged entry: commit its
    /// deletion exactly on receipt of the acknowledgment token; on any
    /// other message roll back and keep scanning; on a closed connection
    /// roll back and terminate. A rolled-back entry keeps its identifier
    /// and position.
    pub fn on_ack_event(&mut self, q: &mut Queue, ev: AckEvent) -> (committed: bool)
        requires
            old(q).wf(),
            old(self).inv(*old(q)),
            old(self).state == LoopState::AwaitingAck,
        ensures
            final(q).wf(),
            final(self).inv(*final(q)),
            final(self).staged == None::<u64>,
            final(self).cursor == old(self).cursor,
            final(q).next_id == old(q).next_id,
            final(q).wake_pending == old(q).wake_pending,
            committed == event_is_ack(ev),
            committed ==> exists|i: int|
                0 <= i < old(q).entries@.len()
                    && Some(old(q).entries@[i].id) == old(self).staged
                    && final(q).entries@ == old(q).entries@.remove(i),
            !committed ==> final(q).entries@ == old(q).entries@,
            final(self).state == (match ev {
                AckEvent::Closed => LoopState::Terminated,
                _ => LoopState::Scanning,
            }),
    {
        let id = self.staged.unwrap();
        self.staged = None;
        match ev {
            AckEvent::Message(m) => {
                if is_ack_token(&m) {
                    q.commit_delete(id);
                    self.state = LoopState::Scanning;
                    true
                } else {
                    self.state = LoopState::Scanning;
                    false
                }
            },
            AckEvent::Malformed => {
                self.state = LoopState::Scanning;
                false
            },
            AckEvent::Closed => {
                self.state = LoopState::Terminated;
                false
            },
        }
    }

    /// Finish a scan pass: consume the wake-up signal. If a trigger fired
    /// at any point since the last consumption — even mid-scan — rescan
    /// immediately; otherwise go idle until the signal fires. A trigger is
    /// never lost.
    pub fn end_pass(&mut self, q: &mut Queue) -> (rescan: bool)
        requires
            old(self).state == LoopState::Scanning,
            old(self).staged == None::<u64>,
        ensures
            rescan == old(q).wake_pending,
            !final(q).wake_pending,
            final(q).entries@ == old(q).entries@,
            final(q).next_id == old(q).next_id,
            final(self).cursor == None::<u64>,
            final(self).staged == None::<u64>,
            final(self).state == (if rescan {
                LoopState::Scanning
            } else {
                LoopState::IdleWait
            }),
    {
        self.cursor = None;
        let rescan = q.take_wake();
        if !rescan {
            self.state = LoopState::IdleWait;
        }
        rescan
    }

    /// The wake-up signal fired while idle: consume it and rescan the
    /// store from its start.
    pub fn on_signal(&mut self, q: &mut Queue)
        requires
            old(self).state == LoopState::IdleWait,
            old(self).staged == None::<u64>,
        ensures
            final(self).state == LoopState::Scanning,
            final(self).cursor == None::<u64>,
            final(self).staged == None::<u64>,
            final(q).entries@ == old(q).entries@,
            final(q).next_id == old(q).next_id,
            !final(q).wake_pending,
    {
        let _ = q.take_wake();
        self.state = LoopState::Scanning;
        self.cursor = None;
    }
}

} // verus!
