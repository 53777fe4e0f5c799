//! The durable store model: an ordered sequence of pending entries.
//!
//! Entries are kept in ascending identifier order, so that iteration order
//! equals arrival order. An entry is created by `ingest` and destroyed only
//! by `commit_delete` after a positive acknowledgment; a rolled-back
//! delivery leaves the store untouched.

use vstd::prelude::*;

verus! {

/// One persisted (identifier, payload) pair awaiting delivery.
///
/// The identifier is totally ordered and unique; identifier order equals
/// arrival order. The payload is an opaque byte sequence, immutable once
/// written.
pub struct Entry {
    pub id: u64,
    pub payload: Vec<u8>,
}

/// The payload bytes of each entry, in store order.
pub open spec fn payloads_of(s: Seq<Entry>) -> Seq<Seq<u8>> {
    s.map(|i: int, e: Entry| e.payload@)
}

/// A byte-for-byte copy of a payload.
pub fn copy_payload(v: &Vec<u8>) -> (r: Vec<u8>)
    ensures
        r@ == v@,
{
    let mut r: Vec<u8> = Vec::new();
    let mut i: usize = 0;
    while i < v.len()
        invariant
            i <= v.len(),
            r@ == v@.take(i as int),
        decreases v.len() - i,
    {
        r.push(v[i]);
        i = i + 1;
        proof {
            assert(r@ =~= v@.take(i as int));
        }
    }
    proof {
        assert(v@.take(v.len() as int) =~= v@);
    }
    r
}

/// The shared state of the system: the pending entries, the identifier
/// source, and the coalescing wake-up signal.
pub struct Queue {
    pub entries: Vec<Entry>,
    pub next_id: u64,
    pub wake_pending: bool,
}

impl Queue {
    /// Identifiers strictly increase along the store (store order equals
    /// arrival order) and every identifier is below the next fresh one.
    pub open spec fn wf(self) -> bool {
        &&& forall|i: int, j: int|
            0 <= i < j < self.entries@.len() ==> self.entries@[i].id < self.entries@[j].id
        &&& forall|i: int| 0 <= i < self.entries@.len() ==> self.entries@[i].id < self.next_id
    }

    /// An empty queue with no pending wake-up.
    pub fn new() -> (q: Queue)
        ensures
            q.wf(),
            q.entries@ == Seq::<Entry>::empty(),
            q.next_id == 0,
            !q.wake_pending,
    {
        Queue { entries: Vec::new(), next_id: 0, wake_pending: false }
    }

    /// How many entries are pending.
    pub fn pending_count(&self) -> (n: usize)
        ensures
            n == self.entries@.len(),
    {
        self.entries.len()
    }

    /// Append a payload under a fresh identifier and trigger the wake-up
    /// signal. Never blocks on a consumer and never fails.
    pub fn ingest(&mut self, payload: Vec<u8>) -> (id: u64)
        requires
            old(self).wf(),
            old(self).next_id < u64::MAX,
        ensures
            final(self).wf(),
            id == old(self).next_id,
            final(self).next_id == old(self).next_id + 1,
            final(self).entries@ == old(self).entries@.push(
                (Entry { id: old(self).next_id, payload }),
            ),
            final(self).wake_pending,
    {
        let id = self.next_id;
        self.next_id = self.next_id + 1;
        self.entries.push(Entry { id, payload });
        self.wake_pending = true;
        proof {
            let s = old(self).entries@;
            let s2 = self.entries@;
            assert(s2.len() == s.len() + 1);
            assert(s2[s.len() as int].id == old(self).next_id);
            assert forall|i: int, j: int| 0 <= i < j < s2.len() implies s2[i].id < s2[j].id by {
                if j == s.len() as int {
                    assert(s2[i] == s[i]);
                } else {
                    assert(s2[i] == s[i] && s2[j] == s[j]);
                }
            }
            assert forall|i: int| 0 <= i < s2.len() implies s2[i].id < self.next_id by {
                if i < s.len() as int {
                    assert(s2[i] == s[i]);
                }
            }
        }
        id
    }

    /// Consume the wake-up signal: report whether a trigger was pending and
    /// clear it. Multiple triggers coalesce into one pending wake.
    pub fn take_wake(&mut self) -> (was: bool)
        ensures
            was == old(self).wake_pending,
            !final(self).wake_pending,
            final(self).entries@ == old(self).entries@,
            final(self).next_id == old(self).next_id,
    {
        let was = self.wake_pending;
        self.wake_pending = false;
        was
    }

    /// Durably apply a staged deletion: remove the entry carrying this
    /// identifier. Order among the remaining entries is preserved.
    pub(crate) fn commit_delete(&mut self, id: u64)
        requires
            old(self).wf(),
            exists|i: int|
                0 <= i < old(self).entries@.len() && old(self).entries@[i].id == id,
        ensures
            final(self).wf(),
            exists|i: int|
                0 <= i < old(self).entries@.len() && old(self).entries@[i].id == id
                    && final(self).entries@ == old(self).entries@.remove(i),
            final(self).next_id == old(self).next_id,
            final(self).wake_pending == old(self).wake_pending,
    {
        let mut i: usize = 0;
        while self.entries[i].id != id
            invariant
                self.entries@ == old(self).entries@,
                self.next_id == old(self).next_id,
                self.wake_pending == old(self).wake_pending,
                i < self.entries@.len(),
                forall|j: int| 0 <= j < i ==> self.entries@[j].id != id,
                exists|j: int|
                    0 <= j < self.entries@.len() && self.entries@[j].id == id,
            decreases self.entries@.len() - i,
        {
            let n = self.entries.len();
            i = i + 1;
            proof {
                let j = choose|j: int|
                    0 <= j < self.entries@.len() && self.entries@[j].id == id;
                assert(j >= i);
            }
        }
        self.entries.remove(i);
        proof {
            let s_old = old(self).entries@;
            let s = self.entries@;
            assert(s == s_old.remove(i as int));
            assert forall|a: int, b: int| 0 <= a < b < s.len() implies s[a].id < s[b].id by {
                assert(s[a] == (if a < i { s_old[a] } else { s_old[a + 1] }));
                assert(s[b] == (if b < i { s_old[b] } else { s_old[b + 1] }));
            }
            assert forall|a: int| 0 <= a < s.len() implies s[a].id < self.next_id by {
                assert(s[a] == (if a < i { s_old[a] } else { s_old[a + 1] }));
            }
        }
    }
}

} // verus!
