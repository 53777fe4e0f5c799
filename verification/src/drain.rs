//! One full scan pass, end to end.
//!
//! `run_pass` drives a connected consumer's delivery loop over every entry
//! pending at the start of the pass, with the consumer's reaction to each
//! claimed entry given up front. Its contract — and the lemmas that follow
//! from it — pin down the queue's delivery guarantees: arrival-order
//! delivery, an empty store after a fully acknowledged drain, and
//! preservation of rolled-back entries.

use vstd::prelude::*;

use crate::delivery::AckEvent;
use crate::delivery::Consumer;
use crate::delivery::LoopState;
use crate::delivery::above;
use crate::delivery::ack_message;
use crate::delivery::is_next;
use crate::queue::Entry;
use crate::queue::Queue;
use crate::queue::payloads_of;

verus! {

/// How the consumer reacts to one claimed entry.
#[derive(Clone, Copy)]
pub enum Response {
    /// Sends the acknowledgment token.
    Ack,
    /// Sends some other message, or one that cannot be decoded.
    Nack,
    /// The transmission of the payload itself fails.
    SendFail,
    /// Closes the connection after receiving the payload, before
    /// responding.
    Disconnect,
}

/// The payloads the consumer receives during one scan pass over the
/// entries `es`, when it reacts to the k-th claimed entry with `rs[k]`.
/// A failed send delivers nothing for that entry and ends the pass; a
/// disconnect ends the pass after the entry's payload went out.
pub open spec fn pass_delivered(es: Seq<Entry>, rs: Seq<Response>) -> Seq<Seq<u8>>
    decreases es.len(),
{
    if es.len() == 0 {
        Seq::empty()
    } else {
        match rs[0] {
            Response::Ack => seq![es[0].payload@] + pass_delivered(es.skip(1), rs.skip(1)),
            Response::Nack => seq![es[0].payload@] + pass_delivered(es.skip(1), rs.skip(1)),
            Response::SendFail => Seq::empty(),
            Response::Disconnect => seq![es[0].payload@],
        }
    }
}

/// The entries still in the store after that pass: acknowledged entries
/// are gone, everything else is preserved in order.
pub open spec fn pass_remaining(es: Seq<Entry>, rs: Seq<Response>) -> Seq<Entry>
    decreases es.len(),
{
    if es.len() == 0 {
        Seq::empty()
    } else {
        match rs[0] {
            Response::Ack => pass_remaining(es.skip(1), rs.skip(1)),
            Response::Nack => seq![es[0]] + pass_remaining(es.skip(1), rs.skip(1)),
            Response::SendFail => es,
            Response::Disconnect => es,
        }
    }
}

/// Whether that pass ends with the loop terminated (the connection was
/// lost) rather than back at scanning.
pub open spec fn pass_terminated(es: Seq<Entry>, rs: Seq<Response>) -> bool
    decreases es.len(),
{
    if es.len() == 0 {
        false
    } else {
        match rs[0] {
            Response::Ack => pass_terminated(es.skip(1), rs.skip(1)),
            Response::Nack => pass_terminated(es.skip(1), rs.skip(1)),
            Response::SendFail => true,
            Response::Disconnect => true,
        }
    }
}

/// The byte sequences of a vector of payloads.
pub open spec fn views_of(s: Seq<Vec<u8>>) -> Seq<Seq<u8>> {
    s.map(|i: int, v: Vec<u8>| v@)
}

/// Identifiers strictly increase along a sequence of entries.
pub open spec fn sorted(s: Seq<Entry>) -> bool {
    forall|i: int, j: int| 0 <= i < j < s.len() ==> s[i].id < s[j].id
}

/// Drive one full scan pass: repeatedly claim the next entry, transmit its
/// payload, and resolve the consumer's reaction, with `responses[k]`
/// giving the reaction to the k-th claimed entry. Returns the payloads the
/// consumer received, in order.
pub fn run_pass(q: &mut Queue, c: &mut Consumer, responses: &Vec<Response>) -> (delivered: Vec<
    Vec<u8>,
>)
    requires
        old(q).wf(),
        old(c).inv(*old(q)),
        old(c).state == LoopState::Scanning,
        old(c).cursor == None::<u64>,
        old(c).staged == None::<u64>,
        responses@.len() >= old(q).entries@.len(),
    ensures
        final(q).wf(),
        final(c).inv(*final(q)),
        views_of(delivered@) == pass_delivered(old(q).entries@, responses@),
        final(q).entries@ == pass_remaining(old(q).entries@, responses@),
        final(c).state == (if pass_terminated(old(q).entries@, responses@) {
            LoopState::Terminated
        } else {
            LoopState::Scanning
        }),
        final(c).staged == None::<u64>,
        final(q).next_id == old(q).next_id,
        final(q).wake_pending == old(q).wake_pending,
{
    let ghost es0 = old(q).entries@;
    let ghost rs = responses@;
    let mut delivered: Vec<Vec<u8>> = Vec::new();
    let mut k: usize = 0;
    let ghost mut kept: Seq<Entry> = Seq::empty();
    proof {
        assert(q.entries@ =~= kept + es0.skip(0));
        assert(es0.skip(0) =~= es0);
        assert(rs.skip(0) =~= rs);
    }
    loop
        invariant
            q.wf(),
            c.inv(*q),
            c.state == LoopState::Scanning,
            c.staged == None::<u64>,
            k <= es0.len(),
            es0 == old(q).entries@,
            sorted(es0),
            rs == responses@,
            rs.len() >= es0.len(),
            c.cursor == (if k == 0 {
                None::<u64>
            } else {
                Some(es0[k as int - 1].id)
            }),
            q.entries@ == kept + es0.skip(k as int),
            forall|j: int| 0 <= j < kept.len() ==> !above(kept[j], c.cursor),
            pass_delivered(es0, rs) == views_of(delivered@) + pass_delivered(
                es0.skip(k as int),
                rs.skip(k as int),
            ),
            pass_remaining(es0, rs) == kept + pass_remaining(
                es0.skip(k as int),
                rs.skip(k as int),
            ),
            pass_terminated(es0, rs) == pass_terminated(es0.skip(k as int), rs.skip(k as int)),
            q.next_id == old(q).next_id,
            q.wake_pending == old(q).wake_pending,
        ensures
            q.wf(),
            c.inv(*q),
            c.state == (if pass_terminated(es0, rs) {
                LoopState::Terminated
            } else {
                LoopState::Scanning
            }),
            c.staged == None::<u64>,
            views_of(delivered@) == pass_delivered(es0, rs),
            q.entries@ == pass_remaining(es0, rs),
            q.next_id == old(q).next_id,
            q.wake_pending == old(q).wake_pending,
        decreases es0.len() - k,
    {
        let ghost sfx = es0.skip(k as int);
        let ghost rsx = rs.skip(k as int);
        let ghost pre_cursor = c.cursor;
        let next = c.poll_next(q);
        match next {
            None => {
                proof {
                    // every entry of the untouched suffix lies past the
                    // cursor, so an exhausted scan means an empty suffix
                    if k < es0.len() {
                        assert(q.entries@[kept.len() as int] == es0[k as int]);
                        assert(above(es0[k as int], pre_cursor));
                        assert(false);
                    }
                    assert(sfx =~= Seq::<Entry>::empty());
                    assert(views_of(delivered@) =~= views_of(delivered@) + pass_delivered(
                        sfx,
                        rsx,
                    ));
                    assert(q.entries@ =~= kept + pass_remaining(sfx, rsx));
                }
                break;
            },
            Some(e) => {
                proof {
                    // the claimed entry is exactly the head of the suffix
                    let iw = choose|i: int|
                        is_next(q.entries@, pre_cursor, i) && e.id == q.entries@[i].id
                            && e.payload@ == q.entries@[i].payload@;
                    let i0 = kept.len() as int;
                    if k == es0.len() {
                        assert(q.entries@ =~= kept);
                        assert(!above(q.entries@[iw], pre_cursor));
                        assert(false);
                    }
                    assert(q.entries@[i0] == es0[k as int]);
                    assert(above(es0[k as int], pre_cursor));
                    assert(is_next(q.entries@, pre_cursor, i0));
                    if iw < i0 {
                        assert(!above(kept[iw], pre_cursor));
                        assert(false);
                    }
                    if iw > i0 {
                        assert(!above(q.entries@[i0], pre_cursor));
                        assert(false);
                    }
                    assert(e.id == es0[k as int].id && e.payload@ == es0[k as int].payload@);
                }
                let n = responses.len();
                let resp = responses[k];
                let ghost old_k = k as int;
                let ghost old_delivered = delivered@;
                let ghost kept_old = kept;
                proof {
                    assert(k < n);
                }
                k = k + 1;
                proof {
                    assert(sfx.len() > 0);
                    assert(sfx[0] == es0[old_k]);
                    assert(rsx[0] == rs[old_k]);
                    assert(sfx.skip(1) =~= es0.skip(old_k + 1));
                    assert(rsx.skip(1) =~= rs.skip(old_k + 1));
                }
                match resp {
                    Response::SendFail => {
                        c.on_send_result(false);
                        proof {
                            assert(pass_delivered(sfx, rsx) == Seq::<Seq<u8>>::empty());
                            assert(views_of(delivered@) =~= views_of(delivered@) + pass_delivered(
                                sfx,
                                rsx,
                            ));
                            assert(pass_remaining(sfx, rsx) == sfx);
                            assert(pass_terminated(sfx, rsx));
                        }
                        return delivered;
                    },
                    Response::Disconnect => {
                        c.on_send_result(true);
                        delivered.push(e.payload);
                        let _ = c.on_ack_event(q, AckEvent::Closed);
                        proof {
                            assert(pass_delivered(sfx, rsx) == seq![es0[old_k].payload@]);
                            assert(views_of(delivered@) =~= views_of(old_delivered) + seq![
                                es0[old_k].payload@,
                            ]);
                            assert(pass_remaining(sfx, rsx) == sfx);
                            assert(pass_terminated(sfx, rsx));
                        }
                        return delivered;
                    },
                    Response::Ack => {
                        c.on_send_result(true);
                        delivered.push(e.payload);
                        let token = ack_message();
                        let ghost q_before = q.entries@;
                        let committed = c.on_ack_event(q, AckEvent::Message(token));
                        proof {
                            assert(committed);
                            let ri = choose|i: int|
                                0 <= i < q_before.len() && Some(q_before[i].id) == Some(e.id)
                                    && q.entries@ == q_before.remove(i);
                            let i0 = kept.len() as int;
                            // identifiers are unique, so the removed index
                            // is the head of the suffix
                            assert(q_before[i0].id == e.id);
                            if ri != i0 {
                                assert(q_before[ri].id == q_before[i0].id);
                                assert(false);
                            }
                            assert(q.entries@ =~= kept + es0.skip(old_k + 1));
                            assert(pass_delivered(sfx, rsx) == seq![es0[old_k].payload@]
                                + pass_delivered(es0.skip(old_k + 1), rs.skip(old_k + 1)));
                            assert(views_of(delivered@) =~= views_of(old_delivered) + seq![
                                es0[old_k].payload@,
                            ]);
                            assert((views_of(old_delivered) + seq![es0[old_k].payload@])
                                + pass_delivered(es0.skip(old_k + 1), rs.skip(old_k + 1))
                                =~= views_of(old_delivered) + (seq![es0[old_k].payload@]
                                + pass_delivered(es0.skip(old_k + 1), rs.skip(old_k + 1))));
                            assert(pass_remaining(sfx, rsx) == pass_remaining(
                                es0.skip(old_k + 1),
                                rs.skip(old_k + 1),
                            ));
                            assert(pass_terminated(sfx, rsx) == pass_terminated(
                                es0.skip(old_k + 1),
                                rs.skip(old_k + 1),
                            ));
                            assert forall|j: int| 0 <= j < kept.len() implies !above(
                                kept[j],
                                c.cursor,
                            ) by {
                                if old_k > 0 {
                                    assert(!above(kept[j], Some(es0[old_k - 1].id)));
                                    assert(es0[old_k - 1].id < es0[old_k].id);
                                }
                            }
                        }
                    },
                    Response::Nack => {
                        c.on_send_result(true);
                        delivered.push(e.payload);
                        let _ = c.on_ack_event(q, AckEvent::Malformed);
                        proof {
                            kept = kept_old.push(es0[old_k]);
                            assert(kept =~= kept_old + seq![es0[old_k]]);
                            assert(q.entries@ =~= kept + es0.skip(old_k + 1));
                            assert(pass_remaining(sfx, rsx) == seq![es0[old_k]] + pass_remaining(
                                es0.skip(old_k + 1),
                                rs.skip(old_k + 1),
                            ));
                            assert((kept_old + seq![es0[old_k]]) + pass_remaining(
                                es0.skip(old_k + 1),
                                rs.skip(old_k + 1),
                            ) =~= kept_old + (seq![es0[old_k]] + pass_remaining(
                                es0.skip(old_k + 1),
                                rs.skip(old_k + 1),
                            )));
                            assert(pass_delivered(sfx, rsx) == seq![es0[old_k].payload@]
                                + pass_delivered(es0.skip(old_k + 1), rs.skip(old_k + 1)));
                            assert(views_of(delivered@) =~= views_of(old_delivered) + seq![
                                es0[old_k].payload@,
                            ]);
                            assert((views_of(old_delivered) + seq![es0[old_k].payload@])
                                + pass_delivered(es0.skip(old_k + 1), rs.skip(old_k + 1))
                                =~= views_of(old_delivered) + (seq![es0[old_k].payload@]
                                + pass_delivered(es0.skip(old_k + 1), rs.skip(old_k + 1))));
                            assert(pass_terminated(sfx, rsx) == pass_terminated(
                                es0.skip(old_k + 1),
                                rs.skip(old_k + 1),
                            ));
                            assert forall|j: int| 0 <= j < kept.len() implies !above(
                                kept[j],
                                c.cursor,
                            ) by {
                                if j < kept_old.len() && old_k > 0 {
                                    assert(!above(kept_old[j], Some(es0[old_k - 1].id)));
                                    assert(es0[old_k - 1].id < es0[old_k].id);
                                }
                            }
                        }
                    },
                }
            },
        }
    }
    delivered
}

/// A fully cooperating consumer — one that acknowledges every message —
/// receives every pending payload exactly once, byte-exact, in arrival
/// order; the store is empty after the pass; and the loop stays alive.
pub proof fn lemma_cooperative_drain(es: Seq<Entry>, rs: Seq<Response>)
    requires
        rs.len() >= es.len(),
        forall|i: int| 0 <= i < es.len() ==> rs[i] == Response::Ack,
    ensures
        pass_delivered(es, rs) == payloads_of(es),
        pass_remaining(es, rs) == Seq::<Entry>::empty(),
        !pass_terminated(es, rs),
    decreases es.len(),
{
    if es.len() == 0 {
        assert(pass_delivered(es, rs) =~= payloads_of(es));
        assert(pass_remaining(es, rs) =~= Seq::<Entry>::empty());
    } else {
        assert(rs[0] == Response::Ack);
        assert(es.skip(1).len() == es.len() - 1);
        assert forall|i: int| 0 <= i < es.skip(1).len() implies rs.skip(1)[i]
            == Response::Ack by {
            assert(rs.skip(1)[i] == rs[i + 1]);
        }
        lemma_cooperative_drain(es.skip(1), rs.skip(1));
        assert(pass_delivered(es, rs) == seq![es[0].payload@] + payloads_of(es.skip(1)));
        assert(seq![es[0].payload@] + payloads_of(es.skip(1)) =~= payloads_of(es));
        assert(pass_remaining(es, rs) =~= Seq::<Entry>::empty());
    }
}

/// If the consumer disconnects after receiving the payload at position `k`
/// but before acknowledging it, that entry and every later one stay in the
/// store for redelivery, while the acknowledged entries before `k` are
/// gone and are not redelivered; the loop terminates.
pub proof fn lemma_disconnect_redelivery(es: Seq<Entry>, rs: Seq<Response>, k: int)
    requires
        0 <= k < es.len(),
        rs.len() >= es.len(),
        forall|i: int| 0 <= i < k ==> rs[i] == Response::Ack,
        rs[k] == Response::Disconnect,
    ensures
        pass_delivered(es, rs) == payloads_of(es.take(k + 1)),
        pass_remaining(es, rs) == es.skip(k),
        pass_terminated(es, rs),
    decreases k,
{
    if k == 0 {
        assert(pass_delivered(es, rs) == seq![es[0].payload@]);
        assert(seq![es[0].payload@] =~= payloads_of(es.take(1)));
        assert(pass_remaining(es, rs) =~= es.skip(0));
    } else {
        assert(rs[0] == Response::Ack);
        assert forall|i: int| 0 <= i < k - 1 implies rs.skip(1)[i] == Response::Ack by {
            assert(rs.skip(1)[i] == rs[i + 1]);
        }
        assert(rs.skip(1)[k - 1] == rs[k]);
        lemma_disconnect_redelivery(es.skip(1), rs.skip(1), k - 1);
        assert(pass_delivered(es, rs) == seq![es[0].payload@] + payloads_of(
            es.skip(1).take(k),
        ));
        assert(seq![es[0].payload@] + payloads_of(es.skip(1).take(k)) =~= payloads_of(
            es.take(k + 1),
        ));
        assert(es.skip(1).skip(k - 1) =~= es.skip(k));
    }
}

/// If the consumer answers the payload at position `k` with anything but
/// the acknowledgment token and acknowledges everything else, that entry
/// is rolled back and is the only one still present after the pass, every
/// payload — including those after `k` — is still delivered in order, and
/// the loop does not terminate.
pub proof fn lemma_nack_rollback(es: Seq<Entry>, rs: Seq<Response>, k: int)
    requires
        0 <= k < es.len(),
        rs.len() >= es.len(),
        rs[k] == Response::Nack,
        forall|i: int| 0 <= i < es.len() && i != k ==> rs[i] == Response::Ack,
    ensures
        pass_delivered(es, rs) == payloads_of(es),
        pass_remaining(es, rs) == seq![es[k]],
        !pass_terminated(es, rs),
    decreases k,
{
    if k == 0 {
        assert forall|i: int| 0 <= i < es.skip(1).len() implies rs.skip(1)[i]
            == Response::Ack by {
            assert(rs.skip(1)[i] == rs[i + 1]);
        }
        lemma_cooperative_drain(es.skip(1), rs.skip(1));
        assert(pass_delivered(es, rs) == seq![es[0].payload@] + payloads_of(es.skip(1)));
        assert(seq![es[0].payload@] + payloads_of(es.skip(1)) =~= payloads_of(es));
        assert(pass_remaining(es, rs) =~= seq![es[0]]);
    } else {
        assert(rs[0] == Response::Ack);
        assert(rs.skip(1)[k - 1] == rs[k]);
        assert forall|i: int| 0 <= i < es.skip(1).len() && i != k - 1 implies rs.skip(1)[i]
            == Response::Ack by {
            assert(rs.skip(1)[i] == rs[i + 1]);
        }
        lemma_nack_rollback(es.skip(1), rs.skip(1), k - 1);
        assert(pass_delivered(es, rs) == seq![es[0].payload@] + payloads_of(es.skip(1)));
        assert(seq![es[0].payload@] + payloads_of(es.skip(1)) =~= payloads_of(es));
        assert(es.skip(1)[k - 1] == es[k]);
    }
}

/// A payload ingested while no consumer is connected is delivered as soon
/// as a consumer connects and completes a cooperative scan pass: the pass
/// over the store with that entry appended delivers everything, ending
/// with that payload, and drains the store.
pub proof fn lemma_ingest_then_deliver(es: Seq<Entry>, e: Entry, rs: Seq<Response>)
    requires
        rs.len() >= es.len() + 1,
        forall|i: int| 0 <= i < es.len() + 1 ==> rs[i] == Response::Ack,
    ensures
        pass_delivered(es.push(e), rs) == payloads_of(es).push(e.payload@),
        pass_remaining(es.push(e), rs) == Seq::<Entry>::empty(),
        !pass_terminated(es.push(e), rs),
{
    lemma_cooperative_drain(es.push(e), rs);
    assert(payloads_of(es.push(e)) =~= payloads_of(es).push(e.payload@));
}

/// Two ingests submitted back to back before any scan are both delivered,
/// in submission order, by the consumer's next cooperative scan pass.
pub proof fn lemma_two_ingests_delivered(es: Seq<Entry>, e1: Entry, e2: Entry, rs: Seq<Response>)
    requires
        rs.len() >= es.len() + 2,
        forall|i: int| 0 <= i < es.len() + 2 ==> rs[i] == Response::Ack,
    ensures
        pass_delivered(es.push(e1).push(e2), rs) == payloads_of(es).push(e1.payload@).push(
            e2.payload@,
        ),
        pass_remaining(es.push(e1).push(e2), rs) == Seq::<Entry>::empty(),
        !pass_terminated(es.push(e1).push(e2), rs),
{
    lemma_cooperative_drain(es.push(e1).push(e2), rs);
    assert(payloads_of(es.push(e1).push(e2)) =~= payloads_of(es).push(e1.payload@).push(
        e2.payload@,
    ));
}

} // verus!
