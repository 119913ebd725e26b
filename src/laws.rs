//! Properties that hold of every well-formed device state and of the steps
//! between them.

use vstd::prelude::*;
use crate::model::{
    addrs, lemma_addrs_drop_first, lemma_addrs_push, lemma_multiset_drop_first, popped,
};
use crate::pending::PENDING_LEN;
use vstd::seq_lib::lemma_multiset_commutative;
use crate::socket::{owned, SocketModel};

verus! {

broadcast use vstd::seq_lib::group_to_multiset_ensures;

/// The number of states that hold frame `a`.
pub open spec fn holders(m: SocketModel, a: u64) -> nat {
    (if m.free.contains(a) { 1nat } else { 0nat }) + (if m.fill.contains(a) {
        1nat
    } else {
        0nat
    }) + (if addrs(m.rx).contains(a) {
        1nat
    } else {
        0nat
    }) + (if addrs(m.pending).contains(a) {
        1nat
    } else {
        0nat
    }) + (if addrs(m.tx).contains(a) || m.completion.contains(a) {
        1nat
    } else {
        0nat
    })
}

/// Conservation: the frames held as free, offered for receive, written by
/// the kernel, pending, and in flight for sending add up to the size of the
/// pool.
pub proof fn lemma_conservation(m: SocketModel)
    requires
        m.wf(),
    ensures
        m.free.len() + m.fill.len() + m.rx.len() + m.pending.len() + (m.tx.len()
            + m.completion.len()) == m.frame_count,
{
}

/// No double ownership: no frame is held by two states, nor twice by one.
pub proof fn lemma_single_owner(m: SocketModel, a: u64)
    requires
        m.wf(),
    ensures
        holders(m, a) <= 1,
        m.free.to_multiset().count(a) <= 1,
        m.fill.to_multiset().count(a) <= 1,
        addrs(m.rx).to_multiset().count(a) <= 1,
        addrs(m.pending).to_multiset().count(a) <= 1,
        addrs(m.tx).to_multiset().count(a) + m.completion.to_multiset().count(a) <= 1,
{
    assert(owned(m).count(a) <= 1);
}

/// A receive that finds no frame leaves no frame ready for a transmit, so a
/// transmit in the same cycle hands its handler an empty buffer and sends
/// nothing.
pub proof fn lemma_no_receive_no_transmit(m: SocketModel)
    requires
        m.wf(),
        m.rx.len() == 0,
    ensures
        !m.received().tx_ready(),
{
}

/// A fill that the ring cuts short is no fault: a transmit offers one free
/// frame to the fill ring when the pool has one and the ring has room, and
/// otherwise leaves the pool as it was, for a later refill.
pub proof fn lemma_fill_short(m: SocketModel, w: Seq<u8>, len: nat)
    requires
        m.wf(),
        m.tx_ready(),
    ensures
        ({
            let p = m.transmitted(w, len);
            let k = vstd::math::min(
                1,
                vstd::math::min(m.free.len() as int, m.fill_cap - m.fill.len()),
            );
            &&& p.fill == m.fill + popped(m.free, k as nat)
            &&& p.free == m.free.subrange(0, m.free.len() - k)
            &&& k == 0 ==> p.free == m.free && p.fill == m.fill
        }),
{
    let k = vstd::math::min(
        1,
        vstd::math::min(m.free.len() as int, m.fill_cap - m.fill.len()),
    );
    if k == 0 {
        assert(m.free.subrange(0, m.free.len() as int) =~= m.free);
        assert(m.fill + popped(m.free, 0) =~= m.fill);
    }
}

/// Refilling the fill ring with the order of its two steps turned round:
/// one free frame offered before one completion is serviced.
pub open spec fn refill_then_service(m: SocketModel) -> SocketModel {
    let m1 = m.filled(m.fill_count(1));
    m1.serviced(m1.service_count(1))
}

/// Refilling the fill ring in the device's order: one completion serviced
/// before one free frame is offered.
pub open spec fn service_then_refill(m: SocketModel) -> SocketModel {
    let m1 = m.serviced(m.service_count(1));
    m1.filled(m1.fill_count(1))
}

/// Once sending has drained the pool, refilling before servicing
/// completions publishes nothing, so the kernel runs short of frames, while
/// servicing first publishes the reclaimed frame in the same step.
pub proof fn lemma_service_order(m: SocketModel)
    requires
        m.wf(),
        m.completion.len() > 0,
        m.free.len() == 0,
        m.fill.len() < m.fill_cap,
    ensures
        refill_then_service(m).fill == m.fill,
        refill_then_service(m).free == seq![m.completion[0]],
        service_then_refill(m).fill == m.fill.push(m.completion[0]),
        service_then_refill(m).free.len() == 0,
{
    let m1 = m.filled(m.fill_count(1));
    assert(m1.fill =~= m.fill);
    assert(m1.free =~= m.free);
    assert(refill_then_service(m).free =~= seq![m.completion[0]]);
    let s1 = m.serviced(m.service_count(1));
    assert(s1.free =~= seq![m.completion[0]]);
    assert(service_then_refill(m).fill =~= m.fill.push(m.completion[0]));
}

proof fn lemma_serviced_owned(m: SocketModel, k: nat)
    requires
        k <= m.completion.len(),
    ensures
        owned(m.serviced(k)) == owned(m),
{
    let c = m.completion;
    assert(c =~= c.take(k as int) + c.skip(k as int));
    lemma_multiset_commutative(c.take(k as int), c.skip(k as int));
    lemma_multiset_commutative(m.free, c.take(k as int));
    assert(owned(m.serviced(k)) =~= owned(m));
}

proof fn lemma_claimed_owned(m: SocketModel)
    requires
        m.rx.len() > 0,
    ensures
        owned(m.claimed()) == owned(m),
{
    let d = m.rx[0];
    lemma_addrs_drop_first(m.rx);
    lemma_multiset_drop_first(addrs(m.rx));
    lemma_addrs_push(m.pending, d);
    if m.pending.len() >= PENDING_LEN {
        lemma_addrs_drop_first(m.pending);
        lemma_multiset_drop_first(addrs(m.pending));
        lemma_addrs_push(m.pending.drop_first(), d);
    }
    assert(owned(m.claimed()) =~= owned(m));
}

proof fn lemma_delivered_owned(m: SocketModel, data: Seq<u8>)
    requires
        m.fill.len() > 0,
    ensures
        owned(m.delivered(data)) == owned(m),
{
    lemma_multiset_drop_first(m.fill);
    lemma_addrs_push(m.rx, (m.fill[0], data.len() as u32));
    assert(owned(m.delivered(data)) =~= owned(m));
}

proof fn lemma_released_stale_owned(m: SocketModel)
    requires
        m.pending.len() > 0,
        m.fill.len() <= m.fill_cap,
    ensures
        owned(m.released_stale()) == owned(m),
{
    let k = m.pending.len() - 1;
    let j = m.stale_to_fill();
    let a = addrs(m.pending);
    assert(addrs(m.pending.skip(k)) =~= a.skip(k));
    assert(a =~= a.take(j) + a.subrange(j, k) + a.skip(k));
    lemma_multiset_commutative(a.take(j), a.subrange(j, k));
    lemma_multiset_commutative(a.take(j) + a.subrange(j, k), a.skip(k));
    lemma_multiset_commutative(m.fill, a.take(j));
    lemma_multiset_commutative(m.free, a.subrange(j, k));
    assert(owned(m.released_stale()) =~= owned(m));
}

proof fn lemma_received_owned(m: SocketModel)
    requires
        m.fill.len() <= m.fill_cap,
    ensures
        owned(m.received()) == owned(m),
{
    let m1 = m.serviced(m.service_count(1));
    lemma_serviced_owned(m, m.service_count(1));
    if m1.rx.len() == 0 {
        assert(owned(m.received()) =~= owned(m1));
    } else {
        lemma_claimed_owned(m1);
        lemma_released_stale_owned(m1.claimed());
        assert(owned(m.received()) =~= owned(m1.claimed().released_stale()));
    }
}

/// Round trip: a frame offered for receive, written by the kernel and
/// claimed by one receive goes back to the fill pipeline when the next
/// receive claims another frame: onto the fill ring, or into the pool when
/// the ring is full, held exactly once and by nothing else.
pub proof fn lemma_round_trip(m: SocketModel, d1: Seq<u8>, d2: Seq<u8>)
    requires
        m.wf(),
        m.fill.len() >= 2,
        m.rx.len() == 0,
        m.pending.len() == 0,
        d1.len() <= m.frame_size,
        d2.len() <= m.frame_size,
    ensures
        ({
            let a = m.fill[0];
            let m1 = m.delivered(d1).received();
            let m2 = m1.delivered(d2).received();
            &&& m1.pending == seq![(a, d1.len() as u32)]
            &&& m1.tx_ready()
            &&& m2.fill.contains(a) || m2.free.contains(a)
            &&& holders(m2, a) == 1
            &&& owned(m2).count(a) == 1
        }),
{
    let a = m.fill[0];
    let b = m.fill[1];
    let m0 = m.delivered(d1);
    let m1 = m0.received();
    lemma_delivered_owned(m, d1);
    lemma_received_owned(m0);
    let s1 = m0.serviced(m0.service_count(1));
    assert(s1.rx =~= seq![(a, d1.len() as u32)]);
    assert(s1.claimed().pending =~= seq![(a, d1.len() as u32)]);
    assert(m1.pending =~= seq![(a, d1.len() as u32)]) by {
        assert(s1.claimed().pending.skip(0) =~= s1.claimed().pending);
    }
    assert(m1.fill =~= m.fill.drop_first()) by {
        assert(addrs(s1.claimed().pending).take(0) =~= Seq::<u64>::empty());
    }
    let n0 = m1.delivered(d2);
    let m2 = n0.received();
    lemma_delivered_owned(m1, d2);
    lemma_received_owned(n0);
    assert(m.fill.contains(a));
    assert(owned(m).count(a) == 1);
    let t1 = n0.serviced(n0.service_count(1));
    assert(t1.rx =~= seq![(b, d2.len() as u32)]);
    let c = t1.claimed();
    assert(c.pending =~= seq![(a, d1.len() as u32), (b, d2.len() as u32)]);
    assert(addrs(c.pending) =~= seq![a, b]);
    if c.stale_to_fill() >= 1 {
        assert(m2.fill[c.fill.len() as int] == a);
        assert(m2.fill.contains(a));
    } else {
        assert(m2.free[c.free.len() as int] == a);
        assert(m2.free.contains(a));
    }
    assert(owned(m2).count(a) == 1);
}

} // verus!
