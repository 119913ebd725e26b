//! The device: a memory area cut into frames, the free pool, the fill,
//! receive, transmit and completion rings, and the pending deque.

use std::collections::VecDeque;
use vstd::multiset::Multiset;
use vstd::prelude::*;
use crate::model::{
    addrs, fit, frame_seq, is_frame, lemma_addrs_drop_first, lemma_addrs_push, lemma_frame_bounds,
    lemma_is_frame_step, lemma_multiset_drop_first, lemma_multiset_pop, popped, splice,
};
use crate::pending::{PendingDeque, PENDING_LEN};

verus! {

broadcast use vstd::seq_lib::group_to_multiset_ensures;

/// Frames in a device of the default geometry.
pub const DEFAULT_FRAME_COUNT: usize = 4096;

/// Bytes in each frame of a device of the default geometry.
pub const DEFAULT_FRAME_SIZE: usize = 4096;

/// Entries in the fill and transmit rings of a device of the default
/// geometry.
pub const DEFAULT_RING_SIZE: usize = 2048;

/// The MTU that a device of the default geometry reports.
pub const DEFAULT_MTU: usize = 9001;

/// The state of a device, as plain values.
pub struct SocketModel {
    /// The shared memory area, `frame_count * frame_size` bytes.
    pub area: Seq<u8>,
    pub frame_size: nat,
    pub frame_count: nat,
    /// Frames held by the application, free for use (state `Free`).
    pub free: Seq<u64>,
    /// Frames offered to the kernel for inbound data (`FillPending`).
    pub fill: Seq<u64>,
    pub fill_cap: nat,
    /// Frames the kernel wrote and the application has not claimed
    /// (`KernelOwnedRx`).
    pub rx: Seq<(u64, u32)>,
    /// Frames claimed from the receive ring (`PendingClaim`).
    pub pending: Seq<(u64, u32)>,
    /// Frames handed to the kernel for sending (`TxInFlight`, first part).
    pub tx: Seq<(u64, u32)>,
    pub tx_cap: nat,
    /// Frames the kernel has sent and not yet returned (`TxInFlight`, rest).
    pub completion: Seq<u64>,
    /// The kernel asks to be woken when the fill ring is refilled.
    pub needs_wakeup: bool,
    /// The latest receive claimed a frame that no transmit has used yet.
    pub fresh: bool,
    pub wakes: nat,
    pub sends: nat,
    pub mtu: nat,
    /// The name of the network interface.
    pub name: Seq<char>,
}

/// Every frame address held anywhere, with its multiplicity.
pub open spec fn owned(m: SocketModel) -> Multiset<u64> {
    m.free.to_multiset().add(m.fill.to_multiset()).add(addrs(m.rx).to_multiset()).add(
        addrs(m.pending).to_multiset(),
    ).add(addrs(m.tx).to_multiset()).add(m.completion.to_multiset())
}

/// The number of frames held by each state, summed.
pub open spec fn held(m: SocketModel) -> nat {
    m.free.len() + m.fill.len() + m.rx.len() + m.pending.len() + m.tx.len() + m.completion.len()
}

/// Every descriptor's length fits in a frame.
pub open spec fn lens_fit(s: Seq<(u64, u32)>, size: nat) -> bool {
    forall|i: int| 0 <= i < s.len() ==> #[trigger] s[i].1 <= size
}

impl SocketModel {
    /// Each frame is held exactly once, by exactly one state.
    pub open spec fn wf(self) -> bool {
        &&& 0 < self.frame_size <= u32::MAX
        &&& self.area.len() == self.frame_count * self.frame_size
        &&& self.area.len() <= usize::MAX
        &&& held(self) == self.frame_count
        &&& forall|a: u64| #[trigger]
            owned(self).count(a) == if is_frame(a, self.frame_count, self.frame_size) {
                1nat
            } else {
                0nat
            }
        &&& lens_fit(self.rx, self.frame_size)
        &&& lens_fit(self.pending, self.frame_size)
        &&& self.pending.len() <= PENDING_LEN
        &&& lens_fit(self.tx, self.frame_size)
        &&& self.fill.len() <= self.fill_cap
        &&& self.tx.len() <= self.tx_cap
    }
}

impl SocketModel {
    /// A new device: the area zeroed, every frame checked out of the pool and
    /// as many as the fill ring takes offered to it, the highest first.
    pub open spec fn initial(
        name: Seq<char>,
        count: nat,
        size: nat,
        fill_cap: nat,
        tx_cap: nat,
        mtu: nat,
    ) -> SocketModel {
        let k = vstd::math::min(fill_cap as int, count as int) as nat;
        SocketModel {
            area: Seq::new(count * size, |i: int| 0u8),
            frame_size: size,
            frame_count: count,
            free: frame_seq((count - k) as nat, size),
            fill: popped(frame_seq(count, size), k),
            fill_cap,
            rx: Seq::empty(),
            pending: Seq::empty(),
            tx: Seq::empty(),
            tx_cap,
            completion: Seq::empty(),
            needs_wakeup: false,
            fresh: false,
            wakes: 0,
            sends: 0,
            mtu,
            name,
        }
    }

    /// How many frames a fill of up to `n` offers.
    pub open spec fn fill_count(self, n: nat) -> nat {
        vstd::math::min(
            n as int,
            vstd::math::min(self.free.len() as int, self.fill_cap - self.fill.len()),
        ) as nat
    }

    /// The state after `k` frames moved from the back of the pool onto the
    /// fill ring.
    pub open spec fn filled(self, k: nat) -> SocketModel {
        SocketModel {
            free: self.free.subrange(0, self.free.len() - k),
            fill: self.fill + popped(self.free, k),
            ..self
        }
    }

    /// How many frames a service of up to `n` completions reclaims.
    pub open spec fn service_count(self, n: nat) -> nat {
        vstd::math::min(n as int, self.completion.len() as int) as nat
    }

    /// The state after the first `k` completed frames went back to the pool.
    pub open spec fn serviced(self, k: nat) -> SocketModel {
        SocketModel {
            free: self.free + self.completion.take(k as int),
            completion: self.completion.skip(k as int),
            ..self
        }
    }

    /// The state after every pending frame went back to the pool.
    pub open spec fn released(self) -> SocketModel {
        SocketModel {
            free: self.free + addrs(self.pending),
            pending: Seq::empty(),
            fresh: false,
            ..self
        }
    }

    /// The state after the first frame of the receive ring was claimed into
    /// the pending deque; a full deque gives its oldest frame to the pool.
    pub open spec fn claimed(self) -> SocketModel {
        let d = self.rx[0];
        if self.pending.len() < PENDING_LEN {
            SocketModel { rx: self.rx.drop_first(), pending: self.pending.push(d), ..self }
        } else {
            SocketModel {
                rx: self.rx.drop_first(),
                pending: self.pending.drop_first().push(d),
                free: self.free.push(self.pending[0].0),
                ..self
            }
        }
    }

    /// The send succeeds: a frame is pending and the transmit ring has room.
    pub open spec fn can_send(self) -> bool {
        self.pending.len() > 0 && self.tx.len() < self.tx_cap
    }

    /// The state after one send attempt that hands the first pending frame
    /// to the transmit ring when it can.
    pub open spec fn sent(self) -> SocketModel {
        let sends = if self.sends < u64::MAX {
            self.sends + 1
        } else {
            self.sends
        };
        if self.can_send() {
            SocketModel {
                pending: self.pending.drop_first(),
                tx: self.tx.push(self.pending[0]),
                sends,
                ..self
            }
        } else {
            SocketModel { sends, ..self }
        }
    }

    /// The state after the kernel wrote `data` into the first frame of the
    /// fill ring and put that frame on the receive ring.
    pub open spec fn delivered(self, data: Seq<u8>) -> SocketModel {
        SocketModel {
            area: splice(self.area, self.fill[0] as int, data),
            fill: self.fill.drop_first(),
            rx: self.rx.push((self.fill[0], data.len() as u32)),
            ..self
        }
    }

    /// The state after the kernel was woken, if it asked to be.
    pub open spec fn woken(self) -> SocketModel {
        if self.needs_wakeup && self.wakes < u64::MAX {
            SocketModel { wakes: self.wakes + 1, ..self }
        } else {
            self
        }
    }

    /// The bytes of the frame at `a` that hold `len` bytes of data.
    pub open spec fn frame_data(self, a: u64, len: nat) -> Seq<u8> {
        self.area.subrange(a as int, a + len)
    }
}

impl SocketModel {
    /// How many of the frames pending before the newest one go to the fill
    /// ring when they are released; the rest go to the pool.
    pub open spec fn stale_to_fill(self) -> int {
        vstd::math::min(self.pending.len() - 1, self.fill_cap - self.fill.len())
    }

    /// The state after every pending frame but the newest was released,
    /// oldest first, onto the fill ring while it has room, else to the pool.
    pub open spec fn released_stale(self) -> SocketModel {
        let k = self.pending.len() - 1;
        let j = self.stale_to_fill();
        let a = addrs(self.pending);
        SocketModel {
            fill: self.fill + a.take(j),
            free: self.free + a.subrange(j, k),
            pending: self.pending.skip(k),
            ..self
        }
    }

    /// The state after one receive: at most one completion serviced, then at
    /// most one frame claimed from the receive ring. With a frame claimed,
    /// the frames left pending from earlier cycles are released and the new
    /// frame is ready for a transmit; with none, the kernel is woken if it
    /// asked and no frame is ready for a transmit.
    pub open spec fn received(self) -> SocketModel {
        let m1 = self.serviced(self.service_count(1));
        if m1.rx.len() == 0 {
            SocketModel { fresh: false, ..m1.woken() }
        } else {
            SocketModel { fresh: true, ..m1.claimed().released_stale() }
        }
    }

    /// A transmit writes through a frame: the latest receive claimed one.
    pub open spec fn tx_ready(self) -> bool {
        self.fresh && self.pending.len() > 0
    }

    /// The state after a transmit through the first pending frame: `w`, cut
    /// or padded to `len` bytes, written into the frame, the frame's length
    /// set to `len`, the frame handed to the transmit ring, then one free
    /// frame offered to the fill ring.
    pub open spec fn transmitted(self, w: Seq<u8>, len: nat) -> SocketModel {
        let m1 = SocketModel {
            area: splice(self.area, self.pending[0].0 as int, fit(w, len)),
            pending: self.pending.update(0, (self.pending[0].0, len as u32)),
            ..self
        };
        let m2 = SocketModel { fresh: false, ..m1.sent() };
        m2.filled(m2.fill_count(1))
    }
}

/// In a well-formed state, any address that some state holds starts a frame
/// that lies inside the area.
pub proof fn lemma_held_in_area(m: SocketModel, a: u64)
    requires
        m.wf(),
        m.free.contains(a) || m.fill.contains(a) || addrs(m.rx).contains(a) || addrs(
            m.pending,
        ).contains(a) || addrs(m.tx).contains(a) || m.completion.contains(a),
    ensures
        is_frame(a, m.frame_count, m.frame_size),
        a + m.frame_size <= m.area.len(),
{
    assert(owned(m).count(a) > 0);
    lemma_frame_bounds(a, m.frame_count, m.frame_size);
}

/// What the device reports of itself.
pub struct DeviceCapabilities {
    pub max_transmission_unit: usize,
}

/// One received frame: a private copy of its bytes.
pub struct RxToken {
    buffer: Vec<u8>,
}

impl RxToken {
    pub closed spec fn view(&self) -> Seq<u8> {
        self.buffer@
    }

    /// Hands the frame's bytes to `f` and returns what `f` returns.
    pub fn consume<R, F: FnOnce(Vec<u8>) -> R>(self, f: F) -> (r: R)
        requires
            forall|v: Vec<u8>| v@ == self@ ==> #[trigger] f.requires((v,)),
        ensures
            exists|v: Vec<u8>| v@ == self@ && #[trigger] f.ensures((v,), r),
    {
        let v = self.buffer;
        let r = f(v);
        assert(f.ensures((v,), r));
        r
    }
}

/// One chance to send a frame; it writes through the frame at the head of
/// the pending deque.
pub struct TxToken {}

impl TxToken {
    /// Gives `f` a zeroed buffer of `len` bytes and sends what `f` hands
    /// back, cut or padded to `len` bytes, through the frame the latest
    /// receive claimed; then offers one free frame to the fill ring. When
    /// the latest receive claimed no frame, or a transmit already used it,
    /// `f` gets an empty buffer and nothing changes. Returns what `f`
    /// returns.
    pub fn consume<R, F: FnOnce(Vec<u8>) -> (Vec<u8>, R)>(
        self,
        dev: &mut XdpSocket,
        len: usize,
        f: F,
    ) -> (r: R)
        requires
            old(dev)@.wf(),
            old(dev)@.tx_ready() ==> len <= old(dev)@.frame_size && old(dev)@.tx.len()
                < old(dev)@.tx_cap,
            forall|v: Vec<u8>| #[trigger] f.requires((v,)),
        ensures
            final(dev)@.wf(),
            !old(dev)@.tx_ready() ==> final(dev)@ == old(dev)@ && exists|
                v: Vec<u8>,
                w: Vec<u8>,
            |
                v@.len() == 0 && #[trigger] f.ensures((v,), (w, r)),
            old(dev)@.tx_ready() ==> exists|v: Vec<u8>, w: Vec<u8>|
                v@ == Seq::new(len as nat, |i: int| 0u8) && #[trigger] f.ensures((v,), (w, r))
                    && final(dev)@ == old(dev)@.transmitted(w@, len as nat),
    {
        let ghost m0 = dev@;
        if !dev.fresh || dev.pending.len() == 0 {
            let v: Vec<u8> = Vec::new();
            let ghost vv = v;
            let (w, r) = f(v);
            assert(f.ensures((vv,), (w, r)));
            return r;
        }
        let v: Vec<u8> = vec![0u8; len];
        let ghost vv = v;
        assert(v@ =~= Seq::new(len as nat, |i: int| 0u8));
        let (w, r) = f(v);
        assert(f.ensures((vv,), (w, r)));
        let d = dev.pending.front().unwrap();
        proof {
            lemma_addrs_drop_first(m0.pending);
            assert(addrs(m0.pending).contains(d.0));
            lemma_held_in_area(m0, d.0);
        }
        dev.write_frame(d.0, &w, len);
        proof {
            assert(owned(dev@) =~= owned(m0));
        }
        dev.set_front_len(len as u32);
        dev.try_send();
        let ghost before = dev@;
        dev.fresh = false;
        assert(owned(dev@) =~= owned(before));
        dev.fill_from_pool(1);
        r
    }
}

/// A packet device over a zero-copy socket.
pub struct XdpSocket {
    area: Vec<u8>,
    frame_size: usize,
    frame_count: usize,
    free: Vec<u64>,
    fill: VecDeque<u64>,
    fill_cap: usize,
    rx: VecDeque<(u64, u32)>,
    pending: PendingDeque,
    tx: VecDeque<(u64, u32)>,
    tx_cap: usize,
    completion: VecDeque<u64>,
    needs_wakeup: bool,
    fresh: bool,
    wakes: u64,
    sends: u64,
    mtu: usize,
    name: String,
}

impl XdpSocket {
    pub closed spec fn view(&self) -> SocketModel {
        SocketModel {
            area: self.area@,
            frame_size: self.frame_size as nat,
            frame_count: self.frame_count as nat,
            free: self.free@,
            fill: self.fill@,
            fill_cap: self.fill_cap as nat,
            rx: self.rx@,
            pending: self.pending@,
            tx: self.tx@,
            tx_cap: self.tx_cap as nat,
            completion: self.completion@,
            needs_wakeup: self.needs_wakeup,
            fresh: self.fresh,
            wakes: self.wakes as nat,
            sends: self.sends as nat,
            mtu: self.mtu as nat,
            name: self.name@,
        }
    }

    /// Makes a device on interface `name` of the default geometry: 4096
    /// frames of 4096 bytes, rings of 2048 entries, and an MTU of 9001.
    pub fn new(name: &str) -> (r: XdpSocket)
        ensures
            r@.wf(),
            r@ == SocketModel::initial(
                name@,
                DEFAULT_FRAME_COUNT as nat,
                DEFAULT_FRAME_SIZE as nat,
                DEFAULT_RING_SIZE as nat,
                DEFAULT_RING_SIZE as nat,
                DEFAULT_MTU as nat,
            ),
    {
        XdpSocket::with_geometry(
            name,
            DEFAULT_FRAME_COUNT,
            DEFAULT_FRAME_SIZE,
            DEFAULT_RING_SIZE,
            DEFAULT_RING_SIZE,
            DEFAULT_MTU,
        )
    }

    /// Makes a device on interface `name` of `frame_count` frames of
    /// `frame_size` bytes, checks all frames out of the pool and offers as
    /// many as the fill ring takes to the kernel, the highest addresses
    /// first.
    pub fn with_geometry(
        name: &str,
        frame_count: usize,
        frame_size: usize,
        fill_cap: usize,
        tx_cap: usize,
        mtu: usize,
    ) -> (r: XdpSocket)
        requires
            0 < frame_size <= u32::MAX,
            frame_count * frame_size <= usize::MAX,
        ensures
            r@.wf(),
            r@ == SocketModel::initial(
                name@,
                frame_count as nat,
                frame_size as nat,
                fill_cap as nat,
                tx_cap as nat,
                mtu as nat,
            ),
    {
        let area_len: usize = frame_count * frame_size;
        let area: Vec<u8> = vec![0u8; area_len];
        assert(area@ =~= Seq::new(area_len as nat, |i: int| 0u8));
        let mut free: Vec<u64> = Vec::with_capacity(frame_count);
        let mut i: usize = 0;
        while i < frame_count
            invariant
                0 <= i <= frame_count,
                0 < frame_size,
                frame_count * frame_size <= usize::MAX,
                free@ == frame_seq(i as nat, frame_size as nat),
                forall|a: u64| #[trigger]
                    free@.to_multiset().count(a) == if is_frame(
                        a,
                        i as nat,
                        frame_size as nat,
                    ) {
                        1nat
                    } else {
                        0nat
                    },
            decreases frame_count - i,
        {
            assert(i * frame_size + frame_size <= frame_count * frame_size) by (nonlinear_arith)
                requires
                    i < frame_count,
                    0 < frame_size,
            ;
            let a: u64 = (i * frame_size) as u64;
            let ghost before = free@;
            free.push(a);
            assert forall|b: u64| #[trigger]
                free@.to_multiset().count(b) == if is_frame(
                    b,
                    (i + 1) as nat,
                    frame_size as nat,
                ) {
                    1nat
                } else {
                    0nat
                } by {
                lemma_is_frame_step(b, i as nat, frame_size as nat);
                assert(before.push(a).to_multiset().count(b) == before.to_multiset().count(b) + if b
                    == a {
                    1nat
                } else {
                    0nat
                });
                if b == a {
                    assert(!is_frame(b, i as nat, frame_size as nat));
                }
            }
            assert(free@ =~= frame_seq((i + 1) as nat, frame_size as nat));
            i = i + 1;
        }
        let mut s = XdpSocket {
            area,
            frame_size,
            frame_count,
            free,
            fill: VecDeque::new(),
            fill_cap,
            rx: VecDeque::new(),
            pending: PendingDeque::new(),
            tx: VecDeque::new(),
            tx_cap,
            completion: VecDeque::new(),
            needs_wakeup: false,
            fresh: false,
            wakes: 0,
            sends: 0,
            mtu,
            name: name.to_owned(),
        };
        assert(owned(s@) =~= s@.free.to_multiset()) by {
            assert(addrs(s@.rx) =~= Seq::<u64>::empty());
            assert(addrs(s@.pending) =~= Seq::<u64>::empty());
            assert(addrs(s@.tx) =~= Seq::<u64>::empty());
        }
        let want: usize = if fill_cap < frame_count {
            fill_cap
        } else {
            frame_count
        };
        let k = s.fill_from_pool(want);
        assert(s@.fill =~= popped(frame_seq(frame_count as nat, frame_size as nat), want as nat));
        assert(s@.free =~= frame_seq((frame_count - want) as nat, frame_size as nat));
        assert(s@.rx =~= Seq::<(u64, u32)>::empty());
        assert(s@.tx =~= Seq::<(u64, u32)>::empty());
        assert(s@.pending =~= Seq::<(u64, u32)>::empty());
        assert(s@.completion =~= Seq::<u64>::empty());
        assert(s@.name =~= name@);
        assert(s@ =~= SocketModel::initial(
            name@,
            frame_count as nat,
            frame_size as nat,
            fill_cap as nat,
            tx_cap as nat,
            mtu as nat,
        ));
        s
    }

    /// Offers up to `n` frames of the pool to the kernel through the fill
    /// ring, as many as the ring has room for, taken from the back of the
    /// pool. Returns how many it offered.
    pub fn fill_from_pool(&mut self, n: usize) -> (k: usize)
        requires
            old(self)@.wf(),
        ensures
            final(self)@.wf(),
            k == vstd::math::min(
                n as int,
                vstd::math::min(
                    old(self)@.free.len() as int,
                    old(self)@.fill_cap - old(self)@.fill.len(),
                ),
            ),
            final(self)@ == (SocketModel {
                free: old(self)@.free.subrange(0, old(self)@.free.len() - k),
                fill: old(self)@.fill + popped(old(self)@.free, k as nat),
                ..old(self)@
            }),
    {
        let room: usize = self.fill_cap - self.fill.len();
        let mut k: usize = n;
        if self.free.len() < k {
            k = self.free.len();
        }
        if room < k {
            k = room;
        }
        let ghost m0 = self@;
        proof {
            assert(m0.free.subrange(0, m0.free.len() as int) =~= m0.free);
            assert(m0.fill + popped(m0.free, 0) =~= m0.fill);
        }
        let mut j: usize = 0;
        while j < k
            invariant
                0 <= j <= k,
                k <= m0.free.len(),
                m0.fill.len() + k <= m0.fill_cap,
                m0.wf(),
                self@ == (SocketModel {
                    free: m0.free.subrange(0, m0.free.len() - j),
                    fill: m0.fill + popped(m0.free, j as nat),
                    ..m0
                }),
                owned(self@) == owned(m0),
            decreases k - j,
        {
            let ghost before = self@;
            assert(before.free.len() > 0);
            let a = self.free.pop().unwrap();
            self.fill.push_back(a);
            proof {
                lemma_multiset_pop(before.free);
                assert(self@.free =~= m0.free.subrange(0, m0.free.len() - (j + 1)));
                assert(self@.fill =~= m0.fill + popped(m0.free, (j + 1) as nat));
                assert(owned(self@) =~= owned(before));
            }
            j = j + 1;
        }
        k
    }

    /// Reads `len` bytes of the frame at `a`.
    fn read_frame(&self, a: u64, len: u32) -> (r: Vec<u8>)
        requires
            a + len <= self@.area.len(),
        ensures
            r@ == self@.frame_data(a, len as nat),
    {
        let area_len: usize = self.area.len();
        let start: usize = a as usize;
        let n: usize = len as usize;
        let mut r: Vec<u8> = Vec::with_capacity(n);
        let mut i: usize = 0;
        while i < n
            invariant
                0 <= i <= n,
                start + n <= area_len,
                area_len == self@.area.len(),
                r@ == self@.area.subrange(start as int, start + i),
            decreases n - i,
        {
            r.push(self.area[start + i]);
            assert(r@ =~= self@.area.subrange(start as int, start + i + 1));
            i = i + 1;
        }
        r
    }

    /// Writes `data`, cut or padded to `len` bytes, into the frame at `a`.
    fn write_frame(&mut self, a: u64, data: &Vec<u8>, len: usize)
        requires
            a + len <= old(self)@.area.len(),
        ensures
            final(self)@ == (SocketModel {
                area: splice(old(self)@.area, a as int, fit(data@, len as nat)),
                ..old(self)@
            }),
    {
        let area_len: usize = self.area.len();
        let start: usize = a as usize;
        proof {
            let e = fit(data@, len as nat).take(0);
            assert(splice(old(self)@.area, start as int, e) =~= old(self)@.area);
        }
        let mut i: usize = 0;
        while i < len
            invariant
                0 <= i <= len,
                start + len <= area_len,
                area_len == old(self)@.area.len(),
                self@ == (SocketModel {
                    area: splice(
                        old(self)@.area,
                        start as int,
                        fit(data@, len as nat).take(i as int),
                    ),
                    ..old(self)@
                }),
            decreases len - i,
        {
            let b: u8 = if i < data.len() {
                data[i]
            } else {
                0u8
            };
            self.area.set(start + i, b);
            assert(self@.area =~= splice(
                old(self)@.area,
                start as int,
                fit(data@, len as nat).take(i + 1),
            ));
            i = i + 1;
        }
        assert(fit(data@, len as nat).take(len as int) =~= fit(data@, len as nat));
    }

    /// Returns up to `n` frames that the kernel has finished sending from the
    /// completion ring to the pool. Returns how many it returned.
    pub fn service_completion(&mut self, n: usize) -> (k: usize)
        requires
            old(self)@.wf(),
        ensures
            final(self)@.wf(),
            k == old(self)@.service_count(n as nat),
            final(self)@ == old(self)@.serviced(k as nat),
    {
        let mut k: usize = n;
        if self.completion.len() < k {
            k = self.completion.len();
        }
        let ghost m0 = self@;
        proof {
            assert(m0.free + m0.completion.take(0) =~= m0.free);
            assert(m0.completion.skip(0) =~= m0.completion);
        }
        let mut j: usize = 0;
        while j < k
            invariant
                0 <= j <= k,
                k <= m0.completion.len(),
                m0.wf(),
                self@ == m0.serviced(j as nat),
                owned(self@) == owned(m0),
            decreases k - j,
        {
            let ghost before = self@;
            assert(before.completion.len() > 0);
            let a = self.completion.pop_front().unwrap();
            self.free.push(a);
            proof {
                lemma_multiset_drop_first(before.completion);
                assert(self@.free =~= m0.free + m0.completion.take(j + 1));
                assert(self@.completion =~= m0.completion.skip(j + 1));
                assert(owned(self@) =~= owned(before));
            }
            j = j + 1;
        }
        k
    }

    /// Returns every pending frame to the pool, oldest first.
    pub fn release_pending(&mut self)
        requires
            old(self)@.wf(),
        ensures
            final(self)@.wf(),
            final(self)@ == old(self)@.released(),
    {
        let ghost m0 = self@;
        let ghost mut taken: nat = 0;
        proof {
            assert(m0.free + addrs(m0.pending).take(0) =~= m0.free);
            assert(m0.pending.skip(0) =~= m0.pending);
        }
        while self.pending.len() > 0
            invariant
                m0.wf(),
                taken <= m0.pending.len(),
                self@ == (SocketModel {
                    free: m0.free + addrs(m0.pending).take(taken as int),
                    pending: m0.pending.skip(taken as int),
                    ..m0
                }),
                owned(self@) == owned(m0),
            decreases m0.pending.len() - taken,
        {
            let ghost before = self@;
            let d = self.pending.pop_front().unwrap();
            self.free.push(d.0);
            proof {
                lemma_addrs_drop_first(before.pending);
                lemma_multiset_drop_first(addrs(before.pending));
                assert(self@.free =~= m0.free + addrs(m0.pending).take((taken + 1) as int));
                assert(self@.pending =~= m0.pending.skip((taken + 1) as int));
                assert(owned(self@) =~= owned(before));
                taken = taken + 1;
            }
        }
        let ghost before = self@;
        self.fresh = false;
        proof {
            assert(owned(self@) =~= owned(before));
            assert(addrs(m0.pending).take(taken as int) =~= addrs(m0.pending));
            assert(self@.pending =~= Seq::<(u64, u32)>::empty());
        }
    }

    /// Claims at most one frame that the kernel has written from the receive
    /// ring into the pending deque. Returns how many it claimed.
    pub fn try_recv(&mut self) -> (k: usize)
        requires
            old(self)@.wf(),
        ensures
            final(self)@.wf(),
            old(self)@.rx.len() == 0 ==> k == 0 && final(self)@ == old(self)@,
            old(self)@.rx.len() > 0 ==> k == 1 && final(self)@ == old(self)@.claimed(),
    {
        let ghost m0 = self@;
        match self.rx.pop_front() {
            None => 0,
            Some(d) => {
                let ghost m1 = self@;
                let evicted = self.pending.push_back(d);
                match evicted {
                    None => {},
                    Some(e) => {
                        self.free.push(e.0);
                    },
                }
                proof {
                    lemma_addrs_drop_first(m0.rx);
                    lemma_multiset_drop_first(addrs(m0.rx));
                    lemma_addrs_push(m0.pending, d);
                    if m0.pending.len() >= PENDING_LEN {
                        lemma_addrs_drop_first(m0.pending);
                        lemma_multiset_drop_first(addrs(m0.pending));
                        lemma_addrs_push(m0.pending.drop_first(), d);
                    }
                    assert(self@ == m0.claimed());
                    assert(owned(self@) =~= owned(m0));
                    assert(lens_fit(self@.pending, self@.frame_size));
                }
                1
            },
        }
    }

    /// Sets the data length of the first pending frame to `len`.
    fn set_front_len(&mut self, len: u32)
        requires
            old(self)@.wf(),
            old(self)@.pending.len() > 0,
            len <= old(self)@.frame_size,
        ensures
            final(self)@.wf(),
            final(self)@ == (SocketModel {
                pending: old(self)@.pending.update(0, (old(self)@.pending[0].0, len)),
                ..old(self)@
            }),
    {
        let ghost m0 = self@;
        let d = self.pending.pop_front().unwrap();
        let out = self.pending.push_front((d.0, len));
        proof {
            assert(out is None);
            assert(self@.pending =~= m0.pending.update(0, (d.0, len)));
            assert(addrs(self@.pending) =~= addrs(m0.pending));
            assert(owned(self@) =~= owned(m0));
            assert(lens_fit(self@.pending, self@.frame_size));
        }
    }

    /// Hands the first pending frame to the transmit ring when the ring has
    /// room. Returns how many it handed on.
    pub fn try_send(&mut self) -> (k: usize)
        requires
            old(self)@.wf(),
        ensures
            final(self)@.wf(),
            k == if old(self)@.can_send() {
                1usize
            } else {
                0usize
            },
            final(self)@ == old(self)@.sent(),
    {
        let ghost m0 = self@;
        if self.sends < u64::MAX {
            self.sends = self.sends + 1;
        }
        if self.pending.len() == 0 || self.tx.len() >= self.tx_cap {
            return 0;
        }
        let d = self.pending.pop_front().unwrap();
        self.tx.push_back(d);
        proof {
            lemma_addrs_drop_first(m0.pending);
            lemma_multiset_drop_first(addrs(m0.pending));
            lemma_addrs_push(m0.tx, d);
            assert(self@ == m0.sent());
            assert(owned(self@) =~= owned(m0));
        }
        1
    }

    /// The kernel side of the receive path: takes the first frame of the fill
    /// ring, writes `data` into it and puts it on the receive ring. Returns
    /// false, changing nothing, when the fill ring is empty.
    pub fn kernel_deliver(&mut self, data: &Vec<u8>) -> (ok: bool)
        requires
            old(self)@.wf(),
            data@.len() <= old(self)@.frame_size,
        ensures
            final(self)@.wf(),
            ok == (old(self)@.fill.len() > 0),
            !ok ==> final(self)@ == old(self)@,
            ok ==> final(self)@ == old(self)@.delivered(data@),
    {
        let ghost m0 = self@;
        if self.fill.len() == 0 {
            return false;
        }
        let a = self.fill.pop_front().unwrap();
        proof {
            assert(m0.fill.contains(a));
            lemma_held_in_area(m0, a);
        }
        let len: usize = data.len();
        self.write_frame(a, data, len);
        self.rx.push_back((a, len as u32));
        proof {
            assert(fit(data@, len as nat) =~= data@);
            lemma_multiset_drop_first(m0.fill);
            lemma_addrs_push(m0.rx, (a, len as u32));
            assert(owned(self@) =~= owned(m0));
            assert(lens_fit(self@.rx, self@.frame_size));
        }
        true
    }

    /// The kernel side of the transmit path: sends the first frame of the
    /// transmit ring, returning its data, and puts it on the completion ring.
    pub fn kernel_transmit(&mut self) -> (r: Option<Vec<u8>>)
        requires
            old(self)@.wf(),
        ensures
            final(self)@.wf(),
            old(self)@.tx.len() == 0 ==> r is None && final(self)@ == old(self)@,
            old(self)@.tx.len() > 0 ==> {
                let d = old(self)@.tx[0];
                &&& r is Some
                &&& r.unwrap()@ == old(self)@.frame_data(d.0, d.1 as nat)
                &&& final(self)@ == (SocketModel {
                    tx: old(self)@.tx.drop_first(),
                    completion: old(self)@.completion.push(d.0),
                    ..old(self)@
                })
            },
    {
        let ghost m0 = self@;
        match self.tx.pop_front() {
            None => None,
            Some(d) => {
                proof {
                    lemma_addrs_drop_first(m0.tx);
                    assert(addrs(m0.tx).contains(d.0));
                    lemma_held_in_area(m0, d.0);
                    assert(lens_fit(m0.tx, m0.frame_size) && m0.tx[0].1 <= m0.frame_size);
                }
                let bytes = self.read_frame(d.0, d.1);
                self.completion.push_back(d.0);
                proof {
                    lemma_multiset_drop_first(addrs(m0.tx));
                    assert(owned(self@) =~= owned(m0));
                }
                Some(bytes)
            },
        }
    }

    /// What the device reports: its MTU.
    pub fn capabilities(&self) -> (r: DeviceCapabilities)
        ensures
            r.max_transmission_unit == self@.mtu,
    {
        DeviceCapabilities { max_transmission_unit: self.mtu }
    }

    /// One receive step: services at most one completion, then claims at
    /// most one frame from the receive ring. With a frame, releases the
    /// frames left pending from earlier cycles and returns a copy of the new
    /// frame's bytes and a token to reply through it; with none, wakes the
    /// kernel if it asked and returns `None`.
    pub fn receive(&mut self) -> (r: Option<(RxToken, TxToken)>)
        requires
            old(self)@.wf(),
        ensures
            final(self)@.wf(),
            final(self)@ == old(self)@.received(),
            old(self)@.rx.len() == 0 ==> r is None,
            old(self)@.rx.len() > 0 ==> r is Some && r.unwrap().0@ == old(self)@.frame_data(
                old(self)@.rx[0].0,
                old(self)@.rx[0].1 as nat,
            ),
    {
        let ghost m0 = self@;
        self.service_completion(1);
        let ghost m1 = self@;
        let k = self.try_recv();
        if k == 0 {
            if self.needs_wakeup && self.wakes < u64::MAX {
                self.wakes = self.wakes + 1;
            }
            self.fresh = false;
            assert(owned(self@) =~= owned(m1));
            return None;
        }
        self.release_stale();
        self.fresh = true;
        proof {
            assert(owned(self@) =~= owned(m1.claimed().released_stale()));
            assert(self@.pending =~= seq![m1.rx[0]]) by {
                if m1.pending.len() < PENDING_LEN {
                    assert(m1.claimed().pending.last() == m1.rx[0]);
                } else {
                    assert(m1.claimed().pending.last() == m1.rx[0]);
                }
            }
        }
        let d = self.pending.front().unwrap();
        proof {
            lemma_addrs_drop_first(self@.pending);
            assert(addrs(self@.pending).contains(d.0));
            lemma_held_in_area(self@, d.0);
        }
        let buffer = self.read_frame(d.0, d.1);
        Some((RxToken { buffer }, TxToken {}))
    }

    /// Releases every pending frame but the newest, oldest first, onto the
    /// fill ring while it has room and to the pool after that.
    fn release_stale(&mut self)
        requires
            old(self)@.wf(),
            old(self)@.pending.len() > 0,
        ensures
            final(self)@.wf(),
            final(self)@ == old(self)@.released_stale(),
    {
        let ghost m0 = self@;
        let ghost a = addrs(m0.pending);
        let ghost room: int = m0.fill_cap - m0.fill.len();
        let k: usize = self.pending.len() - 1;
        proof {
            assert(m0.fill + a.take(0) =~= m0.fill);
            assert(m0.free + a.subrange(0, 0) =~= m0.free);
            assert(m0.pending.skip(0) =~= m0.pending);
        }
        let mut i: usize = 0;
        while i < k
            invariant
                0 <= i <= k,
                k == m0.pending.len() - 1,
                a == addrs(m0.pending),
                room == m0.fill_cap - m0.fill.len(),
                m0.wf(),
                self@ == (SocketModel {
                    fill: m0.fill + a.take(vstd::math::min(i as int, room)),
                    free: m0.free + a.subrange(vstd::math::min(i as int, room), i as int),
                    pending: m0.pending.skip(i as int),
                    ..m0
                }),
                owned(self@) == owned(m0),
            decreases k - i,
        {
            let ghost before = self@;
            let d = self.pending.pop_front().unwrap();
            proof {
                lemma_addrs_drop_first(before.pending);
                lemma_multiset_drop_first(addrs(before.pending));
                assert(addrs(before.pending) =~= a.skip(i as int));
                assert(d.0 == a[i as int]);
            }
            if self.fill.len() < self.fill_cap {
                self.fill.push_back(d.0);
                proof {
                    assert(self@.fill =~= m0.fill + a.take(vstd::math::min(i + 1, room)));
                    assert(self@.free =~= m0.free + a.subrange(
                        vstd::math::min(i + 1, room),
                        i + 1,
                    ));
                }
            } else {
                self.free.push(d.0);
                proof {
                    assert(self@.fill =~= m0.fill + a.take(vstd::math::min(i + 1, room)));
                    assert(self@.free =~= m0.free + a.subrange(
                        vstd::math::min(i + 1, room),
                        i + 1,
                    ));
                }
            }
            proof {
                assert(self@.pending =~= m0.pending.skip(i + 1));
                assert(owned(self@) =~= owned(before));
            }
            i = i + 1;
        }
    }

    /// A token to send through; it checks for room only when consumed.
    pub fn transmit(&mut self) -> (r: Option<TxToken>)
        requires
            old(self)@.wf(),
        ensures
            final(self)@ == old(self)@,
            r is Some,
    {
        Some(TxToken {})
    }

    /// Frames in the pool.
    pub fn free_len(&self) -> (r: usize)
        ensures
            r == self@.free.len(),
    {
        self.free.len()
    }

    /// Frames on the fill ring.
    pub fn fill_len(&self) -> (r: usize)
        ensures
            r == self@.fill.len(),
    {
        self.fill.len()
    }

    /// Frames on the receive ring.
    pub fn rx_len(&self) -> (r: usize)
        ensures
            r == self@.rx.len(),
    {
        self.rx.len()
    }

    /// Frames in the pending deque.
    pub fn pending_len(&self) -> (r: usize)
        ensures
            r == self@.pending.len(),
    {
        self.pending.len()
    }

    /// Frames on the transmit ring.
    pub fn tx_len(&self) -> (r: usize)
        ensures
            r == self@.tx.len(),
    {
        self.tx.len()
    }

    /// Frames on the completion ring.
    pub fn completion_len(&self) -> (r: usize)
        ensures
            r == self@.completion.len(),
    {
        self.completion.len()
    }

    /// How many send attempts were made.
    pub fn send_count(&self) -> (r: u64)
        ensures
            r == self@.sends,
    {
        self.sends
    }

    /// How many times the kernel was woken.
    pub fn wake_count(&self) -> (r: u64)
        ensures
            r == self@.wakes,
    {
        self.wakes
    }

    /// Frames in the area.
    pub fn frame_count(&self) -> (r: usize)
        ensures
            r == self@.frame_count,
    {
        self.frame_count
    }

    /// Bytes in each frame.
    pub fn frame_size(&self) -> (r: usize)
        ensures
            r == self@.frame_size,
    {
        self.frame_size
    }

    /// The name of the network interface.
    pub fn name(&self) -> (r: &str)
        ensures
            r@ == self@.name,
    {
        self.name.as_str()
    }

    /// The kernel sets or clears its request to be woken.
    pub fn set_needs_wakeup(&mut self, flag: bool)
        requires
            old(self)@.wf(),
        ensures
            final(self)@.wf(),
            final(self)@ == (SocketModel { needs_wakeup: flag, ..old(self)@ }),
    {
        self.needs_wakeup = flag;
        assert(owned(self@) =~= owned(old(self)@));
    }
}

} // verus!
