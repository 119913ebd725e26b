//! The mathematical model of frame ownership: which frame addresses exist,
//! and the multiset of addresses held across the rings and the pool.

use vstd::prelude::*;

verus! {

broadcast use vstd::seq_lib::group_to_multiset_ensures;

/// The addresses of a sequence of descriptors.
pub open spec fn addrs(s: Seq<(u64, u32)>) -> Seq<u64> {
    s.map_values(|d: (u64, u32)| d.0)
}

/// `a` is the start of one of the `count` frames of `size` bytes.
pub open spec fn is_frame(a: u64, count: nat, size: nat) -> bool {
    size > 0 && (a as nat) % size == 0 && a < count * size
}

/// The addresses `0, size, 2 * size, ...` of the first `n` frames.
pub open spec fn frame_seq(n: nat, size: nat) -> Seq<u64> {
    Seq::new(n, |i: int| (i * size) as u64)
}

/// `w` cut or padded with zeros to exactly `len` bytes.
pub open spec fn fit(w: Seq<u8>, len: nat) -> Seq<u8> {
    Seq::new(len, |i: int| if i < w.len() { w[i] } else { 0u8 })
}

/// `area` with the bytes from `start` on replaced by `data`.
pub open spec fn splice(area: Seq<u8>, start: int, data: Seq<u8>) -> Seq<u8> {
    Seq::new(
        area.len(),
        |i: int| if start <= i < start + data.len() { data[i - start] } else { area[i] },
    )
}

pub proof fn lemma_addrs_push(s: Seq<(u64, u32)>, d: (u64, u32))
    ensures
        addrs(s.push(d)) == addrs(s).push(d.0),
{
    assert(addrs(s.push(d)) =~= addrs(s).push(d.0));
}

pub proof fn lemma_addrs_drop_first(s: Seq<(u64, u32)>)
    requires
        s.len() > 0,
    ensures
        addrs(s.drop_first()) == addrs(s).drop_first(),
        addrs(s)[0] == s[0].0,
        addrs(s).len() == s.len(),
{
    assert(addrs(s.drop_first()) =~= addrs(s).drop_first());
}

pub proof fn lemma_multiset_drop_first<A>(s: Seq<A>)
    requires
        s.len() > 0,
    ensures
        s.to_multiset() == s.drop_first().to_multiset().insert(s[0]),
{
    assert(s.drop_first() =~= s.remove(0));
    assert(s.drop_first().to_multiset().insert(s[0]) =~= s.to_multiset());
}

pub proof fn lemma_multiset_pop<A>(s: Seq<A>)
    requires
        s.len() > 0,
    ensures
        s.to_multiset() == s.drop_last().to_multiset().insert(s.last()),
{
    assert(s =~= s.drop_last().push(s.last()));
}

/// A frame start leaves room for a whole frame inside the area.
pub proof fn lemma_frame_bounds(a: u64, count: nat, size: nat)
    requires
        is_frame(a, count, size),
    ensures
        a + size <= count * size,
{
    let x = a as nat;
    let k = x / size;
    assert(x == k * size) by (nonlinear_arith)
        requires
            size > 0,
            x % size == 0,
            k == x / size,
    ;
    assert(k < count) by (nonlinear_arith)
        requires
            x == k * size,
            x < count * size,
            size > 0,
    ;
    assert(k * size + size <= count * size) by (nonlinear_arith)
        requires
            k < count,
            size > 0,
    ;
}

/// The first `j` items taken from the back of `s`, in the order taken.
pub open spec fn popped<A>(s: Seq<A>, j: nat) -> Seq<A> {
    Seq::new(j, |i: int| s[s.len() - 1 - i])
}

/// The frames below `(i + 1) * size` are those below `i * size` and frame `i`.
pub proof fn lemma_is_frame_step(a: u64, i: nat, size: nat)
    requires
        size > 0,
    ensures
        is_frame(a, i + 1, size) <==> (is_frame(a, i, size) || a == i * size),
{
    let x = a as nat;
    let k = x / size;
    assert(x == k * size + x % size) by (nonlinear_arith)
        requires
            size > 0,
            k == x / size,
    ;
    assert((i + 1) * size == i * size + size) by (nonlinear_arith);
    if x % size == 0 {
        if x < (i + 1) * size && x >= i * size {
            assert(k >= i) by (nonlinear_arith)
                requires
                    x == k * size,
                    x >= i * size,
                    size > 0,
            ;
            assert(k <= i) by (nonlinear_arith)
                requires
                    x == k * size,
                    x < i * size + size,
                    size > 0,
            ;
            assert(x == i * size) by (nonlinear_arith)
                requires
                    x == k * size,
                    k == i,
            ;
        }
    }
    if x == i * size {
        assert(x % size == 0) by (nonlinear_arith)
            requires
                x == i * size,
                size > 0,
        ;
    }
}

} // verus!
