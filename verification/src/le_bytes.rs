//! Little-endian byte encoding of unsigned values, and the two's-complement
//! mapping that carries signed values into it.
//!
//! A value is laid out least-significant byte first; the functional
//! specifications below are the reference for every binary chunk the codec
//! reads or writes.

use vstd::prelude::*;

verus! {

/// `256^width`: one more than the largest value `width` bytes can hold.
pub open spec fn pow256(width: nat) -> int
    decreases width,
{
    if width == 0 {
        1
    } else {
        256 * pow256((width - 1) as nat)
    }
}

/// The `width` little-endian bytes of the unsigned value `v`.
pub open spec fn le_bytes(v: int, width: nat) -> Seq<u8>
    decreases width,
{
    if width == 0 {
        Seq::empty()
    } else {
        seq![(v % 256) as u8] + le_bytes(v / 256, (width - 1) as nat)
    }
}

/// The unsigned value the little-endian byte sequence `b` denotes.
pub open spec fn from_le(b: Seq<u8>) -> int
    decreases b.len(),
{
    if b.len() == 0 {
        0
    } else {
        b[0] + 256 * from_le(b.drop_first())
    }
}

/// The unsigned representative of a (possibly negative) value modulo `m`:
/// two's complement when `m` is the kind's modulus.
pub open spec fn wrap(n: int, m: int) -> int {
    if n < 0 {
        n + m
    } else {
        n
    }
}

/// The signed reading of an unsigned representative `u` modulo `m`.
pub open spec fn unwrap(u: int, m: int) -> int {
    if u >= m / 2 {
        u - m
    } else {
        u
    }
}

pub proof fn lemma_le_bytes_len(v: int, width: nat)
    ensures
        le_bytes(v, width).len() == width,
    decreases width,
{
    if width > 0 {
        lemma_le_bytes_len(v / 256, (width - 1) as nat);
    }
}

/// Decoding inverts encoding: the little-endian bytes of `v` denote `v`.
pub proof fn lemma_le_round_trip(v: int, width: nat)
    requires
        0 <= v < pow256(width),
    ensures
        from_le(le_bytes(v, width)) == v,
    decreases width,
{
    if width > 0 {
        assert(le_bytes(v, width).drop_first() =~= le_bytes(v / 256, (width - 1) as nat));
        lemma_le_round_trip(v / 256, (width - 1) as nat);
    }
}

pub proof fn lemma_from_le_bound(b: Seq<u8>)
    ensures
        0 <= from_le(b) < pow256(b.len()),
    decreases b.len(),
{
    if b.len() > 0 {
        lemma_from_le_bound(b.drop_first());
    }
}

/// Appends the `width` little-endian bytes of `v` to `out`.
pub fn push_le(out: &mut Vec<u8>, v: u64, width: usize)
    requires
        width <= 8,
        (v as int) < pow256(width as nat),
    ensures
        final(out)@ == old(out)@ + le_bytes(v as int, width as nat),
{
    let ghost v0: int = v as int;
    let ghost w0: nat = width as nat;
    let mut cur: u64 = v;
    let mut r: usize = width;
    while r > 0
        invariant
            r <= width <= 8,
            out@ + le_bytes(cur as int, r as nat) == old(out)@ + le_bytes(v0, w0),
        decreases r,
    {
        out.push((cur % 256) as u8);
        assert(le_bytes(cur as int, r as nat) =~= seq![(cur as int % 256) as u8] + le_bytes(
            cur as int / 256,
            (r - 1) as nat,
        ));
        assert(out@.drop_last() + le_bytes(cur as int, r as nat) =~= out@ + le_bytes(
            cur as int / 256,
            (r - 1) as nat,
        ));
        cur = cur / 256;
        r = r - 1;
    }
    assert(out@ + le_bytes(cur as int, 0) =~= out@);
}

/// Reads the unsigned value the `width`-byte little-endian slice `b` denotes.
pub fn u64_from_le(b: &[u8]) -> (r: u64)
    requires
        b@.len() <= 8,
    ensures
        r as int == from_le(b@),
{
    let mut acc: u64 = 0;
    let mut i: usize = b.len();
    while i > 0
        invariant
            i <= b@.len() <= 8,
            acc as int == from_le(b@.skip(i as int)),
            from_le(b@.skip(i as int)) < pow256((b@.len() - i) as nat),
        decreases i,
    {
        i = i - 1;
        proof {
            assert(b@.skip(i as int).drop_first() =~= b@.skip(i as int + 1));
            lemma_from_le_bound(b@.skip(i as int));
            lemma_pow256_mono((b@.len() - i - 1) as nat, 7);
            lemma_pow256_values();
        }
        acc = b[i] as u64 + 256 * acc;
    }
    assert(b@.skip(0) =~= b@);
    acc
}

/// Encoding inverts decoding: re-encoding the value a byte sequence denotes
/// gives the bytes back.
pub proof fn lemma_le_bytes_from_le(b: Seq<u8>)
    ensures
        le_bytes(from_le(b), b.len()) == b,
    decreases b.len(),
{
    if b.len() > 0 {
        lemma_le_bytes_from_le(b.drop_first());
        lemma_from_le_bound(b.drop_first());
        assert(le_bytes(from_le(b), b.len()) =~= seq![(from_le(b) % 256) as u8] + le_bytes(
            from_le(b) / 256,
            (b.len() - 1) as nat,
        ));
        assert(from_le(b) % 256 == b[0] && from_le(b) / 256 == from_le(b.drop_first()));
        assert(le_bytes(from_le(b), b.len()) =~= b);
    } else {
        assert(le_bytes(from_le(b), b.len()) =~= b);
    }
}

pub proof fn lemma_pow256_pos(a: nat)
    ensures
        pow256(a) >= 1,
    decreases a,
{
    if a > 0 {
        lemma_pow256_pos((a - 1) as nat);
    }
}

pub proof fn lemma_pow256_mono(a: nat, b: nat)
    requires
        a <= b,
    ensures
        pow256(a) <= pow256(b),
    decreases b,
{
    lemma_pow256_pos(a);
    if a < b {
        lemma_pow256_mono(a, (b - 1) as nat);
    }
}

/// The concrete powers the codec's element widths use.
pub proof fn lemma_pow256_values()
    ensures
        pow256(1) == 0x100,
        pow256(2) == 0x10000,
        pow256(4) == 0x100000000,
        pow256(7) == 0x100000000000000,
        pow256(8) == 0x10000000000000000,
{
    reveal_with_fuel(pow256, 9);
}

} // verus!
