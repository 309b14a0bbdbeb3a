//! Reading and writing unsigned integers as little- and big-endian bytes.
use vstd::prelude::*;

verus! {

/// The number whose little-endian representation is `bytes`.
pub open spec fn le_value(bytes: Seq<u8>) -> nat
    decreases bytes.len(),
{
    if bytes.len() == 0 {
        0
    } else {
        bytes[0] as nat + 256 * le_value(bytes.drop_first())
    }
}

/// The `n` least significant bytes of `v`, most significant first.
pub open spec fn be_bytes(v: nat, n: nat) -> Seq<u8>
    decreases n,
{
    if n == 0 {
        Seq::empty()
    } else {
        be_bytes(v / 256, (n - 1) as nat).push((v % 256) as u8)
    }
}

/// The `n` least significant bytes of `v`, least significant first.
pub open spec fn le_bytes(v: nat, n: nat) -> Seq<u8>
    decreases n,
{
    if n == 0 {
        Seq::empty()
    } else {
        seq![(v % 256) as u8] + le_bytes(v / 256, (n - 1) as nat)
    }
}

/// `256^n`.
pub open spec fn pow256(n: nat) -> nat
    decreases n,
{
    if n == 0 {
        1
    } else {
        256 * pow256((n - 1) as nat)
    }
}

pub proof fn lemma_be_bytes_len(v: nat, n: nat)
    ensures
        be_bytes(v, n).len() == n,
    decreases n,
{
    if n > 0 {
        lemma_be_bytes_len(v / 256, (n - 1) as nat);
    }
}

pub proof fn lemma_le_bytes_len(v: nat, n: nat)
    ensures
        le_bytes(v, n).len() == n,
    decreases n,
{
    if n > 0 {
        lemma_le_bytes_len(v / 256, (n - 1) as nat);
    }
}

pub proof fn lemma_le_value_bound(bytes: Seq<u8>)
    ensures
        le_value(bytes) < pow256(bytes.len()),
    decreases bytes.len(),
{
    if bytes.len() > 0 {
        lemma_le_value_bound(bytes.drop_first());
    }
}

/// Reading back little-endian bytes gives the number modulo `256^n`.
pub proof fn lemma_le_value_of_le_bytes(v: nat, n: nat)
    ensures
        le_value(le_bytes(v, n)) == v % pow256(n),
    decreases n,
{
    if n > 0 {
        lemma_le_bytes_len(v, n);
        let rest = le_bytes(v / 256, (n - 1) as nat);
        assert(le_bytes(v, n).drop_first() =~= rest);
        lemma_le_value_of_le_bytes(v / 256, (n - 1) as nat);
        assert(pow256(n) == 256 * pow256((n - 1) as nat));
        lemma_pow256_pos((n - 1) as nat);
        vstd::arithmetic::div_mod::lemma_mod_breakdown(v as int, 256, pow256((n - 1) as nat) as int);
    }
}

pub proof fn lemma_pow256_pos(n: nat)
    ensures
        pow256(n) > 0,
    decreases n,
{
    if n > 0 {
        lemma_pow256_pos((n - 1) as nat);
    }
}

pub proof fn lemma_pow256_values()
    ensures
        pow256(2) == 0x1_0000,
        pow256(4) == 0x1_0000_0000,
        pow256(8) == 0x1_0000_0000_0000_0000,
{
    reveal_with_fuel(pow256, 9);
}

/// Reads the little-endian number held by the `n` bytes of `bytes` that start at `start`.
fn read_le(bytes: &[u8], start: usize, n: usize) -> (v: u64)
    requires
        n <= 8,
        start + n <= bytes@.len(),
    ensures
        v as nat == le_value(bytes@.subrange(start as int, start + n)),
{
    let len = bytes.len();
    let mut acc: u64 = 0;
    let mut i: usize = n;
    proof {
        lemma_pow256_values();
        assert(bytes@.subrange(start + n, start + n) =~= Seq::<u8>::empty());
    }
    while i > 0
        invariant
            i <= n <= 8,
            start + n <= bytes@.len(),
            len == bytes@.len(),
            acc as nat == le_value(bytes@.subrange(start + i, start + n)),
            pow256(8) == 0x1_0000_0000_0000_0000,
        decreases i,
    {
        i = i - 1;
        let ghost tail = bytes@.subrange(start + i + 1, start + n);
        proof {
            assert(bytes@.subrange(start + i, start + n).drop_first() =~= tail);
            lemma_le_value_bound(tail);
            lemma_pow256_monotone(tail.len(), 7);
        }
        acc = 256 * acc + bytes[start + i] as u64;
    }
    acc
}

proof fn lemma_pow256_monotone(a: nat, b: nat)
    requires
        a <= b,
    ensures
        pow256(a) <= pow256(b),
    decreases b,
{
    if a < b {
        lemma_pow256_monotone(a, (b - 1) as nat);
        lemma_pow256_pos((b - 1) as nat);
    }
}

/// Reads a little-endian `u16` from the two bytes at `start`.
pub fn read_le_u16(bytes: &[u8], start: usize) -> (v: u16)
    requires
        start + 2 <= bytes@.len(),
    ensures
        v as nat == le_value(bytes@.subrange(start as int, start + 2)),
{
    proof {
        lemma_le_value_bound(bytes@.subrange(start as int, start + 2));
        lemma_pow256_values();
    }
    read_le(bytes, start, 2) as u16
}

/// Reads a little-endian `u64` from the eight bytes at `start`.
pub fn read_le_u64(bytes: &[u8], start: usize) -> (v: u64)
    requires
        start + 8 <= bytes@.len(),
    ensures
        v as nat == le_value(bytes@.subrange(start as int, start + 8)),
{
    read_le(bytes, start, 8)
}

/// Appends the `n` least significant bytes of `v`, most significant first.
pub fn push_be(out: &mut Vec<u8>, v: u64, n: usize)
    ensures
        final(out)@ == old(out)@ + be_bytes(v as nat, n as nat),
    decreases n,
{
    if n == 0 {
        assert(old(out)@ + be_bytes(v as nat, 0) =~= old(out)@);
    } else {
        push_be(out, v / 256, n - 1);
        out.push((v % 256) as u8);
        assert(out@ =~= old(out)@ + be_bytes(v as nat, n as nat));
    }
}

/// Appends the `n` least significant bytes of `v`, least significant first.
pub fn push_le(out: &mut Vec<u8>, v: u64, n: usize)
    ensures
        final(out)@ == old(out)@ + le_bytes(v as nat, n as nat),
    decreases n,
{
    if n == 0 {
        assert(old(out)@ + le_bytes(v as nat, 0) =~= old(out)@);
    } else {
        out.push((v % 256) as u8);
        push_le(out, v / 256, n - 1);
        assert(out@ =~= old(out)@ + le_bytes(v as nat, n as nat));
    }
}

} // verus!
