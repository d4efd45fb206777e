//! Fields inside byte sequences.
//!
//! Every multi-byte integer field of the message formats is stored
//! little-endian: the first byte is the least significant one.

use vstd::prelude::*;

verus! {

/// 256 to the power `n`: the number of values that `n` bytes can hold.
pub open spec fn pow256(n: nat) -> nat
    decreases n,
{
    if n == 0 {
        1
    } else {
        256 * pow256((n - 1) as nat)
    }
}

/// The number that the bytes of `s` stand for, read little-endian.
pub open spec fn le_value(s: Seq<u8>) -> nat
    decreases s.len(),
{
    if s.len() == 0 {
        0
    } else {
        s[0] as nat + 256 * le_value(s.drop_first())
    }
}

/// The `n` least significant bytes of `v`, least significant first.
pub open spec fn le_bytes(v: nat, n: nat) -> Seq<u8>
    decreases n,
{
    if n == 0 {
        Seq::empty()
    } else {
        seq![(v % 256) as u8] + le_bytes(v / 256, (n - 1) as nat)
    }
}

/// The powers of 256 that the formats use.
pub proof fn lemma_pow256_values()
    ensures
        pow256(0) == 1,
        pow256(1) == 0x100,
        pow256(2) == 0x1_0000,
        pow256(3) == 0x100_0000,
        pow256(4) == 0x1_0000_0000,
        pow256(5) == 0x100_0000_0000,
        pow256(6) == 0x1_0000_0000_0000,
        pow256(7) == 0x100_0000_0000_0000,
        pow256(8) == 0x1_0000_0000_0000_0000,
{
    reveal_with_fuel(pow256, 9);
}

/// `pow256` grows with its exponent.
pub proof fn lemma_pow256_mono(a: nat, b: nat)
    requires
        a <= b,
    ensures
        1 <= pow256(a) <= pow256(b),
    decreases b,
{
    if b > a {
        lemma_pow256_mono(a, (b - 1) as nat);
    } else if b > 0 {
        lemma_pow256_mono(0, (b - 1) as nat);
    }
}

/// `le_bytes(v, n)` holds `n` bytes.
pub proof fn lemma_le_bytes_len(v: nat, n: nat)
    ensures
        le_bytes(v, n).len() == n,
    decreases n,
{
    if n > 0 {
        lemma_le_bytes_len(v / 256, (n - 1) as nat);
    }
}

/// A little-endian value of `n` bytes is below `256^n`.
pub proof fn lemma_le_value_bound(s: Seq<u8>)
    ensures
        le_value(s) < pow256(s.len()),
    decreases s.len(),
{
    if s.len() > 0 {
        lemma_le_value_bound(s.drop_first());
    }
}

/// Reading back `n` written bytes gives the value modulo `256^n`.
pub proof fn lemma_le_value_of_bytes(v: nat, n: nat)
    ensures
        le_value(le_bytes(v, n)) == v % pow256(n),
    decreases n,
{
    if n > 0 {
        let rest = le_bytes(v / 256, (n - 1) as nat);
        lemma_le_value_of_bytes(v / 256, (n - 1) as nat);
        assert((seq![(v % 256) as u8] + rest).drop_first() =~= rest);
        lemma_pow256_mono(0, (n - 1) as nat);
        vstd::arithmetic::div_mod::lemma_mod_breakdown(v as int, 256, pow256((n - 1) as nat) as int);
        assert(256 * pow256((n - 1) as nat) == pow256(n));
    } else {
        assert(v % 1 == 0);
    }
}

/// Writing the value of a byte sequence back gives the same bytes.
pub proof fn lemma_le_bytes_of_value(s: Seq<u8>)
    ensures
        le_bytes(le_value(s), s.len()) == s,
    decreases s.len(),
{
    if s.len() > 0 {
        let r = le_value(s.drop_first());
        lemma_le_bytes_of_value(s.drop_first());
        let v = s[0] as nat + 256 * r;
        assert(v % 256 == s[0] as nat && v / 256 == r) by {
            vstd::arithmetic::div_mod::lemma_fundamental_div_mod_converse(
                v as int,
                256,
                r as int,
                s[0] as int,
            );
        }
        assert(le_bytes(v, s.len()) =~= s);
    }
}

/// A value below `256^n` survives being written in `n` bytes and read back.
pub proof fn lemma_le_roundtrip(v: nat, n: nat)
    requires
        v < pow256(n),
    ensures
        le_value(le_bytes(v, n)) == v,
        le_bytes(v, n).len() == n,
{
    lemma_le_value_of_bytes(v, n);
    lemma_le_bytes_len(v, n);
    vstd::arithmetic::div_mod::lemma_small_mod(v, pow256(n));
}

/// Appends the `n` least significant bytes of `v` to `out`.
pub fn push_le(out: &mut Vec<u8>, v: u64, n: usize)
    requires
        n <= 8,
    ensures
        final(out)@ == old(out)@ + le_bytes(v as nat, n as nat),
{
    let mut x: u64 = v;
    let mut i: usize = 0;
    while i < n
        invariant
            i <= n,
            out@ + le_bytes(x as nat, (n - i) as nat) == old(out)@ + le_bytes(v as nat, n as nat),
        decreases n - i,
    {
        let ghost before = out@;
        let ghost k = (n - i) as nat;
        out.push((x % 256) as u8);
        assert(le_bytes(x as nat, k) == seq![(x % 256) as u8] + le_bytes((x / 256) as nat, (k - 1) as nat));
        assert(out@ + le_bytes((x / 256) as nat, (k - 1) as nat) =~= before + le_bytes(x as nat, k));
        x = x / 256;
        i = i + 1;
    }
}

/// Writes the `n` least significant bytes of `v` into `buf` from `off` on.
pub fn write_le(buf: &mut [u8], off: usize, v: u64, n: usize)
    requires
        n <= 8,
        off + n <= old(buf)@.len(),
    ensures
        final(buf)@ == old(buf)@.take(off as int) + le_bytes(v as nat, n as nat) + old(buf)@.skip(
            off + n,
        ),
        final(buf)@.len() == old(buf)@.len(),
{
    proof {
        lemma_le_bytes_len(v as nat, n as nat);
    }
    let len = buf.len();
    let mut x: u64 = v;
    let mut i: usize = 0;
    while i < n
        invariant
            i <= n,
            len == buf@.len(),
            off + n <= buf@.len(),
            buf@.len() == old(buf)@.len(),
            le_bytes(v as nat, n as nat).len() == n,
            buf@.take((off + i) as int) + le_bytes(x as nat, (n - i) as nat) == old(buf)@.take(
                off as int,
            ) + le_bytes(v as nat, n as nat),
            buf@.skip((off + i) as int) =~= old(buf)@.skip((off + i) as int),
        decreases n - i,
    {
        let ghost before = buf@;
        let ghost k = (n - i) as nat;
        buf[off + i] = (x % 256) as u8;
        assert(le_bytes(x as nat, k) == seq![(x % 256) as u8] + le_bytes((x / 256) as nat, (k - 1) as nat));
        assert(buf@.take((off + i + 1) as int) =~= before.take((off + i) as int).push((x % 256) as u8));
        assert(buf@.take((off + i + 1) as int) + le_bytes((x / 256) as nat, (k - 1) as nat)
            =~= before.take((off + i) as int) + le_bytes(x as nat, k));
        assert forall|k: int| 0 <= k < buf@.skip((off + i + 1) as int).len() implies
            #[trigger] buf@.skip((off + i + 1) as int)[k] == old(buf)@.skip((off + i + 1) as int)[k] by {
            assert(before.skip((off + i) as int)[k + 1] == old(buf)@.skip((off + i) as int)[k + 1]);
        }
        assert(buf@.skip((off + i + 1) as int) =~= old(buf)@.skip((off + i + 1) as int));
        x = x / 256;
        i = i + 1;
    }
    assert(buf@ =~= buf@.take((off + n) as int) + buf@.skip((off + n) as int));
}

/// Reads `n` bytes of `s` from `off` on as a little-endian number.
pub fn read_le(s: &[u8], off: usize, n: usize) -> (v: u64)
    requires
        n <= 8,
        off + n <= s@.len(),
    ensures
        v as nat == le_value(s@.subrange(off as int, off + n)),
{
    proof {
        lemma_pow256_values();
    }
    let len = s.len();
    let mut acc: u64 = 0;
    let mut i: usize = n;
    while i > 0
        invariant
            i <= n <= 8,
            len == s@.len(),
            off + n <= s@.len(),
            acc as nat == le_value(s@.subrange(off + i, off + n)),
            acc < pow256((n - i) as nat),
            pow256(8) == 0x1_0000_0000_0000_0000,
        decreases i,
    {
        i = i - 1;
        proof {
            lemma_pow256_mono((n - i) as nat, 8);
            assert(s@.subrange(off + i, off + n).drop_first() =~= s@.subrange(off + i + 1, off + n));
            assert(pow256((n - i) as nat) == 256 * pow256((n - i - 1) as nat));
        }
        acc = acc * 256 + s[off + i] as u64;
    }
    acc
}

/// The bytes of `s` from `from` on; none when `from` is past its end.
pub fn tail(s: &[u8], from: usize) -> (t: &[u8])
    ensures
        t@ == if from <= s@.len() {
            s@.skip(from as int)
        } else {
            Seq::<u8>::empty()
        },
{
    let n = s.len();
    if from <= n {
        vstd::slice::slice_subrange(s, from, n)
    } else {
        vstd::slice::slice_subrange(s, n, n)
    }
}

/// Copies `src` into `dst` from `off` on.
pub fn copy_into(dst: &mut Vec<u8>, off: usize, src: &[u8])
    requires
        off + src@.len() <= old(dst)@.len(),
    ensures
        final(dst)@ == old(dst)@.take(off as int) + src@ + old(dst)@.skip(off + src@.len()),
        final(dst)@.len() == old(dst)@.len(),
{
    let n = src.len();
    let len = dst.len();
    let mut i: usize = 0;
    while i < n
        invariant
            i <= n,
            n == src@.len(),
            len == dst@.len(),
            len == old(dst)@.len(),
            off + n <= len,
            dst@ =~= old(dst)@.take(off as int) + src@.take(i as int) + old(dst)@.skip(off + i),
        decreases n - i,
    {
        dst.set(off + i, src[i]);
        assert(src@.take(i + 1) =~= src@.take(i as int).push(src@[i as int]));
        i = i + 1;
    }
    assert(src@.take(n as int) =~= src@);
}

} // verus!
