//! The fixed-header message format.
//!
//! A package is a 12-byte head followed by the body:
//!
//! `| package_id 2 bytes | idempotent 4 bytes | raw_len 4 bytes | head_code 1 byte | raw_code 1 byte | data |`
//!
//! Integers are little-endian. `raw_len` is the length of the whole package,
//! head included. `head_code` is `raw[0] ^ raw[9]`; `raw_code` is
//! `raw[0] ^ raw[raw_len - 1]`.

use crate::g::{Error, Result};
use crate::nw::wire::{
    copy_into, le_bytes, le_value, lemma_le_bytes_len, lemma_le_value_bound, lemma_pow256_values,
    read_le, write_le,
};
use bytes::BufMut;
use bytes::BytesMut;
use vstd::prelude::*;

verus! {

/// The outside growable byte buffer that packages are written into.
#[verifier::external_type_specification]
#[verifier::external_body]
pub struct ExBytesMut(BytesMut);

/// The bytes that a `BytesMut` holds.
pub uninterp spec fn bytes_mut_contents(b: BytesMut) -> Seq<u8>;

/// Appends `src` to `buf` with `BufMut::put` of the bytes crate, which copies
/// the bytes of the slice after those that the buffer holds. The buffer
/// panics when its length would pass `isize::MAX`; that is left out.
#[verifier::external_body]
fn put_bytes(buf: &mut BytesMut, src: &[u8])
    requires
        bytes_mut_contents(*old(buf)).len() + src@.len() <= isize::MAX,
    ensures
        bytes_mut_contents(*final(buf)) == bytes_mut_contents(*old(buf)) + src@,
{
    buf.put(src)
}

/// A new, empty buffer, from `BytesMut::new` of the bytes crate, which makes
/// a buffer of length 0 (`BytesMut::with_capacity(0)`).
#[verifier::external_body]
fn new_bytes_mut() -> (b: BytesMut)
    ensures
        bytes_mut_contents(b) == Seq::<u8>::empty(),
{
    BytesMut::new()
}

/// Length of the head.
pub const HEAD_SIZE: usize = 12;

/// Room that a new package has.
pub const DEFAULT_SIZE: usize = 4096;

/// The package_id field of a head.
pub open spec fn package_id_of(raw: Seq<u8>) -> nat {
    le_value(raw.subrange(0, 2))
}

/// The idempotent field of a head.
pub open spec fn idempotent_of(raw: Seq<u8>) -> nat {
    le_value(raw.subrange(2, 6))
}

/// The raw_len field of a head.
pub open spec fn raw_len_of(raw: Seq<u8>) -> nat {
    le_value(raw.subrange(6, 10))
}

/// The head code is right.
pub open spec fn head_code_ok(raw: Seq<u8>) -> bool {
    raw[0] ^ raw[9] == raw[10]
}

/// The raw code is right for a package of `n` bytes.
pub open spec fn raw_code_ok(raw: Seq<u8>, n: int) -> bool {
    raw[0] ^ raw[n - 1] == raw[11]
}

/// `s` is a whole sealed package: its head has ids greater than zero, its
/// raw_len is its length, and both codes are right.
pub open spec fn sealed(s: Seq<u8>) -> bool {
    &&& s.len() >= HEAD_SIZE
    &&& package_id_of(s) > 0
    &&& idempotent_of(s) > 0
    &&& raw_len_of(s) == s.len()
    &&& head_code_ok(s)
    &&& raw_code_ok(s, s.len() as int)
}

/// A package as plain values: its memory, and how much of it is filled.
pub struct PackageView {
    pub raw: Seq<u8>,
    pub raw_pos: usize,
}

impl PackageView {
    /// The memory holds a head, and the filled part fits in it.
    pub open spec fn wf(self) -> bool {
        self.raw.len() >= HEAD_SIZE && self.raw_pos <= self.raw.len()
    }
}

/// The smaller of two integers.
pub open spec fn min(a: int, b: int) -> int {
    if a < b {
        a
    } else {
        b
    }
}

/// `raw` grown with zeros to `n` bytes when it is shorter.
pub open spec fn grown(raw: Seq<u8>, n: nat) -> Seq<u8> {
    if raw.len() < n {
        raw + Seq::new((n - raw.len()) as nat, |i: int| 0u8)
    } else {
        raw
    }
}

/// What `Package::from_bytes` returns on `buf`, and the package after it.
///
/// Bytes of `buf` first complete the head; a completed head whose head code
/// is wrong, or whose package_id or idempotent is zero, is rejected. Once
/// the head is complete, bytes of `buf` that remain fill the package up to
/// its raw_len (the memory grows to it), and a package so completed whose
/// raw code is wrong is rejected. The result is how many bytes of `buf` were
/// taken.
pub open spec fn from_bytes_step(v: PackageView, buf: Seq<u8>) -> (Result<usize>, PackageView) {
    let hn = if v.raw_pos < HEAD_SIZE {
        min(HEAD_SIZE - v.raw_pos, buf.len() as int)
    } else {
        0
    };
    let raw1 = v.raw.take(v.raw_pos as int) + buf.take(hn) + v.raw.skip(v.raw_pos + hn);
    let pos1 = v.raw_pos + hn;
    if v.raw_pos < HEAD_SIZE && pos1 == HEAD_SIZE && !(head_code_ok(raw1) && package_id_of(raw1)
        > 0 && idempotent_of(raw1) > 0) {
        (Err(Error::PackHeadInvalid), PackageView { raw: raw1, raw_pos: pos1 as usize })
    } else if pos1 >= HEAD_SIZE && buf.len() > hn && pos1 < raw_len_of(raw1) {
        let rl = raw_len_of(raw1);
        let raw2 = grown(raw1, rl);
        let bn = min(rl - pos1, buf.len() - hn);
        let raw3 = raw2.take(pos1) + buf.subrange(hn, hn + bn) + raw2.skip(pos1 + bn);
        let pos3 = pos1 + bn;
        if pos3 == rl && !raw_code_ok(raw3, pos3) {
            (Err(Error::PackageInvalid), PackageView { raw: raw3, raw_pos: pos3 as usize })
        } else {
            (Ok((hn + bn) as usize), PackageView { raw: raw3, raw_pos: pos3 as usize })
        }
    } else {
        (Ok(hn as usize), PackageView { raw: raw1, raw_pos: pos1 as usize })
    }
}

/// The memory of a package after `check`: the head code is computed, then
/// the raw code over the first raw_len bytes.
pub open spec fn checked_raw(r: Seq<u8>) -> Seq<u8> {
    let r1 = r.update(10, r[0] ^ r[9]);
    r1.update(11, r1[0] ^ r1[raw_len_of(r) - 1])
}

/// Seal a package: a package with ids greater than zero and a body (raw_len
/// above the head, within its memory) is, after `check`, a sealed package
/// in its first raw_len bytes, and so reads back (`lemma_from_bytes_sealed`).
pub proof fn lemma_check_seals(r: Seq<u8>)
    requires
        r.len() >= HEAD_SIZE,
        package_id_of(r) > 0,
        idempotent_of(r) > 0,
        HEAD_SIZE < raw_len_of(r) <= r.len(),
    ensures
        sealed(checked_raw(r).take(raw_len_of(r) as int)),
{
    let n = raw_len_of(r) as int;
    let c = checked_raw(r);
    let t = c.take(n);
    assert(t.subrange(0, 2) =~= r.subrange(0, 2));
    assert(t.subrange(2, 6) =~= r.subrange(2, 6));
    assert(t.subrange(6, 10) =~= r.subrange(6, 10));
    assert(t[0] == r[0] && t[9] == r[9] && t[n - 1] == r[n - 1]);
}

/// The head fields of two byte sequences with the same first 12 bytes agree.
proof fn lemma_head_prefix(a: Seq<u8>, b: Seq<u8>)
    requires
        a.len() >= HEAD_SIZE,
        b.len() >= HEAD_SIZE,
        a.take(HEAD_SIZE as int) == b.take(HEAD_SIZE as int),
    ensures
        package_id_of(a) == package_id_of(b),
        idempotent_of(a) == idempotent_of(b),
        raw_len_of(a) == raw_len_of(b),
        head_code_ok(a) == head_code_ok(b),
        a[0] == b[0],
        a[11] == b[11],
{
    assert(forall|i: int| 0 <= i < 12 ==> a[i] == a.take(12)[i] && b[i] == b.take(12)[i]);
    assert(a.subrange(0, 2) =~= b.subrange(0, 2));
    assert(a.subrange(2, 6) =~= b.subrange(2, 6));
    assert(a.subrange(6, 10) =~= b.subrange(6, 10));
}

/// Read back a package from what `to_bytes` wrote: a package at the start
/// (nothing filled) given the bytes of a sealed package takes them all and
/// holds that package, complete.
pub proof fn lemma_from_bytes_sealed(q: PackageView, s: Seq<u8>)
    requires
        q.wf(),
        q.raw_pos == 0,
        sealed(s),
        s.len() <= usize::MAX,
    ensures
        from_bytes_step(q, s).0 == Ok::<usize, Error>(s.len() as usize),
        from_bytes_step(q, s).1.raw_pos == s.len(),
        from_bytes_step(q, s).1.raw.take(s.len() as int) == s,
        from_bytes_step(q, s).1.wf(),
{
    let l = s.len() as int;
    let raw1 = q.raw.take(0) + s.take(12) + q.raw.skip(12);
    assert(raw1.take(12) =~= s.take(12));
    lemma_head_prefix(raw1, s);
    if l > 12 {
        let raw2 = grown(raw1, l as nat);
        assert(raw2.take(12) =~= s.take(12));
        let raw3 = raw2.take(12) + s.subrange(12, l) + raw2.skip(l);
        assert(raw3.take(l) =~= s);
        assert(raw3[0] == s[0] && raw3[11] == s[11] && raw3[l - 1] == s[l - 1]);
    } else {
        assert(raw1.take(l) =~= s);
    }
}

/// The first part of a package delivered in two parts is taken whole.
proof fn lemma_from_bytes_first_part(q: PackageView, s: Seq<u8>, j: int)
    requires
        q.wf(),
        q.raw_pos == 0,
        sealed(s),
        s.len() <= usize::MAX,
        0 < j < s.len(),
    ensures
        from_bytes_step(q, s.take(j)).0 == Ok::<usize, Error>(j as usize),
        from_bytes_step(q, s.take(j)).1.wf(),
        from_bytes_step(q, s.take(j)).1.raw_pos == j,
        from_bytes_step(q, s.take(j)).1.raw.take(j) == s.take(j),
{
    let l = s.len() as int;
    let a = s.take(j);
    let hn = min(12, j);
    let raw1 = q.raw.take(0) + a.take(hn) + q.raw.skip(hn);
    assert(raw1.take(hn) =~= s.take(hn));
    if j >= 12 {
        assert(raw1.take(12) =~= s.take(12));
        lemma_head_prefix(raw1, s);
        if j > 12 {
            let raw2 = grown(raw1, l as nat);
            assert(raw2.take(12) =~= s.take(12));
            let raw3 = raw2.take(12) + a.subrange(12, j) + raw2.skip(j);
            assert(raw3.take(j) =~= a);
        }
    }
}

/// The second part of a package delivered in two parts completes it.
proof fn lemma_from_bytes_second_part(q1: PackageView, s: Seq<u8>, j: int)
    requires
        q1.wf(),
        q1.raw_pos == j,
        q1.raw.take(j) == s.take(j),
        sealed(s),
        s.len() <= usize::MAX,
        0 < j < s.len(),
    ensures
        from_bytes_step(q1, s.skip(j)).0 == Ok::<usize, Error>((s.len() - j) as usize),
        from_bytes_step(q1, s.skip(j)).1.raw_pos == s.len(),
        from_bytes_step(q1, s.skip(j)).1.raw.take(s.len() as int) == s,
{
    let l = s.len() as int;
    let b = s.skip(j);
    if j < 12 {
        let h = 12 - j;
        let raw1 = q1.raw.take(j) + b.take(h) + q1.raw.skip(j + h);
        assert(raw1.take(12) =~= s.take(12));
        lemma_head_prefix(raw1, s);
        if l > 12 {
            let raw2 = grown(raw1, l as nat);
            assert(raw2.take(12) =~= s.take(12));
            let raw3 = raw2.take(12) + b.subrange(h, h + (l - 12)) + raw2.skip(l);
            assert(raw3.take(l) =~= s);
            assert(raw3[0] == s[0] && raw3[11] == s[11] && raw3[l - 1] == s[l - 1]);
        } else {
            assert(raw1.take(l) =~= s);
        }
    } else {
        assert(q1.raw.take(12) =~= s.take(12)) by {
            assert(forall|i: int| 0 <= i < 12 ==> q1.raw.take(j)[i] == q1.raw[i] && s.take(j)[i]
                == s[i]);
        }
        lemma_head_prefix(q1.raw, s);
        let raw1 = q1.raw.take(j) + b.take(0) + q1.raw.skip(j);
        assert(raw1 =~= q1.raw);
        let raw2 = grown(q1.raw, l as nat);
        assert(raw2.take(j) =~= q1.raw.take(j));
        let raw3 = raw2.take(j) + b.subrange(0, l - j) + raw2.skip(l);
        assert(raw3.take(l) =~= s);
        assert(raw3[0] == s[0] && raw3[11] == s[11] && raw3[l - 1] == s[l - 1]);
    }
}

/// What `from_bytes` takes of a buffer: the count it returns is how far the
/// package advanced, those bytes are the start of the buffer placed after
/// what the package held (which stays), and it stops before the end of the
/// buffer only with the package complete: it never takes bytes past the
/// head and the raw_len that the head gives.
pub proof fn lemma_from_bytes_takes(v: PackageView, buf: Seq<u8>)
    requires
        v.wf(),
        0 < buf.len() <= usize::MAX,
    ensures
        from_bytes_step(v, buf).0 matches Ok(n) ==> {
            let w = from_bytes_step(v, buf).1;
            &&& n <= buf.len()
            &&& w.raw_pos == v.raw_pos + n
            &&& w.raw.take(v.raw_pos as int) == v.raw.take(v.raw_pos as int)
            &&& w.raw.subrange(v.raw_pos as int, w.raw_pos as int) == buf.take(n as int)
            &&& n > 0 ==> w.raw_pos <= HEAD_SIZE || w.raw_pos <= raw_len_of(w.raw)
            &&& n < buf.len() ==> w.raw_pos >= HEAD_SIZE && w.raw_pos >= raw_len_of(w.raw)
        },
{
    let p0 = v.raw_pos as int;
    let hn = if v.raw_pos < HEAD_SIZE {
        min(HEAD_SIZE - v.raw_pos, buf.len() as int)
    } else {
        0
    };
    let raw1 = v.raw.take(p0) + buf.take(hn) + v.raw.skip(p0 + hn);
    let pos1 = p0 + hn;
    assert(raw1.len() == v.raw.len());
    assert(raw1.take(p0) =~= v.raw.take(p0));
    assert(raw1.subrange(p0, pos1) =~= buf.take(hn));
    if v.raw_pos < HEAD_SIZE && pos1 == HEAD_SIZE && !(head_code_ok(raw1) && package_id_of(raw1)
        > 0 && idempotent_of(raw1) > 0) {
    } else if pos1 >= HEAD_SIZE && buf.len() > hn && pos1 < raw_len_of(raw1) {
        let rl = raw_len_of(raw1);
        let raw2 = grown(raw1, rl);
        let bn = min(rl - pos1, buf.len() - hn);
        let raw3 = raw2.take(pos1) + buf.subrange(hn, hn + bn) + raw2.skip(pos1 + bn);
        let pos3 = pos1 + bn;
        assert(raw2.len() >= rl);
        assert(raw2.take(pos1) =~= raw1.take(pos1));
        assert(raw3.take(p0) =~= v.raw.take(p0));
        assert(raw3.subrange(p0, pos3) =~= buf.take(hn + bn));
        assert(raw3.subrange(6, 10) =~= raw1.subrange(6, 10));
        assert(raw_len_of(raw3) == rl);
        lemma_pow256_values();
        lemma_le_value_bound(raw1.subrange(6, 10));
        assert(pos3 <= rl < 0x1_0000_0000);
        assert(from_bytes_step(v, buf).1 == PackageView { raw: raw3, raw_pos: pos3 as usize });
    } else {
        assert(from_bytes_step(v, buf).1 == PackageView { raw: raw1, raw_pos: pos1 as usize });
    }
}

/// Read a package from a stream: a package at the start given a sealed
/// package followed by any further bytes takes exactly the sealed
/// package's bytes, holds it, complete, and leaves the further bytes for
/// the next package.
pub proof fn lemma_from_bytes_stream(q: PackageView, s: Seq<u8>, t: Seq<u8>)
    requires
        q.wf(),
        q.raw_pos == 0,
        sealed(s),
        s.len() + t.len() <= usize::MAX,
    ensures
        from_bytes_step(q, s + t).0 == Ok::<usize, Error>(s.len() as usize),
        from_bytes_step(q, s + t).1.raw_pos == s.len(),
        from_bytes_step(q, s + t).1.raw.take(s.len() as int) == s,
        from_bytes_step(q, s + t).1.wf(),
{
    let l = s.len() as int;
    let b = s + t;
    assert(b.take(12) =~= s.take(12));
    let raw1 = q.raw.take(0) + b.take(12) + q.raw.skip(12);
    assert(raw1.take(12) =~= s.take(12));
    lemma_head_prefix(raw1, s);
    if l > 12 {
        let raw2 = grown(raw1, l as nat);
        assert(raw2.take(12) =~= s.take(12));
        let raw3 = raw2.take(12) + b.subrange(12, l) + raw2.skip(l);
        assert(b.subrange(12, l) =~= s.subrange(12, l));
        assert(raw3.take(l) =~= s);
        assert(raw3[0] == s[0] && raw3[11] == s[11] && raw3[l - 1] == s[l - 1]);
    } else {
        assert(raw1.take(l) =~= s);
    }
}

/// Read a package delivered in two parts: reading the first part and then
/// the second leaves the package holding the whole package, complete, each
/// part taken whole.
pub proof fn lemma_from_bytes_split(q: PackageView, s: Seq<u8>, j: int)
    requires
        q.wf(),
        q.raw_pos == 0,
        sealed(s),
        s.len() <= usize::MAX,
        0 < j < s.len(),
    ensures
        from_bytes_step(q, s.take(j)).0 == Ok::<usize, Error>(j as usize),
        from_bytes_step(from_bytes_step(q, s.take(j)).1, s.skip(j)).0 == Ok::<usize, Error>(
            (s.len() - j) as usize,
        ),
        from_bytes_step(from_bytes_step(q, s.take(j)).1, s.skip(j)).1.raw_pos == s.len(),
        from_bytes_step(from_bytes_step(q, s.take(j)).1, s.skip(j)).1.raw.take(s.len() as int)
            == s,
{
    lemma_from_bytes_first_part(q, s, j);
    lemma_from_bytes_second_part(from_bytes_step(q, s.take(j)).1, s, j);
}

/// Message package for network transfer, in the fixed-header format.
#[derive(Debug)]
pub struct Package {
    raw_pos: usize,
    raw: Vec<u8>,
}

impl View for Package {
    type V = PackageView;

    closed spec fn view(&self) -> PackageView {
        PackageView { raw: self.raw@, raw_pos: self.raw_pos }
    }
}

impl Package {
    /// The memory holds a head, and the filled part fits in it.
    pub open spec fn wf(&self) -> bool {
        self@.wf()
    }

    /// Creates an empty package with 4096 zero bytes of memory.
    pub fn new() -> (p: Package)
        ensures
            p.wf(),
            p@.raw_pos == 0,
            p@.raw == Seq::new(DEFAULT_SIZE as nat, |i: int| 0u8),
    {
        let raw = vec![0u8; DEFAULT_SIZE];
        assert(raw@ =~= Seq::new(DEFAULT_SIZE as nat, |i: int| 0u8));
        Package { raw, raw_pos: 0 }
    }

    /// Builds a sealed package from its fields.
    ///
    /// `package_id` and `idempotent` must be greater than zero. The raw_len
    /// field keeps the total length modulo 2^32, and a total that is a
    /// multiple of 2^32 is left out.
    pub fn with_params(package_id: u16, idempotent: u32, data: &[u8]) -> (p: Package)
        requires
            package_id > 0,
            idempotent > 0,
            data@.len() + HEAD_SIZE <= usize::MAX,
            ((data@.len() + HEAD_SIZE) as u32) != 0,
        ensures
            p.wf(),
            package_id_of(p@.raw) == package_id,
            idempotent_of(p@.raw) == idempotent,
            raw_len_of(p@.raw) == ((data@.len() + HEAD_SIZE) as u32),
            p@.raw_pos == raw_len_of(p@.raw),
            p@.raw.subrange(HEAD_SIZE as int, (HEAD_SIZE + data@.len()) as int) == data@,
            head_code_ok(p@.raw),
            0 < data@.len() && data@.len() + HEAD_SIZE <= u32::MAX ==> raw_code_ok(
                p@.raw,
                p@.raw_pos as int,
            ),
            0 < data@.len() && data@.len() + HEAD_SIZE <= u32::MAX ==> sealed(
                p@.raw.take(p@.raw_pos as int),
            ),
    {
        let mut res = Self::new();
        res.set_package_id(package_id);
        let ghost ra = res@.raw;
        res.set_idempotent(idempotent);
        let ghost rb = res@.raw;
        res.set_data(data);
        proof {
            let r = res@.raw;
            lemma_pow256_values();
            lemma_le_bytes_len(package_id as nat, 2);
            lemma_le_bytes_len(idempotent as nat, 4);
            lemma_le_bytes_len(((data@.len() + HEAD_SIZE) as u32) as nat, 4);
            assert(ra.subrange(0, 2) =~= le_bytes(package_id as nat, 2));
            assert(rb.subrange(0, 2) =~= ra.subrange(0, 2));
            assert(rb.subrange(2, 6) =~= le_bytes(idempotent as nat, 4));
            assert(r.subrange(0, 2) =~= rb.subrange(0, 2));
            assert(r.subrange(2, 6) =~= rb.subrange(2, 6));
            assert(r.subrange(6, 10) =~= le_bytes(((data@.len() + HEAD_SIZE) as u32) as nat, 4));
            crate::nw::wire::lemma_le_roundtrip(package_id as nat, 2);
            crate::nw::wire::lemma_le_roundtrip(idempotent as nat, 4);
            crate::nw::wire::lemma_le_roundtrip(((data@.len() + HEAD_SIZE) as u32) as nat, 4);
            lemma_pow256_values();
        }
        let ghost r1 = res@.raw;
        res.check();
        proof {
            let r = res@.raw;
            let n = res@.raw_pos as int;
            assert(r.subrange(0, 2) =~= r1.subrange(0, 2));
            assert(r.subrange(2, 6) =~= r1.subrange(2, 6));
            assert(r.subrange(6, 10) =~= r1.subrange(6, 10));
            assert(r.subrange(12, (HEAD_SIZE + data@.len()) as int) =~= r1.subrange(
                12,
                (HEAD_SIZE + data@.len()) as int,
            ));
            if 0 < data@.len() && data@.len() + HEAD_SIZE <= u32::MAX {
                let t = r.take(n);
                assert(t.subrange(0, 2) =~= r.subrange(0, 2));
                assert(t.subrange(2, 6) =~= r.subrange(2, 6));
                assert(t.subrange(6, 10) =~= r.subrange(6, 10));
                assert(t[0] == r[0] && t[9] == r[9] && t[10] == r[10] && t[11] == r[11] && t[n - 1]
                    == r[n - 1]);
            }
        }
        res
    }

    /// Empties the package: nothing of its memory counts as filled.
    pub fn reset(&mut self)
        requires
            old(self).wf(),
        ensures
            final(self).wf(),
            final(self)@ == (PackageView { raw_pos: 0, ..old(self)@ }),
    {
        self.raw_pos = 0;
    }

    /// Appends the filled part of the package to `buf`.
    pub fn to_bytes(&self, buf: &mut BytesMut)
        requires
            self.wf(),
            bytes_mut_contents(*old(buf)).len() + self@.raw_pos <= isize::MAX,
        ensures
            bytes_mut_contents(*final(buf)) == bytes_mut_contents(*old(buf)) + self@.raw.take(
                self@.raw_pos as int,
            ),
    {
        put_bytes(buf, vstd::slice::slice_subrange(self.raw.as_slice(), 0, self.raw_pos));
    }

    /// The filled part of the package, in a new buffer.
    pub fn to_bytes_mut(&self) -> (b: BytesMut)
        requires
            self.wf(),
            self@.raw_pos <= isize::MAX,
        ensures
            bytes_mut_contents(b) == self@.raw.take(self@.raw_pos as int),
    {
        let mut b = new_bytes_mut();
        self.to_bytes(&mut b);
        assert(Seq::<u8>::empty() + self@.raw.take(self@.raw_pos as int) =~= self@.raw.take(
            self@.raw_pos as int,
        ));
        b
    }

    /// Reads the package, or the next part of it, from `buf`; returns how
    /// many bytes of `buf` were taken. See `from_bytes_step`.
    ///
    /// `buf` must not be empty.
    #[verifier::rlimit(50)]
    #[verifier::spinoff_prover]
    pub fn from_bytes(&mut self, buf: &[u8]) -> (r: Result<usize>)
        requires
            old(self).wf(),
            buf@.len() > 0,
        ensures
            final(self).wf(),
            (r, final(self)@) == from_bytes_step(old(self)@, buf@),
    {
        let buf_len = buf.len();
        let mut buf_pos: usize = 0;

        // the head
        if self.raw_pos < HEAD_SIZE {
            let mut nleft = HEAD_SIZE - self.raw_pos;
            if buf_len < nleft {
                nleft = buf_len;
            }
            let part = vstd::slice::slice_subrange(buf, 0, nleft);
            copy_into(&mut self.raw, self.raw_pos, part);
            assert(part@ =~= buf@.take(nleft as int));
            self.raw_pos = self.raw_pos + nleft;
            buf_pos = buf_pos + nleft;
            if self.raw_pos == HEAD_SIZE {
                if self.raw[0] ^ self.raw[9] != self.head_code() || self.package_id() == 0
                    || self.idempotent() == 0 {
                    return Err(Error::PackHeadInvalid);
                }
            }
        }
        let ghost raw1 = self.raw@;
        assert(old(self)@.raw_pos >= HEAD_SIZE ==> old(self)@.raw.take(old(self)@.raw_pos as int)
            + buf@.take(0) + old(self)@.raw.skip(old(self)@.raw_pos as int) =~= raw1);

        // the body
        if self.raw_pos >= HEAD_SIZE {
            let raw_len = self.raw_len();
            if buf_len > buf_pos && self.raw_pos < raw_len {
                if self.raw.len() < raw_len {
                    self.raw.resize(raw_len, 0);
                }
                assert(self.raw@ =~= grown(raw1, raw_len as nat));
                let mut nleft = raw_len - self.raw_pos;
                let n = buf_len - buf_pos;
                if nleft > n {
                    nleft = n;
                }
                let part = vstd::slice::slice_subrange(buf, buf_pos, buf_pos + nleft);
                copy_into(&mut self.raw, self.raw_pos, part);
                assert(part@ =~= buf@.subrange(buf_pos as int, buf_pos + nleft));
                self.raw_pos = self.raw_pos + nleft;
                buf_pos = buf_pos + nleft;
                if self.raw_pos == raw_len && self.raw[0] ^ self.raw[self.raw_pos - 1]
                    != self.raw_code() {
                    return Err(Error::PackageInvalid);
                }
            }
        }
        Ok(buf_pos)
    }

    /// Seals the package: the filled part becomes raw_len bytes, and both
    /// codes are computed.
    ///
    /// package_id and idempotent must be greater than zero, and raw_len must
    /// be at least 1 and fit in the memory.
    pub fn check(&mut self)
        requires
            old(self).wf(),
            package_id_of(old(self)@.raw) > 0,
            idempotent_of(old(self)@.raw) > 0,
            1 <= raw_len_of(old(self)@.raw) <= old(self)@.raw.len(),
        ensures
            final(self).wf(),
            final(self)@.raw_pos == raw_len_of(old(self)@.raw),
            final(self)@.raw == checked_raw(old(self)@.raw),
    {
        self.raw_pos = self.raw_len();
        let hc = self.raw[0] ^ self.raw[9];
        self.raw.set(10, hc);
        let rc = self.raw[0] ^ self.raw[self.raw_pos - 1];
        self.raw.set(11, rc);
    }

    /// Whether the package is complete: package_id and idempotent greater
    /// than zero, and as many bytes filled as raw_len.
    pub fn valid(&self) -> (b: bool)
        requires
            self.wf(),
        ensures
            b == (package_id_of(self@.raw) > 0 && idempotent_of(self@.raw) > 0 && self@.raw_pos
                == raw_len_of(self@.raw)),
    {
        self.package_id() > 0 && self.idempotent() > 0 && self.raw_pos == self.raw_len()
    }

    /// Sets the package_id; the head counts as filled.
    ///
    /// `package_id` must be greater than zero.
    pub fn set_package_id(&mut self, package_id: u16)
        requires
            old(self).wf(),
            package_id > 0,
        ensures
            final(self).wf(),
            final(self)@.raw == le_bytes(package_id as nat, 2) + old(self)@.raw.skip(2),
            final(self)@.raw_pos == HEAD_SIZE,
    {
        write_le(self.raw.as_mut_slice(), 0, package_id as u64, 2);
        self.raw_pos = 12;
        proof {
            lemma_le_bytes_len(package_id as nat, 2);
        }
        assert(self@.raw =~= le_bytes(package_id as nat, 2) + old(self)@.raw.skip(2));
    }

    /// The package_id field.
    pub fn package_id(&self) -> (id: u16)
        requires
            self.wf(),
        ensures
            id as nat == package_id_of(self@.raw),
    {
        proof {
            lemma_pow256_values();
            lemma_le_value_bound(self@.raw.subrange(0, 2));
        }
        read_le(self.raw.as_slice(), 0, 2) as u16
    }

    /// Sets the idempotent field.
    ///
    /// `idempotent` must be greater than zero.
    pub fn set_idempotent(&mut self, idempotent: u32)
        requires
            old(self).wf(),
            idempotent > 0,
        ensures
            final(self).wf(),
            final(self)@.raw == old(self)@.raw.take(2) + le_bytes(idempotent as nat, 4) + old(
                self,
            )@.raw.skip(6),
            final(self)@.raw_pos == old(self)@.raw_pos,
    {
        write_le(self.raw.as_mut_slice(), 2, idempotent as u64, 4);
    }

    /// The idempotent field.
    pub fn idempotent(&self) -> (i: u32)
        requires
            self.wf(),
        ensures
            i as nat == idempotent_of(self@.raw),
    {
        proof {
            lemma_pow256_values();
            lemma_le_value_bound(self@.raw.subrange(2, 6));
        }
        read_le(self.raw.as_slice(), 2, 4) as u32
    }

    /// The head code.
    pub fn head_code(&self) -> (c: u8)
        requires
            self.wf(),
        ensures
            c == self@.raw[10],
    {
        self.raw[10]
    }

    /// The raw code.
    pub fn raw_code(&self) -> (c: u8)
        requires
            self.wf(),
        ensures
            c == self@.raw[11],
    {
        self.raw[11]
    }

    /// The raw_len field.
    pub fn raw_len(&self) -> (n: usize)
        requires
            self.wf(),
        ensures
            n as nat == raw_len_of(self@.raw),
    {
        proof {
            lemma_pow256_values();
            lemma_le_value_bound(self@.raw.subrange(6, 10));
        }
        read_le(self.raw.as_slice(), 6, 4) as usize
    }

    /// Sets the body, and the raw_len field with it (the total length modulo
    /// 2^32); the memory grows to the total length when it is shorter.
    pub fn set_data(&mut self, data: &[u8])
        requires
            old(self).wf(),
            data@.len() + HEAD_SIZE <= usize::MAX,
        ensures
            final(self).wf(),
            final(self)@.raw_pos == old(self)@.raw_pos,
            ({
                let n = data@.len() + HEAD_SIZE;
                let g = grown(old(self)@.raw, n as nat);
                final(self)@.raw == g.take(6) + le_bytes(((n as u32) as nat), 4) + g.subrange(10, 12)
                    + data@ + g.skip(n)
            }),
    {
        let data_len = data.len();
        let raw_len = data_len + HEAD_SIZE;
        if self.raw.len() < raw_len {
            self.raw.resize(raw_len, 0);
        }
        let ghost g = self.raw@;
        assert(g =~= grown(old(self)@.raw, raw_len as nat));
        let rawlen = raw_len as u32;
        write_le(self.raw.as_mut_slice(), 6, rawlen as u64, 4);
        let ghost g1 = self.raw@;
        copy_into(&mut self.raw, HEAD_SIZE, data);
        proof {
            lemma_le_bytes_len(rawlen as nat, 4);
        }
        assert(self.raw@ =~= g.take(6) + le_bytes(rawlen as nat, 4) + g.subrange(10, 12) + data@
            + g.skip(raw_len as int));
    }

    /// The body: from the end of the head to raw_len.
    pub fn data(&self) -> (d: &[u8])
        requires
            self.wf(),
            HEAD_SIZE <= raw_len_of(self@.raw) <= self@.raw.len(),
        ensures
            d@ == self@.raw.subrange(HEAD_SIZE as int, raw_len_of(self@.raw) as int),
    {
        let n = self.raw_len();
        vstd::slice::slice_subrange(self.raw.as_slice(), HEAD_SIZE, n)
    }

    /// The package's bytes up to raw_len.
    pub fn raw(&self) -> (r: &[u8])
        requires
            self.wf(),
            raw_len_of(self@.raw) <= self@.raw.len(),
        ensures
            r@ == self@.raw.take(raw_len_of(self@.raw) as int),
    {
        let n = self.raw_len();
        vstd::slice::slice_subrange(self.raw.as_slice(), 0, n)
    }
}

impl Default for Package {
    /// An empty package, as `Package::new` makes it.
    fn default() -> (p: Package)
        ensures
            p.wf(),
            p@.raw_pos == 0,
            p@.raw == Seq::new(DEFAULT_SIZE as nat, |i: int| 0u8),
    {
        Package::new()
    }
}

} // verus!
