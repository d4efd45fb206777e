//! The checksummed message format and the builder that reads it from a
//! stream.
//!
//! Memory layout of a packet (12-byte head, then the body):
//!
//! `| head_check_code u8 | raw_check_code u8 | id u16 | idempotent u32 | raw_len u32 | data [u8] |`
//!
//! Integers are little-endian. `raw_len` is the length of the whole packet,
//! head included. `head_check_code` is `raw[2] ^ raw[11]`, `raw_check_code`
//! is `raw[2] ^ raw[raw_len - 1]`.

use crate::g::{Error, Result};
use crate::nw::wire::{
    copy_into, le_bytes, le_value, lemma_le_bytes_len, lemma_le_roundtrip, lemma_le_value_bound,
    lemma_pow256_values, push_le, read_le, write_le,
};
use vstd::prelude::*;

verus! {

/// Length of the head.
pub const HEAD_SIZE: usize = 12;

/// Largest body.
pub const MAX_DATA_SIZE: usize = 2097152;

/// Room that a new packet has before it grows.
pub const DEFAULT_CAPACITY: usize = 4096;

// ------------------------------------------------------------------------
// The fields of a head, read from the bytes of a packet
/// The id field.
pub open spec fn id_of(m: Seq<u8>) -> nat {
    le_value(m.subrange(2, 4))
}

/// The idempotent field.
pub open spec fn idempotent_of(m: Seq<u8>) -> nat {
    le_value(m.subrange(4, 8))
}

/// The raw_len field.
pub open spec fn raw_len_of(m: Seq<u8>) -> nat {
    le_value(m.subrange(8, 12))
}

/// The head check code matches.
pub open spec fn head_check_ok(m: Seq<u8>) -> bool {
    m[0] == m[2] ^ m[11]
}

/// The raw check code matches for a packet of `n` bytes.
pub open spec fn raw_check_ok(m: Seq<u8>, n: int) -> bool {
    m[1] == m[2] ^ m[n - 1]
}

/// `r` is the whole of a valid packet: id and idempotent greater than zero,
/// raw_len its length, both check codes right.
pub open spec fn valid_raw(r: Seq<u8>) -> bool {
    &&& r.len() >= HEAD_SIZE
    &&& id_of(r) > 0
    &&& idempotent_of(r) > 0
    &&& raw_len_of(r) == r.len()
    &&& head_check_ok(r)
    &&& raw_check_ok(r, r.len() as int)
}

/// The bytes of the packet with these fields: check codes, id, idempotent,
/// raw_len and data.
pub open spec fn packet_raw(id: u16, idempotent: u32, data: Seq<u8>) -> Seq<u8> {
    let body = le_bytes(id as nat, 2) + le_bytes(idempotent as nat, 4) + le_bytes(
        (HEAD_SIZE + data.len()) as nat,
        4,
    ) + data;
    seq![body[0] ^ body[9], body[0] ^ body.last()] + body
}

/// Fields of the packet that `packet_raw` builds.
pub proof fn lemma_packet_raw(id: u16, idempotent: u32, data: Seq<u8>)
    requires
        data.len() <= MAX_DATA_SIZE,
    ensures
        ({
            let r = packet_raw(id, idempotent, data);
            &&& r.len() == HEAD_SIZE + data.len()
            &&& id_of(r) == id
            &&& idempotent_of(r) == idempotent
            &&& raw_len_of(r) == r.len()
            &&& r.subrange(HEAD_SIZE as int, r.len() as int) == data
            &&& head_check_ok(r)
            &&& raw_check_ok(r, r.len() as int)
            &&& (id > 0 && idempotent > 0 ==> valid_raw(r))
        }),
{
    lemma_pow256_values();
    let a = le_bytes(id as nat, 2);
    let b = le_bytes(idempotent as nat, 4);
    let c = le_bytes((HEAD_SIZE + data.len()) as nat, 4);
    lemma_le_roundtrip(id as nat, 2);
    lemma_le_roundtrip(idempotent as nat, 4);
    lemma_le_roundtrip((HEAD_SIZE + data.len()) as nat, 4);
    let body = a + b + c + data;
    let r = packet_raw(id, idempotent, data);
    assert(r.subrange(2, 4) =~= a);
    assert(r.subrange(4, 8) =~= b);
    assert(r.subrange(8, 12) =~= c);
    assert(r.subrange(12, r.len() as int) =~= data);
    assert(r[2] == body[0] && r[11] == body[9] && r[r.len() - 1] == body.last());
}

// ------------------------------------------------------------------------
// Packet
/// A packet as plain values: the memory that holds it and its length. The
/// packet's bytes are the first `len` bytes of `mem`; the bytes after them
/// are room that writes before a length change can already fill.
pub struct PacketView {
    pub mem: Seq<u8>,
    pub len: usize,
}

impl PacketView {
    /// The bytes of the packet.
    pub open spec fn raw(self) -> Seq<u8> {
        self.mem.take(self.len as int)
    }

    /// The memory holds at least a head, and the packet fits in it.
    pub open spec fn wf(self) -> bool {
        self.mem.len() >= HEAD_SIZE && self.len <= self.mem.len()
    }

    /// What `Packet::valid` says of this packet: it holds at least a head,
    /// and the head's fields are right.
    pub open spec fn valid(self) -> bool {
        &&& self.len >= HEAD_SIZE
        &&& id_of(self.mem) > 0
        &&& idempotent_of(self.mem) > 0
        &&& raw_len_of(self.mem) == self.len
        &&& head_check_ok(self.mem)
        &&& raw_check_ok(self.mem, self.len as int)
    }
}

/// Message packet for network transfer: a head and a body, with check codes.
pub struct Packet {
    mem: Vec<u8>,
    len: usize,
}

impl View for Packet {
    type V = PacketView;

    closed spec fn view(&self) -> PacketView {
        PacketView { mem: self.mem@, len: self.len }
    }
}

/// The head fields of two byte sequences with the same first 12 bytes agree.
proof fn lemma_head_fields_prefix(a: Seq<u8>, b: Seq<u8>)
    requires
        a.len() >= HEAD_SIZE,
        b.len() >= HEAD_SIZE,
        a.take(HEAD_SIZE as int) == b.take(HEAD_SIZE as int),
    ensures
        id_of(a) == id_of(b),
        idempotent_of(a) == idempotent_of(b),
        raw_len_of(a) == raw_len_of(b),
        head_check_ok(a) == head_check_ok(b),
        head_accepts(a) == head_accepts(b),
        a[2] == b[2],
{
    assert(a[0] == a.take(12)[0] && a[2] == a.take(12)[2] && a[11] == a.take(12)[11]);
    assert(b[0] == b.take(12)[0] && b[2] == b.take(12)[2] && b[11] == b.take(12)[11]);
    assert(a.subrange(2, 4) =~= b.subrange(2, 4)) by {
        assert(forall|i: int| 2 <= i < 4 ==> a[i] == a.take(12)[i] && b[i] == b.take(12)[i]);
    }
    assert(a.subrange(4, 8) =~= b.subrange(4, 8)) by {
        assert(forall|i: int| 4 <= i < 8 ==> a[i] == a.take(12)[i] && b[i] == b.take(12)[i]);
    }
    assert(a.subrange(8, 12) =~= b.subrange(8, 12)) by {
        assert(forall|i: int| 8 <= i < 12 ==> a[i] == a.take(12)[i] && b[i] == b.take(12)[i]);
    }
}

/// The head fields read from a packet's bytes are those of its memory.
proof fn lemma_head_fields_exact(v: PacketView)
    requires
        v.wf(),
        v.len >= HEAD_SIZE,
    ensures
        id_of(v.raw()) == id_of(v.mem),
        idempotent_of(v.raw()) == idempotent_of(v.mem),
        raw_len_of(v.raw()) == raw_len_of(v.mem),
{
    let r = v.raw();
    assert(r.subrange(2, 4) =~= v.mem.subrange(2, 4));
    assert(r.subrange(4, 8) =~= v.mem.subrange(4, 8));
    assert(r.subrange(8, 12) =~= v.mem.subrange(8, 12));
}

/// A packet whose bytes are the head and whose memory is exactly those bytes
/// is valid exactly when its bytes are a valid packet.
proof fn lemma_valid_exact(v: PacketView)
    requires
        v.wf(),
        v.len >= HEAD_SIZE,
    ensures
        v.valid() <==> valid_raw(v.raw()),
        id_of(v.raw()) == id_of(v.mem),
        idempotent_of(v.raw()) == idempotent_of(v.mem),
        raw_len_of(v.raw()) == raw_len_of(v.mem),
{
    let r = v.raw();
    assert(r.subrange(2, 4) =~= v.mem.subrange(2, 4));
    assert(r.subrange(4, 8) =~= v.mem.subrange(4, 8));
    assert(r.subrange(8, 12) =~= v.mem.subrange(8, 12));
}

impl Packet {
    /// The memory holds at least a head, and the packet fits in it.
    pub open spec fn wf(&self) -> bool {
        self@.wf()
    }

    /// Creates an empty packet, with room for 4096 bytes.
    ///
    /// Set its fields, then call `setup` to make it valid.
    pub fn new() -> (p: Packet)
        ensures
            p.wf(),
            p@.len == 0,
            p@.mem == Seq::new(DEFAULT_CAPACITY as nat, |i: int| 0u8),
    {
        let mem = vec![0u8; DEFAULT_CAPACITY];
        assert(mem@ =~= Seq::new(DEFAULT_CAPACITY as nat, |i: int| 0u8));
        Packet { mem, len: 0 }
    }

    /// Builds a valid packet from its fields.
    ///
    /// The body must not be longer than `MAX_DATA_SIZE`.
    pub fn with(id: u16, idempotent: u32, data: &[u8]) -> (p: Packet)
        requires
            data@.len() <= MAX_DATA_SIZE,
        ensures
            p.wf(),
            p@.mem == packet_raw(id, idempotent, data@),
            p@.len == HEAD_SIZE + data@.len(),
            p@.raw() == packet_raw(id, idempotent, data@),
            id_of(p@.mem) == id,
            idempotent_of(p@.mem) == idempotent,
            raw_len_of(p@.mem) == p@.len,
            p@.mem.subrange(HEAD_SIZE as int, p@.len as int) == data@,
            p@.valid() == (id > 0 && idempotent > 0),
    {
        proof {
            lemma_packet_raw(id, idempotent, data@);
        }
        let dlen = data.len();
        let rlen = HEAD_SIZE + dlen;
        let mut raw: Vec<u8> = Vec::with_capacity(rlen);
        raw.push(0);
        raw.push(0);
        push_le(&mut raw, id as u64, 2);
        push_le(&mut raw, idempotent as u64, 4);
        push_le(&mut raw, rlen as u64, 4);
        raw.extend_from_slice(data);
        proof {
            lemma_le_bytes_len(id as nat, 2);
            lemma_le_bytes_len(idempotent as nat, 4);
            lemma_le_bytes_len(rlen as nat, 4);
        }
        let ghost body = le_bytes(id as nat, 2) + le_bytes(idempotent as nat, 4) + le_bytes(
            rlen as nat,
            4,
        ) + data@;
        assert(raw@ =~= seq![0u8, 0u8] + body);
        let hc = raw[2] ^ raw[11];
        raw.set(0, hc);
        let rc = raw[2] ^ raw[rlen - 1];
        raw.set(1, rc);
        assert(raw@ =~= packet_raw(id, idempotent, data@));
        let p = Packet { mem: raw, len: rlen };
        proof {
            assert(p@.raw() =~= p@.mem);
            lemma_valid_exact(p@);
        }
        p
    }

    /// The id field.
    pub fn id(&self) -> (id: u16)
        requires
            self.wf(),
        ensures
            id as nat == id_of(self@.mem),
    {
        proof {
            lemma_pow256_values();
            lemma_le_value_bound(self@.mem.subrange(2, 4));
        }
        read_le(self.mem.as_slice(), 2, 2) as u16
    }

    /// The idempotent field.
    pub fn idempotent(&self) -> (i: u32)
        requires
            self.wf(),
        ensures
            i as nat == idempotent_of(self@.mem),
    {
        proof {
            lemma_pow256_values();
            lemma_le_value_bound(self@.mem.subrange(4, 8));
        }
        read_le(self.mem.as_slice(), 4, 4) as u32
    }

    /// The raw_len field.
    pub fn raw_len(&self) -> (n: usize)
        requires
            self.wf(),
        ensures
            n as nat == raw_len_of(self@.mem),
    {
        proof {
            lemma_pow256_values();
            lemma_le_value_bound(self@.mem.subrange(8, 12));
        }
        read_le(self.mem.as_slice(), 8, 4) as usize
    }

    /// The bytes of the packet.
    pub fn raw(&self) -> (r: &[u8])
        requires
            self.wf(),
        ensures
            r@ == self@.raw(),
    {
        vstd::slice::slice_subrange(self.mem.as_slice(), 0, self.len)
    }

    /// The body: the bytes after the head.
    pub fn data(&self) -> (d: &[u8])
        requires
            self.wf(),
            self@.len >= HEAD_SIZE,
        ensures
            d@ == self@.mem.subrange(HEAD_SIZE as int, self@.len as int),
    {
        vstd::slice::slice_subrange(self.mem.as_slice(), HEAD_SIZE, self.len)
    }

    /// Whether the packet is valid: it holds at least a head (a shorter
    /// packet is not valid, and none of its memory past its length is read),
    /// id and idempotent are greater than zero, raw_len is its length, and
    /// both check codes are right.
    pub fn valid(&self) -> (b: bool)
        requires
            self.wf(),
        ensures
            b == self@.valid(),
            self@.len < HEAD_SIZE ==> !b,
    {
        let rlen = self.len;
        rlen >= HEAD_SIZE && self.id() > 0 && self.idempotent() > 0 && self.raw_len() == rlen
            && self.mem[0] == self.mem[2] ^ self.mem[11] && self.mem[1] == self.mem[2] ^ self.mem[rlen
            - 1]
    }

    /// Sets the id field.
    pub fn set_id(&mut self, id: u16)
        requires
            old(self).wf(),
        ensures
            final(self).wf(),
            final(self)@.len == old(self)@.len,
            final(self)@.mem == old(self)@.mem.take(2) + le_bytes(id as nat, 2) + old(self)@.mem.skip(4),
    {
        write_le(self.mem.as_mut_slice(), 2, id as u64, 2);
    }

    /// Sets the idempotent field.
    pub fn set_idempotent(&mut self, idempotent: u32)
        requires
            old(self).wf(),
        ensures
            final(self).wf(),
            final(self)@.len == old(self)@.len,
            final(self)@.mem == old(self)@.mem.take(4) + le_bytes(idempotent as nat, 4) + old(
                self,
            )@.mem.skip(8),
    {
        write_le(self.mem.as_mut_slice(), 4, idempotent as u64, 4);
    }

    /// Sets the body, and the raw_len field with it. The check codes are
    /// left as they are: call `setup` afterwards.
    ///
    /// The body must not be longer than `MAX_DATA_SIZE`.
    pub fn set_data(&mut self, data: &[u8])
        requires
            old(self).wf(),
            data@.len() <= MAX_DATA_SIZE,
        ensures
            final(self).wf(),
            final(self)@.len == HEAD_SIZE + data@.len(),
            final(self)@.mem.len() == if old(self)@.mem.len() < HEAD_SIZE + data@.len() {
                (HEAD_SIZE + data@.len()) as nat
            } else {
                old(self)@.mem.len()
            },
            final(self)@.mem.take(8) == old(self)@.mem.take(8),
            final(self)@.mem.subrange(8, 12) == le_bytes((HEAD_SIZE + data@.len()) as nat, 4),
            final(self)@.mem.subrange(HEAD_SIZE as int, final(self)@.len as int) == data@,
            old(self)@.mem.len() >= final(self)@.len ==> final(self)@.mem.skip(final(self)@.len as int)
                == old(self)@.mem.skip(final(self)@.len as int),
    {
        let dlen = data.len();
        let rlen = HEAD_SIZE + dlen;
        if self.mem.len() < rlen {
            self.mem.resize(rlen, 0);
        }
        let ghost m0 = self.mem@;
        copy_into(&mut self.mem, HEAD_SIZE, data);
        let ghost m1 = self.mem@;
        assert(m1.skip(rlen as int) =~= m0.skip(rlen as int));
        write_le(self.mem.as_mut_slice(), 8, rlen as u64, 4);
        assert(self.mem@.skip(rlen as int) =~= m1.skip(rlen as int));
        proof {
            lemma_le_bytes_len(rlen as nat, 4);
        }
        self.len = rlen;
        assert(self@.mem.take(8) =~= old(self)@.mem.take(8));
        assert(self@.mem.subrange(8, 12) =~= le_bytes(rlen as nat, 4));
        assert(self@.mem.subrange(HEAD_SIZE as int, rlen as int) =~= data@);
        assert(old(self)@.mem.len() >= rlen ==> m0 == old(self)@.mem);
    }

    /// Makes the packet valid by computing both check codes.
    ///
    /// Id and idempotent must be greater than zero and raw_len must be the
    /// length of the packet, which holds at least a head.
    pub fn setup(&mut self)
        requires
            old(self).wf(),
            id_of(old(self)@.mem) > 0,
            idempotent_of(old(self)@.mem) > 0,
            raw_len_of(old(self)@.mem) == old(self)@.len,
            old(self)@.len >= HEAD_SIZE,
        ensures
            final(self).wf(),
            final(self)@.len == old(self)@.len,
            final(self)@.mem == old(self)@.mem.update(0, old(self)@.mem[2] ^ old(self)@.mem[11]).update(
                1,
                old(self)@.mem[2] ^ old(self)@.mem[old(self)@.len - 1],
            ),
            final(self)@.valid(),
    {
        let hc = self.mem[2] ^ self.mem[11];
        self.mem.set(0, hc);
        let rc = self.mem[2] ^ self.mem[self.len - 1];
        self.mem.set(1, rc);
        proof {
            assert(self@.mem.subrange(2, 4) =~= old(self)@.mem.subrange(2, 4));
            assert(self@.mem.subrange(4, 8) =~= old(self)@.mem.subrange(4, 8));
            assert(self@.mem.subrange(8, 12) =~= old(self)@.mem.subrange(8, 12));
        }
    }

    /// Sets every field of the packet, check codes included.
    ///
    /// The body must not be longer than `MAX_DATA_SIZE`.
    pub fn set(&mut self, id: u16, idempotent: u32, data: &[u8])
        requires
            old(self).wf(),
            data@.len() <= MAX_DATA_SIZE,
        ensures
            final(self).wf(),
            final(self)@.len == HEAD_SIZE + data@.len(),
            final(self)@.raw() == packet_raw(id, idempotent, data@),
            id_of(final(self)@.mem) == id,
            idempotent_of(final(self)@.mem) == idempotent,
            raw_len_of(final(self)@.mem) == final(self)@.len,
            final(self)@.mem.subrange(HEAD_SIZE as int, final(self)@.len as int) == data@,
            final(self)@.valid() == (id > 0 && idempotent > 0),
            old(self)@.mem.len() >= final(self)@.len ==> final(self)@.mem.skip(final(self)@.len as int)
                == old(self)@.mem.skip(final(self)@.len as int),
    {
        let dlen = data.len();
        let rl = HEAD_SIZE + dlen;
        if self.mem.len() < rl {
            self.mem.resize(rl, 0);
        }
        let ghost m0 = self.mem@;
        write_le(self.mem.as_mut_slice(), 2, id as u64, 2);
        let ghost m1 = self.mem@;
        assert(m1.skip(rl as int) =~= m0.skip(rl as int));
        write_le(self.mem.as_mut_slice(), 4, idempotent as u64, 4);
        let ghost m2 = self.mem@;
        assert(m2.skip(rl as int) =~= m1.skip(rl as int));
        write_le(self.mem.as_mut_slice(), 8, rl as u64, 4);
        let ghost m3 = self.mem@;
        assert(m3.skip(rl as int) =~= m2.skip(rl as int));
        copy_into(&mut self.mem, HEAD_SIZE, data);
        let ghost m4 = self.mem@;
        assert(m4.skip(rl as int) =~= m3.skip(rl as int));
        self.len = rl;
        let hc = self.mem[2] ^ self.mem[11];
        self.mem.set(0, hc);
        let rc = self.mem[2] ^ self.mem[rl - 1];
        self.mem.set(1, rc);
        proof {
            lemma_le_bytes_len(id as nat, 2);
            lemma_le_bytes_len(idempotent as nat, 4);
            lemma_le_bytes_len(rl as nat, 4);
        }
        assert(self@.raw() =~= packet_raw(id, idempotent, data@));
        assert(self@.mem.skip(rl as int) =~= m4.skip(rl as int));
        proof {
            lemma_packet_raw(id, idempotent, data@);
            lemma_valid_exact(self@);
            assert(self@.raw().subrange(HEAD_SIZE as int, rl as int) =~= self@.mem.subrange(
                HEAD_SIZE as int,
                rl as int,
            ));
            assert(self@.raw()[0] == self@.mem[0] && self@.raw()[1] == self@.mem[1] && self@.raw()[2]
                == self@.mem[2] && self@.raw()[11] == self@.mem[11] && self@.raw()[rl - 1]
                == self@.mem[rl - 1]);
        }
        assert(old(self)@.mem.len() >= rl ==> m0 == old(self)@.mem);
    }

    /// Empties the packet; its memory stays.
    pub fn reset(&mut self)
        requires
            old(self).wf(),
        ensures
            final(self).wf(),
            final(self)@ == (PacketView { len: 0, ..old(self)@ }),
    {
        self.len = 0;
    }

    /// Whether the head check code is right.
    pub fn check_hc(&self) -> (b: bool)
        requires
            self.wf(),
        ensures
            b == head_check_ok(self@.mem),
    {
        self.mem[0] == self.mem[2] ^ self.mem[11]
    }

    /// Whether the raw check code is right.
    ///
    /// The packet must not be empty.
    pub fn check_rc(&self) -> (b: bool)
        requires
            self.wf(),
            self@.len >= 1,
        ensures
            b == raw_check_ok(self@.mem, self@.len as int),
    {
        self.mem[1] == self.mem[2] ^ self.mem[self.len - 1]
    }

    /// A packet whose bytes are `raw`.
    pub fn from_vec(raw: Vec<u8>) -> (p: Packet)
        ensures
            p.wf(),
            p@.raw() == raw@,
            p@.len == raw@.len(),
    {
        let len = raw.len();
        let mut mem = raw;
        if mem.len() < HEAD_SIZE {
            mem.resize(HEAD_SIZE, 0);
        }
        assert(mem@.take(len as int) =~= raw@);
        Packet { mem, len }
    }

    /// A packet whose bytes are a copy of `raw`.
    pub fn from_slice(raw: &[u8]) -> (p: Packet)
        ensures
            p.wf(),
            p@.raw() == raw@,
            p@.len == raw@.len(),
    {
        let mut v: Vec<u8> = Vec::new();
        v.extend_from_slice(raw);
        assert(v@ =~= raw@);
        Packet::from_vec(v)
    }
}

impl Default for Packet {
    /// An empty packet, as `Packet::new` makes it.
    fn default() -> (p: Packet)
        ensures
            p.wf(),
            p@.len == 0,
            p@.mem == Seq::new(DEFAULT_CAPACITY as nat, |i: int| 0u8),
    {
        Packet::new()
    }
}

// ------------------------------------------------------------------------
// Builder
/// A builder as plain values: the bytes of the packet it has begun, if any,
/// and where it goes on reading in the buffer it was last given.
pub struct BuilderView {
    pub current: Option<Seq<u8>>,
    pub pos: usize,
}

impl BuilderView {
    /// A packet that was begun is still incomplete: it has less than a head,
    /// or a head that was accepted and less than its raw_len.
    pub open spec fn wf(self) -> bool {
        match self.current {
            Some(c) => c.len() < HEAD_SIZE || (head_accepts(c) && c.len() < raw_len_of(c)),
            None => true,
        }
    }
}

/// A head that the builder accepts: id and idempotent greater than zero, the
/// head check code right, and a raw_len that holds at least the head.
pub open spec fn head_accepts(h: Seq<u8>) -> bool {
    &&& id_of(h) > 0
    &&& idempotent_of(h) > 0
    &&& head_check_ok(h)
    &&& raw_len_of(h) >= HEAD_SIZE
}

/// The smaller of two integers.
pub open spec fn min(a: int, b: int) -> int {
    if a < b {
        a
    } else {
        b
    }
}

impl Default for Builder {
    /// A builder with no packet begun, as `Builder::new` makes it.
    fn default() -> (b: Builder)
        ensures
            b.wf(),
            b@ == (BuilderView { current: None, pos: 0 }),
    {
        Builder::new()
    }
}

/// What `Builder::parse` returns on `buf`, and the builder after it.
///
/// The builder reads `buf` from `pos` on; when `pos` is at or past the end
/// of `buf` there is nothing to read. It first completes the head of the
/// packet it has begun (a new one when none), and rejects a completed head
/// that it does not accept, dropping the packet and keeping `pos`. It then
/// adds bytes up to the raw_len of the head. `pos` becomes the place where
/// the unread bytes of `buf` start, or 0 when none are left. A packet that
/// reaches its raw_len is returned with whether bytes are left, unless its
/// raw check code is wrong; an incomplete packet is kept.
pub open spec fn builder_step(v: BuilderView, buf: Seq<u8>) -> (
    Result<Option<(Seq<u8>, bool)>>,
    BuilderView,
) {
    if v.pos >= buf.len() {
        (Ok(None), v)
    } else {
        let rem = buf.skip(v.pos as int);
        let cur = match v.current {
            Some(c) => c,
            None => Seq::empty(),
        };
        let hn = if cur.len() < HEAD_SIZE {
            min(HEAD_SIZE - cur.len(), rem.len() as int)
        } else {
            0
        };
        let cur1 = cur + rem.take(hn);
        let rem1 = rem.skip(hn);
        if cur.len() < HEAD_SIZE && cur1.len() == HEAD_SIZE && !head_accepts(cur1) {
            (Err(Error::PackHeadInvalid), BuilderView { current: None, pos: v.pos })
        } else {
            let bn = if rem1.len() > 0 && cur1.len() >= HEAD_SIZE {
                min(raw_len_of(cur1) - cur1.len(), rem1.len() as int)
            } else {
                0
            };
            let cur2 = cur1 + rem1.take(bn);
            let rest = rem1.len() - bn;
            let pos = if rest == 0 {
                0
            } else {
                (v.pos + hn + bn) as usize
            };
            if cur2.len() >= HEAD_SIZE && cur2.len() == raw_len_of(cur2) {
                if !raw_check_ok(cur2, cur2.len() as int) {
                    (Err(Error::PacketInvalid), BuilderView { current: None, pos })
                } else {
                    (Ok(Some((cur2, rest > 0))), BuilderView { current: None, pos })
                }
            } else {
                (Ok(None), BuilderView { current: Some(cur2), pos })
            }
        }
    }
}

/// Packet builder: reads packets from the bytes that a stream delivers, one
/// buffer at a time.
pub struct Builder {
    current: Option<Packet>,
    pos: usize,
}

impl View for Builder {
    type V = BuilderView;

    closed spec fn view(&self) -> BuilderView {
        BuilderView {
            current: match self.current {
                Some(p) => Some(p@.raw()),
                None => None,
            },
            pos: self.pos,
        }
    }
}

impl Builder {
    /// The packet begun is incomplete, and its memory holds it.
    pub closed spec fn wf(&self) -> bool {
        &&& self@.wf()
        &&& match self.current {
            Some(p) => p.wf(),
            None => true,
        }
    }

    /// Creates a builder with no packet begun.
    pub fn new() -> (b: Builder)
        ensures
            b.wf(),
            b@ == (BuilderView { current: None, pos: 0 }),
    {
        Builder { current: None, pos: 0 }
    }

    /// Forgets the packet begun and the place in the buffer.
    pub fn reset(&mut self)
        requires
            old(self).wf(),
        ensures
            final(self).wf(),
            final(self)@.pos == 0,
            final(self)@.current == match old(self)@.current {
                Some(c) => Some(Seq::<u8>::empty()),
                None => None::<Seq<u8>>,
            },
    {
        self.pos = 0;
        match &mut self.current {
            Some(v) => {
                v.len = 0;
            },
            None => {},
        }
    }

    /// Reads the next packet from `buf`; see `builder_step`.
    ///
    /// Call it again with the same buffer while it returns a packet and
    /// `true`: bytes of that buffer are left. `buf` must not be empty.
    #[verifier::rlimit(100)]
    #[verifier::spinoff_prover]
    pub fn parse(&mut self, buf: &[u8]) -> (r: Result<Option<(Packet, bool)>>)
        requires
            old(self).wf(),
            buf@.len() > 0,
        ensures
            final(self).wf(),
            final(self)@ == builder_step(old(self)@, buf@).1,
            match r {
                Ok(Some((p, more))) => p.wf() && builder_step(old(self)@, buf@).0 == Ok::<
                    Option<(Seq<u8>, bool)>,
                    Error,
                >(Some((p@.raw(), more))),
                Ok(None) => builder_step(old(self)@, buf@).0 == Ok::<
                    Option<(Seq<u8>, bool)>,
                    Error,
                >(None),
                Err(e) => builder_step(old(self)@, buf@).0 == Err::<
                    Option<(Seq<u8>, bool)>,
                    Error,
                >(e),
            },
    {
        let total = buf.len();
        if self.pos >= total {
            return Ok(None);
        }
        let mut bufpos = self.pos;
        let mut buflen = total - bufpos;
        let ghost rem = buf@.skip(bufpos as int);
        let mut cur = match self.current.take() {
            Some(v) => v,
            None => Packet::new(),
        };
        let ghost c0 = cur@.raw();
        let mut clen = cur.len;

        // the head
        if clen < HEAD_SIZE {
            let mut nleft = HEAD_SIZE - clen;
            if nleft > buflen {
                nleft = buflen;
            }
            let part = vstd::slice::slice_subrange(buf, bufpos, bufpos + nleft);
            let ghost m0 = cur.mem@;
            copy_into(&mut cur.mem, clen, part);
            bufpos = bufpos + nleft;
            buflen = buflen - nleft;
            clen = clen + nleft;
            cur.len = clen;
            assert(part@ =~= rem.take(nleft as int));
            assert(cur@.raw() =~= c0 + rem.take(nleft as int));
            if clen == HEAD_SIZE {
                proof {
                    lemma_head_fields_exact(cur@);
                    assert(cur@.raw()[0] == cur@.mem[0] && cur@.raw()[2] == cur@.mem[2]
                        && cur@.raw()[11] == cur@.mem[11]);
                }
                if cur.id() == 0 || cur.idempotent() == 0 || !cur.check_hc() || cur.raw_len()
                    < HEAD_SIZE {
                    return Err(Error::PackHeadInvalid);
                }
            }
        }
        let ghost c1 = cur@.raw();
        let ghost n1 = (bufpos - self.pos) as int;
        assert(c1 == c0 + rem.take(n1));

        // the body
        if buflen > 0 && clen >= HEAD_SIZE {
            proof {
                lemma_head_fields_exact(cur@);
            }
            let rl = cur.raw_len();
            if cur.mem.len() < rl {
                cur.mem.resize(rl, 0);
                assert(cur@.raw() =~= c1);
            }
            let mut nleft = rl - clen;
            if nleft > buflen {
                nleft = buflen;
            }
            let part = vstd::slice::slice_subrange(buf, bufpos, bufpos + nleft);
            copy_into(&mut cur.mem, clen, part);
            bufpos = bufpos + nleft;
            buflen = buflen - nleft;
            clen = clen + nleft;
            cur.len = clen;
            assert(part@ =~= rem.skip(n1).take(nleft as int));
            assert(cur@.raw() =~= c1 + rem.skip(n1).take(nleft as int));
        }
        if buflen == 0 {
            self.pos = 0;
        } else {
            self.pos = bufpos;
        }

        // a complete packet
        proof {
            let c2 = cur@.raw();
            if c1.len() >= HEAD_SIZE {
                assert(c2.take(12) =~= c1.take(12));
                lemma_head_fields_prefix(c2, c1);
            }
            if c0.len() >= HEAD_SIZE {
                assert(c1.take(12) =~= c0.take(12));
                lemma_head_fields_prefix(c1, c0);
            }
        }
        if clen >= HEAD_SIZE {
            proof {
                lemma_head_fields_exact(cur@);
                assert(cur@.raw()[1] == cur@.mem[1] && cur@.raw()[2] == cur@.mem[2]
                    && cur@.raw()[clen - 1] == cur@.mem[clen - 1]);
            }
            if clen == cur.raw_len() {
                if !cur.check_rc() {
                    return Err(Error::PacketInvalid);
                }
                return Ok(Some((cur, buflen != 0)));
            }
        }
        self.current = Some(cur);
        Ok(None)
    }
}

// ------------------------------------------------------------------------
// Laws of the builder
/// The results of `k` calls of `Builder::parse` with the same buffer, and
/// the builder after them.
pub open spec fn builder_run(v: BuilderView, buf: Seq<u8>, k: nat) -> (
    Seq<Result<Option<(Seq<u8>, bool)>>>,
    BuilderView,
)
    decreases k,
{
    if k == 0 {
        (Seq::empty(), v)
    } else {
        let (rs, v1) = builder_run(v, buf, (k - 1) as nat);
        let (r, v2) = builder_step(v1, buf);
        (rs.push(r), v2)
    }
}

/// A valid packet that starts where a builder with no packet begun reads is
/// returned whole, with whether bytes follow it; the builder then reads on
/// after it, or from 0 when nothing follows.
pub proof fn lemma_builder_next_packet(pos: usize, buf: Seq<u8>, r: Seq<u8>)
    requires
        valid_raw(r),
        pos + r.len() <= buf.len(),
        buf.len() <= usize::MAX,
        buf.subrange(pos as int, pos + r.len()) == r,
    ensures
        builder_step(BuilderView { current: None, pos }, buf) == (
            Ok::<Option<(Seq<u8>, bool)>, Error>(Some((r, pos + r.len() < buf.len()))),
            BuilderView {
                current: None,
                pos: if pos + r.len() < buf.len() {
                    (pos + r.len()) as usize
                } else {
                    0
                },
            },
        ),
{
    let l = r.len() as int;
    let rem = buf.skip(pos as int);
    let cur = Seq::<u8>::empty();
    let cur1 = cur + rem.take(12);
    assert(cur1 =~= r.take(12));
    assert(cur1.take(12) =~= r.take(12));
    lemma_head_fields_prefix(cur1, r);
    let rem1 = rem.skip(12);
    let cur2 = cur1 + rem1.take(l - 12);
    assert(cur2 =~= r);
}

/// The flattening of two sequences of sequences joined is the two
/// flattenings joined.
proof fn lemma_flatten_concat(a: Seq<Seq<u8>>, b: Seq<Seq<u8>>)
    ensures
        (a + b).flatten() == a.flatten() + b.flatten(),
    decreases a.len(),
{
    if a.len() == 0 {
        assert(a + b =~= b);
    } else {
        lemma_flatten_concat(a.drop_first(), b);
        assert((a + b).drop_first() =~= a.drop_first() + b);
        assert((a + b).first() == a.first());
        assert(a.first() + (a.drop_first().flatten() + b.flatten()) =~= (a.first()
            + a.drop_first().flatten()) + b.flatten());
    }
}

/// Flattening packets that are not empty gives as many bytes as the
/// packets together, and none only for no packet.
proof fn lemma_flatten_nonempty(a: Seq<Seq<u8>>)
    requires
        forall|i: int| 0 <= i < a.len() ==> (#[trigger] a[i]).len() > 0,
    ensures
        a.flatten().len() == 0 <==> a.len() == 0,
    decreases a.len(),
{
    if a.len() > 0 {
        assert(a[0].len() > 0);
        assert forall|i: int| 0 <= i < a.drop_first().len() implies (#[trigger] a.drop_first()[i]).len()
            > 0 by {
            assert(a.drop_first()[i] == a[i + 1]);
        }
        lemma_flatten_nonempty(a.drop_first());
    }
}

/// The bytes of the packets before the `k`-th, the `k`-th, and the rest.
proof fn lemma_flatten_split(pkts: Seq<Seq<u8>>, k: int)
    requires
        0 <= k < pkts.len(),
    ensures
        pkts.flatten() == pkts.take(k).flatten() + pkts[k] + pkts.skip(k + 1).flatten(),
        pkts.take(k + 1).flatten() == pkts.take(k).flatten() + pkts[k],
{
    let single = seq![pkts[k]];
    assert(single.drop_first() =~= Seq::<Seq<u8>>::empty());
    assert(Seq::<Seq<u8>>::empty().flatten() == Seq::<u8>::empty());
    assert(single.flatten() == single.first() + single.drop_first().flatten());
    assert(single.flatten() =~= pkts[k]);
    assert(pkts.take(k + 1) =~= pkts.take(k) + single);
    lemma_flatten_concat(pkts.take(k), single);
    assert(pkts =~= pkts.take(k + 1) + pkts.skip(k + 1));
    lemma_flatten_concat(pkts.take(k + 1), pkts.skip(k + 1));
}

/// Read a stream of packets: given the bytes of valid packets one after the
/// other in one buffer, a new builder called with that buffer as many times
/// as there are packets returns each packet in turn, saying each time
/// whether more bytes follow, and ends with no packet begun, reading from 0.
pub proof fn lemma_builder_reads_all(pkts: Seq<Seq<u8>>, k: nat)
    requires
        forall|i: int| 0 <= i < pkts.len() ==> valid_raw(#[trigger] pkts[i]),
        pkts.flatten().len() <= usize::MAX,
        k <= pkts.len(),
    ensures
        builder_run(BuilderView { current: None, pos: 0 }, pkts.flatten(), k) == (
            Seq::new(
                k,
                |i: int|
                    Ok::<Option<(Seq<u8>, bool)>, Error>(Some((pkts[i], i + 1 < pkts.len()))),
            ),
            BuilderView {
                current: None,
                pos: if k < pkts.len() {
                    pkts.take(k as int).flatten().len() as usize
                } else {
                    0
                },
            },
        ),
    decreases k,
{
    let buf = pkts.flatten();
    let n = pkts.len();
    let fresh = BuilderView { current: None, pos: 0 };
    if k == 0 {
        assert(pkts.take(0) =~= Seq::<Seq<u8>>::empty());
        assert(builder_run(fresh, buf, 0).0 =~= Seq::new(
            0,
            |i: int| Ok::<Option<(Seq<u8>, bool)>, Error>(Some((pkts[i], i + 1 < n))),
        ));
        if n == 0 {
        }
    } else {
        let j = (k - 1) as int;
        lemma_builder_reads_all(pkts, (k - 1) as nat);
        lemma_flatten_split(pkts, j);
        let off = pkts.take(j).flatten().len();
        let r = pkts[j];
        assert(valid_raw(r));
        let rest = pkts.skip(j + 1);
        assert forall|i: int| 0 <= i < rest.len() implies (#[trigger] rest[i]).len() > 0 by {
            assert(rest[i] == pkts[j + 1 + i]);
            assert(valid_raw(pkts[j + 1 + i]));
        }
        lemma_flatten_nonempty(rest);
        assert(buf.subrange(off as int, (off + r.len()) as int) =~= r);
        lemma_builder_next_packet(off as usize, buf, r);
        assert(builder_run(fresh, buf, k).0 =~= Seq::new(
            k,
            |i: int| Ok::<Option<(Seq<u8>, bool)>, Error>(Some((pkts[i], i + 1 < n))),
        ));
    }
}

/// The first part of a packet delivered in two parts is kept.
proof fn lemma_builder_split_first(r: Seq<u8>, j: int)
    requires
        valid_raw(r),
        0 < j < r.len(),
        r.len() <= usize::MAX,
    ensures
        builder_step(BuilderView { current: None, pos: 0 }, r.take(j)) == (
            Ok::<Option<(Seq<u8>, bool)>, Error>(None),
            BuilderView { current: Some(r.take(j)), pos: 0 },
        ),
{
    let l = r.len() as int;
    let a = r.take(j);
    let rem = a.skip(0);
    assert(rem =~= a);
    if j >= 12 {
        let cur1 = Seq::<u8>::empty() + rem.take(12);
        assert(cur1 =~= r.take(12));
        assert(cur1.take(12) =~= r.take(12));
        lemma_head_fields_prefix(cur1, r);
        let rem1 = rem.skip(12);
        let cur2 = cur1 + rem1.take(j - 12);
        assert(cur2 =~= a);
        assert(a.take(12) =~= r.take(12));
        lemma_head_fields_prefix(a, r);
    } else {
        let cur1 = Seq::<u8>::empty() + rem.take(j);
        assert(cur1 =~= a);
        let rem1 = rem.skip(j);
        assert(cur1 + rem1.take(0) =~= a);
    }
}

/// The second part of a packet delivered in two parts completes it.
proof fn lemma_builder_split_second(r: Seq<u8>, j: int)
    requires
        valid_raw(r),
        0 < j < r.len(),
        r.len() <= usize::MAX,
    ensures
        builder_step(BuilderView { current: Some(r.take(j)), pos: 0 }, r.skip(j)) == (
            Ok::<Option<(Seq<u8>, bool)>, Error>(Some((r, false))),
            BuilderView { current: None, pos: 0 },
        ),
{
    let l = r.len() as int;
    let a = r.take(j);
    let b = r.skip(j);
    let rem2 = b.skip(0);
    assert(rem2 =~= b);
    if j < 12 {
        let c1 = a + rem2.take(12 - j);
        assert(c1 =~= r.take(12));
        assert(c1.take(12) =~= r.take(12));
        lemma_head_fields_prefix(c1, r);
        let r1 = rem2.skip(12 - j);
        let c2 = c1 + r1.take(l - 12);
        assert(c2 =~= r);
    } else {
        assert(a.take(12) =~= r.take(12));
        lemma_head_fields_prefix(a, r);
        let c1 = a + rem2.take(0);
        assert(c1 =~= a);
        let c2 = c1 + rem2.skip(0).take(l - j);
        assert(c2 =~= r);
    }
}

/// Read a packet delivered in two parts: a new builder given the first part
/// keeps it and returns nothing; given the second part it returns the whole
/// packet, with no byte left.
pub proof fn lemma_builder_split(r: Seq<u8>, j: int)
    requires
        valid_raw(r),
        0 < j < r.len(),
        r.len() <= usize::MAX,
    ensures
        builder_step(BuilderView { current: None, pos: 0 }, r.take(j)) == (
            Ok::<Option<(Seq<u8>, bool)>, Error>(None),
            BuilderView { current: Some(r.take(j)), pos: 0 },
        ),
        builder_step(BuilderView { current: Some(r.take(j)), pos: 0 }, r.skip(j)) == (
            Ok::<Option<(Seq<u8>, bool)>, Error>(Some((r, false))),
            BuilderView { current: None, pos: 0 },
        ),
{
    lemma_builder_split_first(r, j);
    lemma_builder_split_second(r, j);
}

// ------------------------------------------------------------------------
// Reading a stream cut into arbitrary read buffers
/// The packet that a builder holding the bytes `c` has begun: none when
/// `c` is empty.
pub open spec fn begun(c: Seq<u8>) -> Option<Seq<u8>> {
    if c.len() == 0 {
        None
    } else {
        Some(c)
    }
}

/// One call of `parse` on the packet `r` that a builder has begun with `c`
/// (a proper prefix of it), reading `buf` from `pos`: when the bytes of the
/// buffer complete `r`, it is returned with whether bytes follow it, and the
/// builder reads on after it (or from 0); otherwise the bytes read are kept
/// with `c` and the builder reads the next buffer from 0.
proof fn lemma_builder_step_packet(c: Seq<u8>, pos: usize, buf: Seq<u8>, r: Seq<u8>)
    requires
        valid_raw(r),
        c.len() < r.len(),
        pos < buf.len(),
        buf.len() <= usize::MAX,
        forall|i: int|
            0 <= i < c.len() + buf.len() - pos && i < r.len() ==> #[trigger] (c + buf.skip(
                pos as int,
            ))[i] == r[i],
    ensures
        ({
            let d = buf.skip(pos as int);
            let v = BuilderView { current: begun(c), pos };
            if c.len() + d.len() < r.len() {
                builder_step(v, buf) == (
                    Ok::<Option<(Seq<u8>, bool)>, Error>(None),
                    BuilderView { current: Some(c + d), pos: 0 },
                )
            } else {
                builder_step(v, buf) == (
                    Ok::<Option<(Seq<u8>, bool)>, Error>(
                        Some((r, c.len() + d.len() > r.len())),
                    ),
                    BuilderView {
                        current: None,
                        pos: if c.len() + d.len() > r.len() {
                            (pos + r.len() - c.len()) as usize
                        } else {
                            0
                        },
                    },
                )
            }
        }),
{
    let d = buf.skip(pos as int);
    let t = c + d;
    let tl = t.len() as int;
    let rl = r.len() as int;
    let cl = c.len() as int;
    let hn = if cl < 12 {
        min(12 - cl, d.len() as int)
    } else {
        0
    };
    let cur1 = c + d.take(hn);
    assert(cur1 =~= t.take(cl + hn));
    let rem1 = d.skip(hn);
    if cur1.len() >= 12 {
        assert(cur1.take(12) =~= r.take(12)) by {
            assert forall|i: int| 0 <= i < 12 implies cur1.take(12)[i] == r.take(12)[i] by {
                assert(cur1[i] == t[i]);
                assert(t[i] == r[i]);
            }
        }
        lemma_head_fields_prefix(cur1, r);
    }
    let bn = if rem1.len() > 0 && cur1.len() >= 12 {
        min(raw_len_of(cur1) - cur1.len(), rem1.len() as int)
    } else {
        0
    };
    let cur2 = cur1 + rem1.take(bn);
    assert(cur2 =~= t.take(cl + hn + bn));
    if tl < rl {
        assert(cur2 =~= t);
        if cur2.len() >= 12 {
            assert(cur2.take(12) =~= r.take(12)) by {
                assert forall|i: int| 0 <= i < 12 implies cur2.take(12)[i] == r.take(12)[i] by {
                    assert(t[i] == r[i]);
                }
            }
            lemma_head_fields_prefix(cur2, r);
        }
    } else {
        assert(cl + hn + bn == rl);
        assert(cur2 =~= r) by {
            assert forall|i: int| 0 <= i < rl implies cur2[i] == r[i] by {
                assert(t[i] == r[i]);
            }
        }
    }
}

/// What the read loop gets from one read buffer: it calls `parse` with the
/// buffer until a call returns no packet, a packet with nothing after it,
/// or an error (at most `fuel` calls). The result is the packets returned,
/// whether it ended without error within the calls, and the builder after.
pub open spec fn drain(v: BuilderView, buf: Seq<u8>, fuel: nat) -> (
    Seq<Seq<u8>>,
    bool,
    BuilderView,
)
    decreases fuel,
{
    if fuel == 0 {
        (Seq::empty(), false, v)
    } else {
        let (r, v1) = builder_step(v, buf);
        match r {
            Err(_) => (Seq::empty(), false, v1),
            Ok(None) => (Seq::empty(), true, v1),
            Ok(Some((p, more))) => if more {
                let (ps, ok, v2) = drain(v1, buf, (fuel - 1) as nat);
                (seq![p] + ps, ok, v2)
            } else {
                (seq![p], true, v1)
            },
        }
    }
}

/// What the read loop gets from a stream delivered as the read buffers
/// `bufs`, one after the other: the packets returned, whether no error
/// came, and the builder after them. Each buffer gets one call more than it
/// has bytes.
pub open spec fn read_stream(v: BuilderView, bufs: Seq<Seq<u8>>) -> (
    Seq<Seq<u8>>,
    bool,
    BuilderView,
)
    decreases bufs.len(),
{
    if bufs.len() == 0 {
        (Seq::empty(), true, v)
    } else {
        let (ps, ok, v1) = drain(v, bufs[0], bufs[0].len() + 1);
        if !ok {
            (ps, false, v1)
        } else {
            let (qs, ok2, v2) = read_stream(v1, bufs.drop_first());
            (ps + qs, ok2, v2)
        }
    }
}

/// Bytes that start the stream of the packets `qs` agree with the first
/// packet, and what they hold past it starts the stream of the others.
proof fn lemma_stream_prefix(qs: Seq<Seq<u8>>, t: Seq<u8>)
    requires
        qs.len() > 0,
        t.len() <= qs.flatten().len(),
        qs.flatten().take(t.len() as int) == t,
    ensures
        forall|i: int| 0 <= i < t.len() && i < qs[0].len() ==> #[trigger] t[i] == qs[0][i],
        t.len() > qs[0].len() ==> qs.drop_first().len() > 0,
        t.len() > qs[0].len() ==> qs.drop_first().flatten().take(t.len() - qs[0].len())
            == t.skip(qs[0].len() as int),
        qs.take(1).flatten() == qs[0],
{
    let r = qs[0];
    let s = qs.flatten();
    let rest = qs.drop_first();
    lemma_flatten_split(qs, 0);
    assert(qs.take(0) =~= Seq::<Seq<u8>>::empty());
    assert(qs.skip(1) =~= rest);
    assert(s =~= r + rest.flatten());
    assert forall|i: int| 0 <= i < t.len() && i < r.len() implies #[trigger] t[i] == r[i] by {
        assert(t[i] == s.take(t.len() as int)[i]);
    }
    if t.len() > r.len() {
        if rest.len() == 0 {
            assert(rest.flatten() =~= Seq::<u8>::empty());
        }
        assert(rest.flatten().take(t.len() - r.len()) =~= t.skip(r.len() as int)) by {
            assert forall|i: int| 0 <= i < t.len() - r.len() implies rest.flatten()[i] == t.skip(
                r.len() as int,
            )[i] by {
                assert(t[r.len() + i] == s.take(t.len() as int)[r.len() + i]);
            }
        }
    }
}

/// One read buffer: a builder that has begun the first of the packets `qs`
/// with `c`, given a buffer whose bytes from `pos` continue those packets,
/// returns the packets that the bytes complete, in order, and keeps what is
/// left of the next one; the result is how many packets and what is kept.
#[verifier::rlimit(50)]
proof fn lemma_drain_packets(
    qs: Seq<Seq<u8>>,
    c: Seq<u8>,
    pos: usize,
    buf: Seq<u8>,
    fuel: nat,
) -> (res: (nat, Seq<u8>))
    requires
        forall|i: int| 0 <= i < qs.len() ==> valid_raw(#[trigger] qs[i]),
        qs.len() > 0,
        c.len() < qs[0].len(),
        pos < buf.len() <= usize::MAX,
        c.len() + buf.len() - pos <= qs.flatten().len(),
        qs.flatten().take(c.len() + buf.len() - pos) == c + buf.skip(pos as int),
        fuel >= buf.len() - pos + 1,
    ensures
        res.0 <= qs.len(),
        drain(BuilderView { current: begun(c), pos }, buf, fuel) == (
            qs.take(res.0 as int),
            true,
            BuilderView { current: begun(res.1), pos: 0 },
        ),
        c + buf.skip(pos as int) == qs.take(res.0 as int).flatten() + res.1,
        res.0 < qs.len() ==> res.1.len() < qs[res.0 as int].len(),
        res.0 == qs.len() ==> res.1.len() == 0,
    decreases buf.len() - pos,
{
    let r = qs[0];
    let d = buf.skip(pos as int);
    let t = c + d;
    let rest = qs.drop_first();
    lemma_stream_prefix(qs, t);
    assert(valid_raw(r));
    lemma_builder_step_packet(c, pos, buf, r);
    if t.len() < r.len() {
        assert(qs.take(0) =~= Seq::<Seq<u8>>::empty());
        assert(qs.take(0).flatten() + t =~= t);
        (0, t)
    } else if t.len() == r.len() {
        assert(t =~= r);
        assert(r + Seq::<u8>::empty() =~= t);
        if 1 < qs.len() {
            assert(valid_raw(qs[1]));
        }
        (1, Seq::empty())
    } else {
        let pos2 = (pos + r.len() - c.len()) as usize;
        let d2 = buf.skip(pos2 as int);
        assert(d2 =~= t.skip(r.len() as int));
        assert(Seq::<u8>::empty() + d2 =~= d2);
        assert forall|i: int| 0 <= i < rest.len() implies valid_raw(#[trigger] rest[i]) by {
            assert(rest[i] == qs[i + 1]);
        }
        assert(rest[0] == qs[1]);
        let sub = lemma_drain_packets(rest, Seq::empty(), pos2, buf, (fuel - 1) as nat);
        let m = sub.0 + 1;
        let one = qs.take(1);
        assert(qs.take(m as int) =~= one + rest.take(sub.0 as int));
        lemma_flatten_concat(one, rest.take(sub.0 as int));
        assert(t =~= r + d2);
        if m < qs.len() {
            assert(qs[m as int] == rest[sub.0 as int]);
        }
        (m, sub.1)
    }
}

/// The read buffers after the first, with a builder that has kept `c` of
/// the first remaining packet: they yield the remaining packets.
proof fn lemma_read_stream_from(qs: Seq<Seq<u8>>, c: Seq<u8>, bufs: Seq<Seq<u8>>)
    requires
        forall|i: int| 0 <= i < qs.len() ==> valid_raw(#[trigger] qs[i]),
        forall|i: int| 0 <= i < bufs.len() ==> (#[trigger] bufs[i]).len() > 0,
        qs.flatten().len() <= usize::MAX,
        qs.len() > 0 ==> c.len() < qs[0].len(),
        qs.len() == 0 ==> c.len() == 0,
        c.len() <= qs.flatten().len(),
        qs.flatten().take(c.len() as int) == c,
        bufs.flatten() == qs.flatten().skip(c.len() as int),
    ensures
        read_stream(BuilderView { current: begun(c), pos: 0 }, bufs) == (
            qs,
            true,
            BuilderView { current: None, pos: 0 },
        ),
    decreases bufs.len(),
{
    let s = qs.flatten();
    if bufs.len() == 0 {
        assert(bufs.flatten() =~= Seq::<u8>::empty());
        if qs.len() > 0 {
            lemma_flatten_split(qs, 0);
            assert(qs.take(0) =~= Seq::<Seq<u8>>::empty());
            assert(s.len() >= qs[0].len());
        }
        assert(qs =~= Seq::<Seq<u8>>::empty());
    } else {
        let b = bufs[0];
        let more = bufs.drop_first();
        assert(bufs.flatten() == b + more.flatten());
        assert(b.len() > 0);
        assert(qs.len() > 0) by {
            if qs.len() == 0 {
                assert(s =~= Seq::<u8>::empty());
            }
        }
        assert(b.skip(0) =~= b);
        assert(s.take((c.len() + b.len()) as int) =~= c + b) by {
            assert(forall|i: int| 0 <= i < c.len() ==> s[i] == s.take(c.len() as int)[i]);
            assert(forall|i: int| 0 <= i < b.len() ==> b[i] == bufs.flatten()[i] && bufs.flatten()[i]
                == s.skip(c.len() as int)[i]);
        }
        let res = lemma_drain_packets(qs, c, 0, b, b.len() + 1);
        let m = res.0 as int;
        let c2 = res.1;
        let qs2 = qs.skip(m);
        assert(qs =~= qs.take(m) + qs2);
        lemma_flatten_concat(qs.take(m), qs2);
        let pre = qs.take(m).flatten();
        assert(c + b == pre + c2);
        assert(s == pre + qs2.flatten());
        assert(qs2.flatten().take(c2.len() as int) =~= c2) by {
            assert(forall|i: int| 0 <= i < c2.len() ==> c2[i] == (c + b)[pre.len() + i] && (c + b)[pre.len()
                + i] == s.take((c.len() + b.len()) as int)[pre.len() + i] && s[pre.len() + i]
                == qs2.flatten()[i]);
        }
        assert(more.flatten() =~= qs2.flatten().skip(c2.len() as int)) by {
            assert(s.skip(c.len() as int) =~= b + more.flatten());
            assert(forall|i: int| 0 <= i < more.flatten().len() ==> more.flatten()[i] == s.skip(
                c.len() as int,
            )[b.len() + i] && s[c.len() + b.len() + i] == qs2.flatten()[c2.len() + i]);
        }
        assert forall|i: int| 0 <= i < qs2.len() implies valid_raw(#[trigger] qs2[i]) by {
            assert(qs2[i] == qs[m + i]);
        }
        assert forall|i: int| 0 <= i < more.len() implies (#[trigger] more[i]).len() > 0 by {
            assert(more[i] == bufs[i + 1]);
        }
        if qs2.len() > 0 {
            assert(qs2[0] == qs[m]);
        }
        lemma_read_stream_from(qs2, c2, more);
    }
}

/// Read a stream cut anywhere: the bytes of valid packets, one after the
/// other, delivered as any sequence of non-empty read buffers, give a new
/// builder, called on each buffer as the read loop calls it, exactly those
/// packets, in order, with no error, and leave it with no packet begun.
/// A packet cut by the end of a buffer is kept, wherever it began in that
/// buffer, and completed by the buffers that follow.
pub proof fn lemma_builder_reads_stream(pkts: Seq<Seq<u8>>, bufs: Seq<Seq<u8>>)
    requires
        forall|i: int| 0 <= i < pkts.len() ==> valid_raw(#[trigger] pkts[i]),
        forall|i: int| 0 <= i < bufs.len() ==> (#[trigger] bufs[i]).len() > 0,
        bufs.flatten() == pkts.flatten(),
        pkts.flatten().len() <= usize::MAX,
    ensures
        read_stream(BuilderView { current: None, pos: 0 }, bufs) == (
            pkts,
            true,
            BuilderView { current: None, pos: 0 },
        ),
{
    let e = Seq::<u8>::empty();
    assert(pkts.flatten().take(0) =~= e);
    assert(pkts.flatten().skip(0) =~= pkts.flatten());
    if pkts.len() > 0 {
        assert(valid_raw(pkts[0]));
    }
    lemma_read_stream_from(pkts, e, bufs);
}

} // verus!
