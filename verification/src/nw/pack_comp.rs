//! The compressed-header message format.
//!
//! A message is a variable-length head followed by the body. The head starts
//! with a flag byte that tells how many bytes each of the following fields
//! takes:
//!
//! `| flag 1 byte | pid 1~2 bytes | idempotent 1~4 bytes | router_id 0~8 bytes | data_len 0~4 bytes |`
//!
//! Flag bits: `0x80` pid takes 2 bytes (else 1); `0x60` idempotent: `0x40` 4
//! bytes, `0x20` 2 bytes, `0x00` 1 byte; `0x1C` router_id: `0x1C` 8 bytes,
//! `0x0C` 4, `0x08` 2, `0x04` 1, `0x00` none; `0x03` data_len: `0x03` 4 bytes,
//! `0x02` 2, `0x01` 1, `0x00` none. Multi-byte fields are little-endian. A
//! field that takes no bytes is zero.

use crate::g::{Error, Result};
use crate::nw::wire::{
    le_bytes, le_value, lemma_le_bytes_len, lemma_le_value_bound, lemma_pow256_values, pow256,
    read_le, write_le,
};
use vstd::prelude::*;

verus! {

// ------------------------------------------------------------------------
// Flag bits
/// Bits of the flag that the pid width takes.
pub const PID_MASK: u8 = 0b1000_0000;

/// Bits of the flag that the idempotent width takes.
pub const IDEMPOTENT_MASK: u8 = 0b0110_0000;

/// Bits of the flag that the router_id width takes.
pub const ROUTER_ID_MASK: u8 = 0b0001_1100;

/// Bits of the flag that the data_len width takes.
pub const DATA_LEN_MASK: u8 = 0b0000_0011;

/// The pid takes 2 bytes.
pub const FLAG_PID_16: u8 = 0b1000_0000;

/// The idempotent takes 4 bytes.
pub const FLAG_IDEMPOTENT_32: u8 = 0b0100_0000;

/// The idempotent takes 2 bytes.
pub const FLAG_IDEMPOTENT_16: u8 = 0b0010_0000;

/// The router_id takes 8 bytes.
pub const FLAG_ROUTER_ID_64: u8 = 0b0001_1100;

/// The router_id takes 4 bytes.
pub const FLAG_ROUTER_ID_32: u8 = 0b0000_1100;

/// The router_id takes 2 bytes.
pub const FLAG_ROUTER_ID_16: u8 = 0b0000_1000;

/// The router_id takes 1 byte.
pub const FLAG_ROUTER_ID_8: u8 = 0b0000_0100;

/// The data_len takes 4 bytes.
pub const FLAG_DATA_LEN_32: u8 = 0b0000_0011;

/// The data_len takes 2 bytes.
pub const FLAG_DATA_LEN_16: u8 = 0b0000_0010;

/// The data_len takes 1 byte.
pub const FLAG_DATA_LEN_8: u8 = 0b0000_0001;

/// Smallest head: flag, a 1-byte pid and a 1-byte idempotent.
pub const MIN_SIZE: usize = 3;

// ------------------------------------------------------------------------
// What a flag says
/// Bytes of the pid under `flag`.
pub open spec fn pid_width(flag: u8) -> nat {
    if flag & PID_MASK == 0 {
        1
    } else {
        2
    }
}

/// Bytes of the idempotent under `flag`.
pub open spec fn idempotent_width(flag: u8) -> nat {
    if flag & IDEMPOTENT_MASK == FLAG_IDEMPOTENT_32 {
        4
    } else if flag & IDEMPOTENT_MASK == FLAG_IDEMPOTENT_16 {
        2
    } else {
        1
    }
}

/// Bytes of the router_id under `flag`.
pub open spec fn router_id_width(flag: u8) -> nat {
    if flag & ROUTER_ID_MASK == FLAG_ROUTER_ID_64 {
        8
    } else if flag & ROUTER_ID_MASK == FLAG_ROUTER_ID_32 {
        4
    } else if flag & ROUTER_ID_MASK == FLAG_ROUTER_ID_16 {
        2
    } else if flag & ROUTER_ID_MASK == FLAG_ROUTER_ID_8 {
        1
    } else {
        0
    }
}

/// Bytes of the data_len under `flag`.
pub open spec fn data_len_width(flag: u8) -> nat {
    if flag & DATA_LEN_MASK == FLAG_DATA_LEN_32 {
        4
    } else if flag & DATA_LEN_MASK == FLAG_DATA_LEN_16 {
        2
    } else if flag & DATA_LEN_MASK == FLAG_DATA_LEN_8 {
        1
    } else {
        0
    }
}

/// A flag is valid when its idempotent and router_id bits name one of the
/// widths above.
pub open spec fn flag_valid(flag: u8) -> bool {
    &&& flag & IDEMPOTENT_MASK != IDEMPOTENT_MASK
    &&& (flag & ROUTER_ID_MASK == 0 || flag & ROUTER_ID_MASK == FLAG_ROUTER_ID_8 || flag
        & ROUTER_ID_MASK == FLAG_ROUTER_ID_16 || flag & ROUTER_ID_MASK == FLAG_ROUTER_ID_32 || flag
        & ROUTER_ID_MASK == FLAG_ROUTER_ID_64)
}

/// Length of the head that `flag` describes.
pub open spec fn head_size(flag: u8) -> nat {
    1 + pid_width(flag) + idempotent_width(flag) + router_id_width(flag) + data_len_width(flag)
}

// ------------------------------------------------------------------------
// The flag that values call for
/// Pid bits for `pid`: 2 bytes above `0xFF`.
pub open spec fn pid_bits(pid: u16) -> u8 {
    if pid > 0xFF {
        FLAG_PID_16
    } else {
        0
    }
}

/// Idempotent bits for `idempotent`: 4 bytes above `0xFFFF`, 2 above `0xFF`.
pub open spec fn idempotent_bits(idempotent: u32) -> u8 {
    if idempotent > 0xFFFF {
        FLAG_IDEMPOTENT_32
    } else if idempotent > 0xFF {
        FLAG_IDEMPOTENT_16
    } else {
        0
    }
}

/// Router_id bits for `router_id`: 8, 4, 2, 1 or no bytes.
pub open spec fn router_id_bits(router_id: u64) -> u8 {
    if router_id > 0xFFFF_FFFF {
        FLAG_ROUTER_ID_64
    } else if router_id > 0xFFFF {
        FLAG_ROUTER_ID_32
    } else if router_id > 0xFF {
        FLAG_ROUTER_ID_16
    } else if router_id > 0 {
        FLAG_ROUTER_ID_8
    } else {
        0
    }
}

/// Data_len bits for `data_len`: 4, 2, 1 or no bytes.
pub open spec fn data_len_bits(data_len: usize) -> u8 {
    if data_len > 0xFFFF {
        FLAG_DATA_LEN_32
    } else if data_len > 0xFF {
        FLAG_DATA_LEN_16
    } else if data_len > 0 {
        FLAG_DATA_LEN_8
    } else {
        0
    }
}

/// The flag that the four values call for.
pub open spec fn flag_for(pid: u16, idempotent: u32, router_id: u64, data_len: usize) -> u8 {
    pid_bits(pid) | idempotent_bits(idempotent) | router_id_bits(router_id) | data_len_bits(
        data_len,
    )
}

// ------------------------------------------------------------------------
// Bit facts
proof fn lemma_or_zero(x: u8)
    ensures
        x | 0 == x,
        0 | x == x,
{
    assert(x | 0 == x && 0 | x == x) by (bit_vector);
}

/// Decoding the flag of four values gives back each group of bits.
proof fn lemma_flag_for_bits(p: u8, i: u8, r: u8, d: u8)
    requires
        p == 0 || p == 0x80,
        i == 0 || i == 0x20 || i == 0x40,
        r == 0 || r == 0x04 || r == 0x08 || r == 0x0C || r == 0x1C,
        d == 0 || d == 1 || d == 2 || d == 3,
    ensures
        (p | i | r | d) & 0x80 == p,
        (p | i | r | d) & 0x60 == i,
        (p | i | r | d) & 0x1C == r,
        (p | i | r | d) & 0x03 == d,
{
    assert((p | i | r | d) & 0x80 == p && (p | i | r | d) & 0x60 == i && (p | i | r | d) & 0x1C
        == r && (p | i | r | d) & 0x03 == d) by (bit_vector)
        requires
            p == 0 || p == 0x80,
            i == 0 || i == 0x20 || i == 0x40,
            r == 0 || r == 0x04 || r == 0x08 || r == 0x0C || r == 0x1C,
            d == 0 || d == 1 || d == 2 || d == 3,
    ;
}

/// Replacing the pid bits keeps the other groups.
proof fn lemma_replace_pid_bits(f: u8, b: u8)
    requires
        b == 0 || b == 0x80,
    ensures
        ((f & 0x7F) | b) & 0x80 == b,
        ((f & 0x7F) | b) & 0x60 == f & 0x60,
        ((f & 0x7F) | b) & 0x1C == f & 0x1C,
        ((f & 0x7F) | b) & 0x03 == f & 0x03,
{
    assert(((f & 0x7F) | b) & 0x80 == b && ((f & 0x7F) | b) & 0x60 == f & 0x60 && ((f & 0x7F) | b)
        & 0x1C == f & 0x1C && ((f & 0x7F) | b) & 0x03 == f & 0x03) by (bit_vector)
        requires
            b == 0 || b == 0x80,
    ;
}

/// Replacing the idempotent bits keeps the other groups.
proof fn lemma_replace_idempotent_bits(f: u8, b: u8)
    requires
        b == 0 || b == 0x20 || b == 0x40,
    ensures
        ((f & 0x9F) | b) & 0x80 == f & 0x80,
        ((f & 0x9F) | b) & 0x60 == b,
        ((f & 0x9F) | b) & 0x1C == f & 0x1C,
        ((f & 0x9F) | b) & 0x03 == f & 0x03,
{
    assert(((f & 0x9F) | b) & 0x80 == f & 0x80 && ((f & 0x9F) | b) & 0x60 == b && ((f & 0x9F) | b)
        & 0x1C == f & 0x1C && ((f & 0x9F) | b) & 0x03 == f & 0x03) by (bit_vector)
        requires
            b == 0 || b == 0x20 || b == 0x40,
    ;
}

/// Replacing the router_id bits keeps the other groups.
proof fn lemma_replace_router_id_bits(f: u8, b: u8)
    requires
        b == 0 || b == 0x04 || b == 0x08 || b == 0x0C || b == 0x1C,
    ensures
        ((f & 0xE3) | b) & 0x80 == f & 0x80,
        ((f & 0xE3) | b) & 0x60 == f & 0x60,
        ((f & 0xE3) | b) & 0x1C == b,
        ((f & 0xE3) | b) & 0x03 == f & 0x03,
{
    assert(((f & 0xE3) | b) & 0x80 == f & 0x80 && ((f & 0xE3) | b) & 0x60 == f & 0x60 && ((f & 0xE3)
        | b) & 0x1C == b && ((f & 0xE3) | b) & 0x03 == f & 0x03) by (bit_vector)
        requires
            b == 0 || b == 0x04 || b == 0x08 || b == 0x0C || b == 0x1C,
    ;
}

/// Replacing the data_len bits keeps the other groups.
proof fn lemma_replace_data_len_bits(f: u8, b: u8)
    requires
        b == 0 || b == 1 || b == 2 || b == 3,
    ensures
        ((f & 0xFC) | b) & 0x80 == f & 0x80,
        ((f & 0xFC) | b) & 0x60 == f & 0x60,
        ((f & 0xFC) | b) & 0x1C == f & 0x1C,
        ((f & 0xFC) | b) & 0x03 == b,
{
    assert(((f & 0xFC) | b) & 0x80 == f & 0x80 && ((f & 0xFC) | b) & 0x60 == f & 0x60 && ((f & 0xFC)
        | b) & 0x1C == f & 0x1C && ((f & 0xFC) | b) & 0x03 == b) by (bit_vector)
        requires
            b == 0 || b == 1 || b == 2 || b == 3,
    ;
}

/// The values that each group of bits of a flag can take.
proof fn lemma_data_len_bits_range(f: u8)
    ensures
        f & 0x03 == 0 || f & 0x03 == 1 || f & 0x03 == 2 || f & 0x03 == 3,
        f & 0x80 == 0 || f & 0x80 == 0x80,
        f & 0x60 == 0 || f & 0x60 == 0x20 || f & 0x60 == 0x40 || f & 0x60 == 0x60,
{
    assert((f & 0x03 == 0 || f & 0x03 == 1 || f & 0x03 == 2 || f & 0x03 == 3) && (f & 0x80 == 0
        || f & 0x80 == 0x80) && (f & 0x60 == 0 || f & 0x60 == 0x20 || f & 0x60 == 0x40 || f & 0x60
        == 0x60)) by (bit_vector);
}

/// Writing back the bits that a group already holds leaves the flag as it is.
proof fn lemma_same_bits(f: u8)
    ensures
        (f & 0x9F) | (f & 0x60) == f,
        (f & 0xE3) | (f & 0x1C) == f,
        (f & 0xFC) | (f & 0x03) == f,
{
    assert((f & 0x9F) | (f & 0x60) == f && (f & 0xE3) | (f & 0x1C) == f && (f & 0xFC) | (f & 0x03)
        == f) by (bit_vector);
}


// ------------------------------------------------------------------------
// Laws of the head format
/// The bytes of the four fields of an encoded head.
proof fn lemma_encode_parts(h: HeadView)
    ensures
        ({
            let e = h.encode();
            let p = 1 + pid_width(h.flag);
            let i = p + idempotent_width(h.flag);
            let r = i + router_id_width(h.flag);
            let d = r + data_len_width(h.flag);
            &&& e.len() == d
            &&& e[0] == h.flag
            &&& e.subrange(1, p as int) == le_bytes(h.pid as nat, pid_width(h.flag))
            &&& e.subrange(p as int, i as int) == le_bytes(
                h.idempotent as nat,
                idempotent_width(h.flag),
            )
            &&& e.subrange(i as int, r as int) == le_bytes(
                h.router_id as nat,
                router_id_width(h.flag),
            )
            &&& e.subrange(r as int, d as int) == le_bytes(
                h.data_len as nat,
                data_len_width(h.flag),
            )
        }),
{
    let f = h.flag;
    let a = le_bytes(h.pid as nat, pid_width(f));
    let b = le_bytes(h.idempotent as nat, idempotent_width(f));
    let c = le_bytes(h.router_id as nat, router_id_width(f));
    let d = le_bytes(h.data_len as nat, data_len_width(f));
    lemma_le_bytes_len(h.pid as nat, pid_width(f));
    lemma_le_bytes_len(h.idempotent as nat, idempotent_width(f));
    lemma_le_bytes_len(h.router_id as nat, router_id_width(f));
    lemma_le_bytes_len(h.data_len as nat, data_len_width(f));
    let e = h.encode();
    let p = 1 + a.len();
    let i = p + b.len();
    let r = i + c.len();
    assert(e.subrange(1, p as int) =~= a);
    assert(e.subrange(p as int, i as int) =~= b);
    assert(e.subrange(i as int, r as int) =~= c);
    assert(e.subrange(r as int, (r + d.len()) as int) =~= d);
}

/// Read back a head from what `to_bytes` wrote: a head with a valid flag, the
/// size that the flag describes and values that fit their widths is read
/// back exactly, and its bytes are as many as its size.
pub proof fn lemma_head_roundtrip(h: HeadView)
    requires
        h.wf(),
        h.fits(),
    ensures
        h.encode().len() == h.size,
        head_parses(h.encode()),
        decode_head(h.encode()) == h,
{
    lemma_encode_parts(h);
    crate::nw::wire::lemma_le_roundtrip(h.pid as nat, pid_width(h.flag));
    crate::nw::wire::lemma_le_roundtrip(h.idempotent as nat, idempotent_width(h.flag));
    crate::nw::wire::lemma_le_roundtrip(h.router_id as nat, router_id_width(h.flag));
    crate::nw::wire::lemma_le_roundtrip(h.data_len as nat, data_len_width(h.flag));
}

/// Write back a head that was read: it is well-formed, its values fit, and
/// its bytes are those of the buffer it was read from, up to its size.
pub proof fn lemma_head_reencode(buf: Seq<u8>)
    requires
        head_parses(buf),
    ensures
        decode_head(buf).wf(),
        decode_head(buf).fits(),
        decode_head(buf).encode() == buf.take(head_size(buf[0]) as int),
{
    let h = decode_head(buf);
    let f = buf[0];
    let p = 1 + pid_width(f);
    let i = p + idempotent_width(f);
    let r = i + router_id_width(f);
    let d = r + data_len_width(f);
    let sp = buf.subrange(1, p as int);
    let si = buf.subrange(p as int, i as int);
    let sr = buf.subrange(i as int, r as int);
    let sd = buf.subrange(r as int, d as int);
    lemma_pow256_values();
    lemma_le_value_bound(sp);
    lemma_le_value_bound(si);
    lemma_le_value_bound(sr);
    lemma_le_value_bound(sd);
    crate::nw::wire::lemma_le_bytes_of_value(sp);
    crate::nw::wire::lemma_le_bytes_of_value(si);
    crate::nw::wire::lemma_le_bytes_of_value(sr);
    crate::nw::wire::lemma_le_bytes_of_value(sd);
    assert(buf.take(d as int) =~= seq![f] + sp + si + sr + sd);
}

/// A head whose flag is the one that its values call for has a valid flag,
/// each field takes the width that its value calls for, and its values fit
/// those widths when its data_len fits in 4 bytes.
pub proof fn lemma_canonical_fits(h: HeadView)
    requires
        h.canonical(),
    ensures
        flag_valid(h.flag),
        h.flag & PID_MASK == pid_bits(h.pid),
        h.flag & IDEMPOTENT_MASK == idempotent_bits(h.idempotent),
        h.flag & ROUTER_ID_MASK == router_id_bits(h.router_id),
        h.flag & DATA_LEN_MASK == data_len_bits(h.data_len),
        h.data_len <= 0xFFFF_FFFF ==> h.fits(),
{
    lemma_flag_for_bits(
        pid_bits(h.pid),
        idempotent_bits(h.idempotent),
        router_id_bits(h.router_id),
        data_len_bits(h.data_len),
    );
    lemma_pow256_values();
}

// ------------------------------------------------------------------------
// Head
/// The fields of a head, as plain values.
pub struct HeadView {
    pub flag: u8,
    pub pid: u16,
    pub idempotent: u32,
    pub router_id: u64,
    pub data_len: usize,
    pub size: usize,
}

impl HeadView {
    /// The flag is valid and the size is the one that the flag describes.
    pub open spec fn wf(self) -> bool {
        flag_valid(self.flag) && self.size == head_size(self.flag)
    }

    /// Each value fits in the bytes that the flag gives it.
    pub open spec fn fits(self) -> bool {
        &&& (self.pid as nat) < pow256(pid_width(self.flag))
        &&& (self.idempotent as nat) < pow256(idempotent_width(self.flag))
        &&& (self.router_id as nat) < pow256(router_id_width(self.flag))
        &&& (self.data_len as nat) < pow256(data_len_width(self.flag))
    }

    /// The flag is the one that the values call for.
    pub open spec fn canonical(self) -> bool {
        self.flag == flag_for(self.pid, self.idempotent, self.router_id, self.data_len)
    }

    /// The bytes of the head: the flag, then each field little-endian in the
    /// width that the flag gives it.
    pub open spec fn encode(self) -> Seq<u8> {
        seq![self.flag] + le_bytes(self.pid as nat, pid_width(self.flag)) + le_bytes(
            self.idempotent as nat,
            idempotent_width(self.flag),
        ) + le_bytes(self.router_id as nat, router_id_width(self.flag)) + le_bytes(
            self.data_len as nat,
            data_len_width(self.flag),
        )
    }
}

/// The head that the start of `buf` holds, read as the flag (its first byte)
/// says. Meaningful when `head_parses(buf)`.
pub open spec fn decode_head(buf: Seq<u8>) -> HeadView {
    let flag = buf[0];
    let p = 1 + pid_width(flag);
    let i = p + idempotent_width(flag);
    let r = i + router_id_width(flag);
    let d = r + data_len_width(flag);
    HeadView {
        flag,
        pid: le_value(buf.subrange(1, p as int)) as u16,
        idempotent: le_value(buf.subrange(p as int, i as int)) as u32,
        router_id: le_value(buf.subrange(i as int, r as int)) as u64,
        data_len: le_value(buf.subrange(r as int, d as int)) as usize,
        size: d as usize,
    }
}

/// A head can be read from the start of `buf`: it holds a flag byte, the flag
/// is valid, and the head it describes fits in `buf`.
pub open spec fn head_parses(buf: Seq<u8>) -> bool {
    buf.len() >= MIN_SIZE && flag_valid(buf[0]) && buf.len() >= head_size(buf[0])
}

/// The default head: every field zero, a size of 3.
pub open spec fn default_head() -> HeadView {
    HeadView { flag: 0, pid: 0, idempotent: 0, router_id: 0, data_len: 0, size: MIN_SIZE }
}

/// Message head.
///
/// The head has a variable length: the flag says how many bytes each field
/// takes. Length of a head: 3 to 19 bytes.
#[derive(Debug)]
pub struct Head {
    flag: u8,
    pid: u16,
    idempotent: u32,
    router_id: u64,
    data_len: usize,
    size: usize,
}

impl View for Head {
    type V = HeadView;

    closed spec fn view(&self) -> HeadView {
        HeadView {
            flag: self.flag,
            pid: self.pid,
            idempotent: self.idempotent,
            router_id: self.router_id,
            data_len: self.data_len,
            size: self.size,
        }
    }
}

/// Bytes of the pid under `flag`.
fn pid_width_of(flag: u8) -> (w: usize)
    ensures
        w == pid_width(flag),
{
    if flag & PID_MASK == 0 {
        1
    } else {
        2
    }
}

/// Bytes of the idempotent under `flag`.
fn idempotent_width_of(flag: u8) -> (w: usize)
    ensures
        w == idempotent_width(flag),
{
    let bits = flag & IDEMPOTENT_MASK;
    if bits == FLAG_IDEMPOTENT_32 {
        4
    } else if bits == FLAG_IDEMPOTENT_16 {
        2
    } else {
        1
    }
}

/// Bytes of the router_id under `flag`.
fn router_id_width_of(flag: u8) -> (w: usize)
    ensures
        w == router_id_width(flag),
{
    let bits = flag & ROUTER_ID_MASK;
    if bits == FLAG_ROUTER_ID_64 {
        8
    } else if bits == FLAG_ROUTER_ID_32 {
        4
    } else if bits == FLAG_ROUTER_ID_16 {
        2
    } else if bits == FLAG_ROUTER_ID_8 {
        1
    } else {
        0
    }
}

/// Bytes of the data_len under `flag`.
fn data_len_width_of(flag: u8) -> (w: usize)
    ensures
        w == data_len_width(flag),
{
    let bits = flag & DATA_LEN_MASK;
    if bits == FLAG_DATA_LEN_32 {
        4
    } else if bits == FLAG_DATA_LEN_16 {
        2
    } else if bits == FLAG_DATA_LEN_8 {
        1
    } else {
        0
    }
}

/// Whether `flag` is valid.
fn flag_valid_of(flag: u8) -> (b: bool)
    ensures
        b == flag_valid(flag),
{
    let router = flag & ROUTER_ID_MASK;
    flag & IDEMPOTENT_MASK != IDEMPOTENT_MASK && (router == 0 || router == FLAG_ROUTER_ID_8
        || router == FLAG_ROUTER_ID_16 || router == FLAG_ROUTER_ID_32 || router
        == FLAG_ROUTER_ID_64)
}

impl Head {
    /// The head has a valid flag and the size that it describes.
    pub open spec fn wf(&self) -> bool {
        self@.wf()
    }

    /// Creates the default head: every field zero, a size of 3.
    ///
    /// The default head is not a usable one (its pid is zero).
    pub fn new() -> (h: Head)
        ensures
            h@ == default_head(),
            h.wf(),
            h@.canonical(),
    {
        proof {
            assert(0u8 & 0x80 == 0 && 0u8 & 0x60 == 0 && 0u8 & 0x1C == 0 && 0u8 & 0x03 == 0)
                by (bit_vector);
            lemma_or_zero(0);
        }
        Head { flag: 0, pid: 0, idempotent: 0, router_id: 0, data_len: 0, size: MIN_SIZE }
    }

    /// Builds the head of a message from its fields; the flag and the size
    /// follow from the values.
    ///
    /// `pid` and `idempotent` must be greater than zero.
    pub fn with_params(pid: u16, idempotent: u32, router_id: u64, data_len: usize) -> (h: Head)
        requires
            pid > 0,
            idempotent > 0,
        ensures
            h@.pid == pid,
            h@.idempotent == idempotent,
            h@.router_id == router_id,
            h@.data_len == data_len,
            h@.flag == flag_for(pid, idempotent, router_id, data_len),
            h@.size == head_size(h@.flag),
            h.wf(),
            h@.canonical(),
    {
        let mut flag: u8 = 0;
        let mut size: usize = MIN_SIZE;

        // pid: 1 byte up to 0xFF, else 2 bytes.
        if pid > 0xFF {
            flag = flag | FLAG_PID_16;
            size = size + 1;
        }
        proof {
            lemma_or_zero(FLAG_PID_16);
            assert(flag == pid_bits(pid));
        }
        let ghost f1 = flag;

        // idempotent: 1, 2 or 4 bytes.
        if idempotent > 0xFFFF {
            flag = flag | FLAG_IDEMPOTENT_32;
            size = size + 3;
        } else if idempotent > 0xFF {
            flag = flag | FLAG_IDEMPOTENT_16;
            size = size + 1;
        }
        proof {
            lemma_or_zero(f1);
            assert(flag == f1 | idempotent_bits(idempotent));
        }
        let ghost f2 = flag;

        // router_id: no byte for 0, else 1, 2, 4 or 8 bytes.
        if router_id > 0xFFFF_FFFF {
            flag = flag | FLAG_ROUTER_ID_64;
            size = size + 8;
        } else if router_id > 0xFFFF {
            flag = flag | FLAG_ROUTER_ID_32;
            size = size + 4;
        } else if router_id > 0xFF {
            flag = flag | FLAG_ROUTER_ID_16;
            size = size + 2;
        } else if router_id > 0 {
            flag = flag | FLAG_ROUTER_ID_8;
            size = size + 1;
        }
        proof {
            lemma_or_zero(f2);
            assert(flag == f2 | router_id_bits(router_id));
        }
        let ghost f3 = flag;

        // data_len: no byte for 0, else 1, 2 or 4 bytes.
        if data_len > 0xFFFF {
            flag = flag | FLAG_DATA_LEN_32;
            size = size + 4;
        } else if data_len > 0xFF {
            flag = flag | FLAG_DATA_LEN_16;
            size = size + 2;
        } else if data_len > 0 {
            flag = flag | FLAG_DATA_LEN_8;
            size = size + 1;
        }
        proof {
            lemma_or_zero(f3);
            assert(flag == f3 | data_len_bits(data_len));
            lemma_flag_for_bits(
                pid_bits(pid),
                idempotent_bits(idempotent),
                router_id_bits(router_id),
                data_len_bits(data_len),
            );
        }
        Head { flag, pid, idempotent, router_id, data_len, size }
    }

    /// Bytes that the pid takes: 1 or 2.
    pub fn flag_pid(&self) -> (n: u8)
        ensures
            n == pid_width(self@.flag),
    {
        if (self.flag & PID_MASK) == 0 {
            1
        } else {
            2
        }
    }

    /// Bytes that the idempotent takes: 1, 2 or 4.
    pub fn flag_idempotent(&self) -> (n: u8)
        requires
            self@.flag & IDEMPOTENT_MASK != IDEMPOTENT_MASK,
        ensures
            n == idempotent_width(self@.flag),
    {
        let bits = self.flag & IDEMPOTENT_MASK;
        if bits == 0 {
            1
        } else if bits == FLAG_IDEMPOTENT_16 {
            2
        } else {
            proof {
                lemma_data_len_bits_range(self.flag);
            }
            4
        }
    }

    /// Bytes that the router_id takes: 0, 1, 2, 4 or 8.
    pub fn flag_router_id(&self) -> (n: u8)
        requires
            flag_valid(self@.flag),
        ensures
            n == router_id_width(self@.flag),
    {
        let bits = self.flag & ROUTER_ID_MASK;
        if bits == 0 {
            0
        } else if bits == FLAG_ROUTER_ID_8 {
            1
        } else if bits == FLAG_ROUTER_ID_16 {
            2
        } else if bits == FLAG_ROUTER_ID_32 {
            4
        } else {
            8
        }
    }

    /// Bytes that the data_len takes: 0, 1, 2 or 4.
    pub fn flag_data_len(&self) -> (n: u8)
        ensures
            n == data_len_width(self@.flag),
    {
        let bits = self.flag & DATA_LEN_MASK;
        proof {
            lemma_data_len_bits_range(self.flag);
        }
        if bits == 0 {
            0
        } else if bits == FLAG_DATA_LEN_8 {
            1
        } else if bits == FLAG_DATA_LEN_16 {
            2
        } else {
            4
        }
    }

    /// Sets the pid; its width in the flag and the size follow.
    ///
    /// `pid` must be greater than zero.
    pub fn set_pid(&mut self, pid: u16)
        requires
            old(self).wf(),
            pid > 0,
        ensures
            final(self).wf(),
            final(self)@ == head_after(old(self)@, HeadSet::Pid(pid)),
            final(self)@ == (HeadView {
                flag: (old(self)@.flag & 0x7F) | pid_bits(pid),
                pid,
                size: final(self)@.size,
                ..old(self)@
            }),
            final(self)@.size == old(self)@.size - pid_width(old(self)@.flag) + pid_width(
                final(self)@.flag,
            ),
    {
        let ghost f0 = self.flag;
        proof {
            lemma_replace_pid_bits(f0, pid_bits(pid));
            lemma_data_len_bits_range(f0);
            lemma_or_zero(f0 & 0x7F);
            assert(f0 & 0x80 == 0x80 ==> f0 & 0x7F | 0x80 == f0) by (bit_vector);
            assert(f0 & 0x80 == 0 ==> f0 & 0x7F == f0) by (bit_vector);
        }
        if pid > 0xFF {
            if self.flag & PID_MASK == 0 {
                self.flag = self.flag & 0b0111_1111 | FLAG_PID_16;
                self.size = self.size + 1;
            }
        } else {
            if self.flag & PID_MASK != 0 {
                self.flag = self.flag & 0b0111_1111;
                self.size = self.size - 1;
            }
        }
        self.pid = pid;
    }

    /// Sets the idempotent; its width in the flag and the size follow.
    ///
    /// `idempotent` must be greater than zero.
    pub fn set_idempotent(&mut self, idempotent: u32)
        requires
            old(self).wf(),
            idempotent > 0,
        ensures
            final(self).wf(),
            final(self)@ == head_after(old(self)@, HeadSet::Idempotent(idempotent)),
            final(self)@ == (HeadView {
                flag: (old(self)@.flag & 0x9F) | idempotent_bits(idempotent),
                idempotent,
                size: final(self)@.size,
                ..old(self)@
            }),
            final(self)@.size == old(self)@.size - idempotent_width(old(self)@.flag)
                + idempotent_width(final(self)@.flag),
    {
        let ghost f0 = self.flag;
        proof {
            lemma_replace_idempotent_bits(f0, idempotent_bits(idempotent));
            lemma_data_len_bits_range(f0);
            lemma_same_bits(f0);
            lemma_or_zero(f0 & 0x9F);
        }
        let osize = idempotent_width_of(self.flag);
        let nsize: usize = if idempotent > 0xFFFF {
            if osize != 4 {
                self.flag = self.flag & 0b1001_1111 | FLAG_IDEMPOTENT_32;
            }
            4
        } else if idempotent > 0xFF {
            if osize != 2 {
                self.flag = self.flag & 0b1001_1111 | FLAG_IDEMPOTENT_16;
            }
            2
        } else {
            if osize != 1 {
                self.flag = self.flag & 0b1001_1111;
            }
            1
        };
        self.size = self.size - osize + nsize;
        self.idempotent = idempotent;
    }

    /// Sets the router_id; its width in the flag and the size follow.
    pub fn set_router_id(&mut self, router_id: u64)
        requires
            old(self).wf(),
        ensures
            final(self).wf(),
            final(self)@ == head_after(old(self)@, HeadSet::RouterId(router_id)),
            final(self)@ == (HeadView {
                flag: (old(self)@.flag & 0xE3) | router_id_bits(router_id),
                router_id,
                size: final(self)@.size,
                ..old(self)@
            }),
            final(self)@.size == old(self)@.size - router_id_width(old(self)@.flag)
                + router_id_width(final(self)@.flag),
    {
        let ghost f0 = self.flag;
        proof {
            lemma_replace_router_id_bits(f0, router_id_bits(router_id));
            lemma_data_len_bits_range(f0);
            lemma_same_bits(f0);
            lemma_or_zero(f0 & 0xE3);
        }
        let osize = router_id_width_of(self.flag);
        let nsize: usize = if router_id > 0xFFFF_FFFF {
            if osize != 8 {
                self.flag = self.flag & 0b1110_0011 | FLAG_ROUTER_ID_64;
            }
            8
        } else if router_id > 0xFFFF {
            if osize != 4 {
                self.flag = self.flag & 0b1110_0011 | FLAG_ROUTER_ID_32;
            }
            4
        } else if router_id > 0xFF {
            if osize != 2 {
                self.flag = self.flag & 0b1110_0011 | FLAG_ROUTER_ID_16;
            }
            2
        } else if router_id > 0 {
            if osize != 1 {
                self.flag = self.flag & 0b1110_0011 | FLAG_ROUTER_ID_8;
            }
            1
        } else {
            if osize != 0 {
                self.flag = self.flag & 0b1110_0011;
            }
            0
        };
        self.size = self.size - osize + nsize;
        self.router_id = router_id;
    }

    /// Sets the data_len; its width in the flag and the size follow.
    pub fn set_data_len(&mut self, data_len: usize)
        requires
            old(self).wf(),
        ensures
            final(self).wf(),
            final(self)@ == head_after(old(self)@, HeadSet::DataLen(data_len)),
            final(self)@ == (HeadView {
                flag: (old(self)@.flag & 0xFC) | data_len_bits(data_len),
                data_len,
                size: final(self)@.size,
                ..old(self)@
            }),
            final(self)@.size == old(self)@.size - data_len_width(old(self)@.flag)
                + data_len_width(final(self)@.flag),
    {
        let ghost f0 = self.flag;
        proof {
            lemma_replace_data_len_bits(f0, data_len_bits(data_len));
            lemma_data_len_bits_range(f0);
            lemma_same_bits(f0);
            lemma_or_zero(f0 & 0xFC);
        }
        let osize = data_len_width_of(self.flag);
        let nsize: usize = if data_len > 0xFFFF {
            if osize != 4 {
                self.flag = self.flag & 0b1111_1100 | FLAG_DATA_LEN_32;
            }
            4
        } else if data_len > 0xFF {
            if osize != 2 {
                self.flag = self.flag & 0b1111_1100 | FLAG_DATA_LEN_16;
            }
            2
        } else if data_len > 0 {
            if osize != 1 {
                self.flag = self.flag & 0b1111_1100 | FLAG_DATA_LEN_8;
            }
            1
        } else {
            if osize != 0 {
                self.flag = self.flag & 0b1111_1100;
            }
            0
        };
        self.size = self.size - osize + nsize;
        self.data_len = data_len;
    }

    /// Writes the head into `buf`: the flag, then each field little-endian in
    /// the width that the flag gives it.
    ///
    /// `buf` must be exactly as long as the head.
    pub fn to_bytes(&self, buf: &mut [u8])
        requires
            self.wf(),
            old(buf)@.len() == self@.size,
        ensures
            final(buf)@ == self@.encode(),
    {
        let flag_pid = pid_width_of(self.flag);
        let flag_idempotent = idempotent_width_of(self.flag);
        let flag_router_id = router_id_width_of(self.flag);
        let flag_data_len = data_len_width_of(self.flag);
        proof {
            lemma_le_bytes_len(self.pid as nat, flag_pid as nat);
            lemma_le_bytes_len(self.idempotent as nat, flag_idempotent as nat);
            lemma_le_bytes_len(self.router_id as nat, flag_router_id as nat);
            lemma_le_bytes_len(self.data_len as nat, flag_data_len as nat);
        }
        let ghost b0 = buf@;

        // flag
        buf[0] = self.flag;
        let mut pos: usize = 1;
        let ghost b1 = buf@;
        assert(b1.take(1) =~= seq![self.flag]);

        // pid
        write_le(buf, pos, self.pid as u64, flag_pid);
        pos = pos + flag_pid;
        let ghost b2 = buf@;
        assert(b2.take(pos as int) =~= seq![self.flag] + le_bytes(self.pid as nat, flag_pid as nat));

        // idempotent
        write_le(buf, pos, self.idempotent as u64, flag_idempotent);
        pos = pos + flag_idempotent;
        let ghost b3 = buf@;
        assert(b3.take(pos as int) =~= b2.take((pos - flag_idempotent) as int) + le_bytes(
            self.idempotent as nat,
            flag_idempotent as nat,
        ));

        // router_id
        write_le(buf, pos, self.router_id, flag_router_id);
        pos = pos + flag_router_id;
        let ghost b4 = buf@;
        assert(b4.take(pos as int) =~= b3.take((pos - flag_router_id) as int) + le_bytes(
            self.router_id as nat,
            flag_router_id as nat,
        ));

        // data_len
        write_le(buf, pos, self.data_len as u64, flag_data_len);
        pos = pos + flag_data_len;
        let ghost b5 = buf@;
        assert(b5.take(pos as int) =~= b4.take((pos - flag_data_len) as int) + le_bytes(
            self.data_len as nat,
            flag_data_len as nat,
        ));
        assert(b5 =~= b5.take(pos as int));
    }

    /// Reads a head from the start of `buf`.
    ///
    /// Fails with `PackHeadInvalid`, leaving the head as it was, when `buf`
    /// is shorter than 3 bytes, when its flag is not valid, or when it is
    /// shorter than the head that its flag describes.
    pub fn parse(&mut self, buf: &[u8]) -> (r: Result<()>)
        requires
            old(self).wf(),
        ensures
            head_parses(buf@) ==> r is Ok && final(self)@ == decode_head(buf@),
            !head_parses(buf@) ==> r == Err::<(), Error>(Error::PackHeadInvalid) && final(self)@
                == old(self)@,
            final(self).wf(),
    {
        let buf_len = buf.len();
        if buf_len < MIN_SIZE {
            return Err(Error::PackHeadInvalid);
        }
        let flag = buf[0];
        if !flag_valid_of(flag) {
            return Err(Error::PackHeadInvalid);
        }
        let flag_pid = pid_width_of(flag);
        let flag_idempotent = idempotent_width_of(flag);
        let flag_router_id = router_id_width_of(flag);
        let flag_data_len = data_len_width_of(flag);
        let size = 1 + flag_pid + flag_idempotent + flag_router_id + flag_data_len;
        if buf_len < size {
            return Err(Error::PackHeadInvalid);
        }
        proof {
            lemma_pow256_values();
        }
        let mut offset: usize = 1;
        let pid = read_le(buf, offset, flag_pid);
        proof {
            lemma_le_value_bound(buf@.subrange(offset as int, offset + flag_pid));
        }
        offset = offset + flag_pid;
        let idempotent = read_le(buf, offset, flag_idempotent);
        proof {
            lemma_le_value_bound(buf@.subrange(offset as int, offset + flag_idempotent));
        }
        offset = offset + flag_idempotent;
        let router_id = read_le(buf, offset, flag_router_id);
        offset = offset + flag_router_id;
        let data_len = read_le(buf, offset, flag_data_len);
        proof {
            lemma_le_value_bound(buf@.subrange(offset as int, offset + flag_data_len));
        }
        offset = offset + flag_data_len;

        self.flag = flag;
        self.pid = pid as u16;
        self.idempotent = idempotent as u32;
        self.router_id = router_id;
        self.data_len = data_len as usize;
        self.size = offset;
        Ok(())
    }
    /// Length of the head.
    pub fn size(&self) -> (n: usize)
        ensures
            n == self@.size,
    {
        self.size
    }

    /// The flag byte.
    pub fn flag(&self) -> (f: u8)
        ensures
            f == self@.flag,
    {
        self.flag
    }

    /// The package id.
    pub fn pid(&self) -> (p: u16)
        ensures
            p == self@.pid,
    {
        self.pid
    }

    /// The idempotent.
    pub fn idempotent(&self) -> (i: u32)
        ensures
            i == self@.idempotent,
    {
        self.idempotent
    }

    /// The router id.
    pub fn router_id(&self) -> (r: u64)
        ensures
            r == self@.router_id,
    {
        self.router_id
    }

    /// The length of the message body.
    pub fn data_len(&self) -> (d: usize)
        ensures
            d == self@.data_len,
    {
        self.data_len
    }
}

// ------------------------------------------------------------------------
// Package
/// A package as plain values.
pub struct PackageView {
    pub head: HeadView,
    pub data_pos: usize,
    pub data_left: usize,
    pub data: Seq<u8>,
}

/// `data` grown with zeros to `n` bytes when it is not longer than `n`;
/// otherwise `data` as it is.
pub open spec fn grown(data: Seq<u8>, n: nat) -> Seq<u8> {
    if n >= data.len() {
        data + Seq::new((n - data.len()) as nat, |i: int| 0u8)
    } else {
        data
    }
}

/// What `Package::parse` returns on `buf`, and the package after it.
///
/// The head is read from the start of `buf`; a head that cannot be read
/// leaves the package as it was. The data buffer grows to the head's data_len
/// when it is not longer. At the start of a message (`data_pos == 0`) the
/// bytes after the head fill the whole data buffer; otherwise all of `buf`
/// fills the data buffer from `data_pos` on. When the bytes do not fill it
/// exactly the result is `BufSizeInvalid`. The package is complete when the
/// data received so far is as long as the data_len that its first head gave.
pub open spec fn parse_result(p: PackageView, buf: Seq<u8>) -> (Result<bool>, PackageView) {
    if !head_parses(buf) {
        (Err(Error::PackHeadInvalid), p)
    } else {
        let h = decode_head(buf);
        let data = grown(p.data, h.data_len as nat);
        if p.data_pos == 0 {
            let body = buf.skip(h.size as int);
            if body.len() != data.len() {
                (Err(Error::BufSizeInvalid), PackageView { head: h, data, ..p })
            } else {
                let pos = body.len() as usize;
                (
                    Ok(pos > 0 && h.data_len == pos),
                    PackageView { head: h, data_pos: pos, data_left: h.data_len, data: body },
                )
            }
        } else {
            if p.data_pos > data.len() || buf.len() != data.len() - p.data_pos {
                (Err(Error::BufSizeInvalid), PackageView { head: h, data, ..p })
            } else {
                let pos = data.len() as usize;
                (
                    Ok(pos > 0 && p.data_left == pos),
                    PackageView {
                        head: h,
                        data_pos: pos,
                        data: data.take(p.data_pos as int) + buf,
                        ..p
                    },
                )
            }
        }
    }
}

/// Read back a message from what `to_bytes` wrote: a well-formed head whose
/// values fit, followed by a body as long as its data_len, is read by a
/// package at the start of a message whose data buffer is not longer than
/// the body; the package then holds that head and that body, and it is
/// complete when the body is not empty.
pub proof fn lemma_package_roundtrip(h: HeadView, d: Seq<u8>, q: PackageView)
    requires
        h.wf(),
        h.fits(),
        h.data_len == d.len(),
        q.data_pos == 0,
        q.data.len() <= d.len(),
    ensures
        parse_result(q, h.encode() + d) == (
            Ok::<bool, Error>(d.len() > 0),
            PackageView { head: h, data_pos: d.len() as usize, data_left: d.len() as usize, data: d },
        ),
{
    let e = h.encode();
    let buf = e + d;
    lemma_head_roundtrip(h);
    lemma_encode_parts(h);
    let f = h.flag;
    let p = 1 + pid_width(f);
    let i = p + idempotent_width(f);
    let r = i + router_id_width(f);
    let z = r + data_len_width(f);
    assert(buf.subrange(1, p as int) =~= e.subrange(1, p as int));
    assert(buf.subrange(p as int, i as int) =~= e.subrange(p as int, i as int));
    assert(buf.subrange(i as int, r as int) =~= e.subrange(i as int, r as int));
    assert(buf.subrange(r as int, z as int) =~= e.subrange(r as int, z as int));
    assert(buf[0] == e[0]);
    assert(decode_head(buf) == decode_head(e));
    assert(buf.skip(h.size as int) =~= d);
    assert(grown(q.data, d.len()).len() == d.len());
}

/// Read back a message from what `set` and `to_bytes` wrote, for a body
/// whose length fits in 4 bytes: the head that the values call for and the
/// body are read back.
pub proof fn lemma_package_set_roundtrip(
    pid: u16,
    idempotent: u32,
    router_id: u64,
    d: Seq<u8>,
    q: PackageView,
)
    requires
        d.len() <= 0xFFFF_FFFF,
        q.data_pos == 0,
        q.data.len() <= d.len(),
    ensures
        ({
            let f = flag_for(pid, idempotent, router_id, d.len() as usize);
            let h = HeadView {
                flag: f,
                pid,
                idempotent,
                router_id,
                data_len: d.len() as usize,
                size: head_size(f) as usize,
            };
            parse_result(q, h.encode() + d) == (
                Ok::<bool, Error>(d.len() > 0),
                PackageView {
                    head: h,
                    data_pos: d.len() as usize,
                    data_left: d.len() as usize,
                    data: d,
                },
            )
        }),
{
    let f = flag_for(pid, idempotent, router_id, d.len() as usize);
    let h = HeadView {
        flag: f,
        pid,
        idempotent,
        router_id,
        data_len: d.len() as usize,
        size: head_size(f) as usize,
    };
    lemma_canonical_fits(h);
    lemma_package_roundtrip(h, d, q);
}

/// Message in the compressed-header format: a head and the body.
#[derive(Debug)]
pub struct Package {
    head: Head,
    data_pos: usize,
    data_left: usize,
    data: Vec<u8>,
}

impl View for Package {
    type V = PackageView;

    closed spec fn view(&self) -> PackageView {
        PackageView {
            head: self.head@,
            data_pos: self.data_pos,
            data_left: self.data_left,
            data: self.data@,
        }
    }
}

/// Setting all four values gives the flag that the values call for.
proof fn lemma_groups_determine_flag(f: u8, p: u8, i: u8, r: u8, d: u8)
    requires
        f & 0x80 == p,
        f & 0x60 == i,
        f & 0x1C == r,
        f & 0x03 == d,
    ensures
        f == p | i | r | d,
{
    assert(f == p | i | r | d) by (bit_vector)
        requires
            f & 0x80 == p,
            f & 0x60 == i,
            f & 0x1C == r,
            f & 0x03 == d,
    ;
}

// ------------------------------------------------------------------------
// Setter calls
/// A call of one of the four setters of a head.
pub enum HeadSet {
    Pid(u16),
    Idempotent(u32),
    RouterId(u64),
    DataLen(usize),
}

/// The head after a setter call: the field takes the value, its bits in the
/// flag become those that the value calls for, the other bits stay, and the
/// size is the one that the new flag describes.
pub open spec fn head_after(h: HeadView, op: HeadSet) -> HeadView {
    match op {
        HeadSet::Pid(pid) => {
            let f = (h.flag & 0x7F) | pid_bits(pid);
            HeadView { flag: f, pid, size: head_size(f) as usize, ..h }
        },
        HeadSet::Idempotent(idempotent) => {
            let f = (h.flag & 0x9F) | idempotent_bits(idempotent);
            HeadView { flag: f, idempotent, size: head_size(f) as usize, ..h }
        },
        HeadSet::RouterId(router_id) => {
            let f = (h.flag & 0xE3) | router_id_bits(router_id);
            HeadView { flag: f, router_id, size: head_size(f) as usize, ..h }
        },
        HeadSet::DataLen(data_len) => {
            let f = (h.flag & 0xFC) | data_len_bits(data_len);
            HeadView { flag: f, data_len, size: head_size(f) as usize, ..h }
        },
    }
}

/// The head after a run of setter calls, in order.
pub open spec fn head_after_all(h: HeadView, ops: Seq<HeadSet>) -> HeadView
    decreases ops.len(),
{
    if ops.len() == 0 {
        h
    } else {
        head_after_all(head_after(h, ops[0]), ops.drop_first())
    }
}

/// One setter call keeps a head's flag the one that its values call for.
proof fn lemma_head_after_canonical(h: HeadView, op: HeadSet)
    requires
        h.canonical(),
    ensures
        head_after(h, op).canonical(),
{
    let p = pid_bits(h.pid);
    let i = idempotent_bits(h.idempotent);
    let r = router_id_bits(h.router_id);
    let d = data_len_bits(h.data_len);
    lemma_flag_for_bits(p, i, r, d);
    let f = h.flag;
    match op {
        HeadSet::Pid(pid) => {
            lemma_replace_pid_bits(f, pid_bits(pid));
            lemma_groups_determine_flag((f & 0x7F) | pid_bits(pid), pid_bits(pid), i, r, d);
        },
        HeadSet::Idempotent(idempotent) => {
            lemma_replace_idempotent_bits(f, idempotent_bits(idempotent));
            lemma_groups_determine_flag(
                (f & 0x9F) | idempotent_bits(idempotent),
                p,
                idempotent_bits(idempotent),
                r,
                d,
            );
        },
        HeadSet::RouterId(router_id) => {
            lemma_replace_router_id_bits(f, router_id_bits(router_id));
            lemma_groups_determine_flag(
                (f & 0xE3) | router_id_bits(router_id),
                p,
                i,
                router_id_bits(router_id),
                d,
            );
        },
        HeadSet::DataLen(data_len) => {
            lemma_replace_data_len_bits(f, data_len_bits(data_len));
            lemma_groups_determine_flag(
                (f & 0xFC) | data_len_bits(data_len),
                p,
                i,
                r,
                data_len_bits(data_len),
            );
        },
    }
}

/// Widths follow values: a head made by `new` or `with_params` (its flag is
/// the one that its values call for) keeps that property through any run of
/// setter calls, so each field takes exactly the bytes that its value calls
/// for (`flag_pid` is 2 exactly when the pid is above `0xFF`, and so on),
/// and the head stays well-formed.
pub proof fn lemma_setters_keep_widths(h: HeadView, ops: Seq<HeadSet>)
    requires
        h.wf(),
        h.canonical(),
    ensures
        head_after_all(h, ops).canonical(),
        head_after_all(h, ops).wf(),
        pid_width(head_after_all(h, ops).flag) == if head_after_all(h, ops).pid > 0xFF {
            2nat
        } else {
            1nat
        },
        idempotent_width(head_after_all(h, ops).flag) == if head_after_all(h, ops).idempotent
            > 0xFFFF {
            4nat
        } else if head_after_all(h, ops).idempotent > 0xFF {
            2nat
        } else {
            1nat
        },
        router_id_width(head_after_all(h, ops).flag) == if head_after_all(h, ops).router_id
            > 0xFFFF_FFFF {
            8nat
        } else if head_after_all(h, ops).router_id > 0xFFFF {
            4nat
        } else if head_after_all(h, ops).router_id > 0xFF {
            2nat
        } else if head_after_all(h, ops).router_id > 0 {
            1nat
        } else {
            0nat
        },
        data_len_width(head_after_all(h, ops).flag) == if head_after_all(h, ops).data_len
            > 0xFFFF {
            4nat
        } else if head_after_all(h, ops).data_len > 0xFF {
            2nat
        } else if head_after_all(h, ops).data_len > 0 {
            1nat
        } else {
            0nat
        },
    decreases ops.len(),
{
    if ops.len() > 0 {
        lemma_head_after_canonical(h, ops[0]);
        let h1 = head_after(h, ops[0]);
        lemma_canonical_fits(h1);
        assert(head_size(h1.flag) <= 19);
        lemma_setters_keep_widths(h1, ops.drop_first());
    } else {
        lemma_canonical_fits(h);
    }
}

impl Package {
    /// The head is well-formed.
    pub open spec fn wf(&self) -> bool {
        self@.head.wf()
    }

    /// Creates an empty package with the default head.
    pub fn new() -> (p: Package)
        ensures
            p.wf(),
            p@.head == default_head(),
            p@.data_pos == 0,
            p@.data_left == 0,
            p@.data == Seq::<u8>::empty(),
    {
        Package { head: Head::new(), data_pos: 0, data_left: 0, data: Vec::new() }
    }

    /// The bytes of the message: the head, then the body.
    ///
    /// The body must be as long as the head's data_len.
    pub fn to_bytes(&self) -> (buf: Vec<u8>)
        requires
            self.wf(),
            self@.data.len() == self@.head.data_len,
        ensures
            buf@ == self@.head.encode() + self@.data,
    {
        let mut buf: Vec<u8> = vec![0u8; self.head.size()];
        self.head.to_bytes(buf.as_mut_slice());
        let ghost head = buf@;
        buf.extend_from_slice(self.data.as_slice());
        assert(buf@ =~= head + self@.data);
        buf
    }

    /// The body.
    pub fn data(&self) -> (d: &[u8])
        ensures
            d@ == self@.data,
    {
        self.data.as_slice()
    }

    /// Sets the four fields of the head and the body.
    ///
    /// The head becomes the one that the values call for. The body is
    /// written at the start of the data buffer; when the buffer is longer
    /// than `data`, its remaining bytes stay. `pid` and `idempotent` must be
    /// greater than zero.
    pub fn set(&mut self, pid: u16, idempotent: u32, router_id: u64, data: &[u8])
        requires
            old(self).wf(),
            pid > 0,
            idempotent > 0,
        ensures
            final(self).wf(),
            final(self)@.head == (HeadView {
                flag: flag_for(pid, idempotent, router_id, data@.len() as usize),
                pid,
                idempotent,
                router_id,
                data_len: data@.len() as usize,
                size: head_size(flag_for(pid, idempotent, router_id, data@.len() as usize)) as usize,
            }),
            final(self)@.data == if old(self)@.data.len() < data@.len() {
                data@
            } else {
                data@ + old(self)@.data.skip(data@.len() as int)
            },
            final(self)@.data_pos == old(self)@.data_pos,
            final(self)@.data_left == old(self)@.data_left,
    {
        let data_len = data.len();

        let ghost f0 = self.head@.flag;
        self.head.set_pid(pid);
        let ghost f1 = self.head@.flag;
        self.head.set_idempotent(idempotent);
        let ghost f2 = self.head@.flag;
        self.head.set_router_id(router_id);
        let ghost f3 = self.head@.flag;
        self.head.set_data_len(data_len);
        proof {
            let f = self.head@.flag;
            lemma_replace_pid_bits(f0, pid_bits(pid));
            lemma_replace_idempotent_bits(f1, idempotent_bits(idempotent));
            lemma_replace_router_id_bits(f2, router_id_bits(router_id));
            lemma_replace_data_len_bits(f3, data_len_bits(data_len));
            lemma_groups_determine_flag(
                f,
                pid_bits(pid),
                idempotent_bits(idempotent),
                router_id_bits(router_id),
                data_len_bits(data_len),
            );
        }
        if self.data.len() < data_len {
            self.data.resize(data_len, 0);
        }
        let ghost before = self.data@;
        crate::nw::wire::copy_into(&mut self.data, 0, data);
        assert(before.take(0) + data@ + before.skip(data_len as int) =~= if old(self)@.data.len()
            < data@.len() {
            data@
        } else {
            data@ + old(self)@.data.skip(data@.len() as int)
        });
    }

    /// The package id.
    pub fn pid(&self) -> (p: u16)
        ensures
            p == self@.head.pid,
    {
        self.head.pid()
    }

    /// The idempotent.
    pub fn idempotent(&self) -> (i: u32)
        ensures
            i == self@.head.idempotent,
    {
        self.head.idempotent()
    }

    /// The router id.
    pub fn router_id(&self) -> (r: u64)
        ensures
            r == self@.head.router_id,
    {
        self.head.router_id()
    }

    /// The body length that the head gives.
    pub fn data_len(&self) -> (d: usize)
        ensures
            d == self@.head.data_len,
    {
        self.head.data_len()
    }

    /// Reads a message, or the next part of one, from `buf`; returns whether
    /// the package is complete. See `parse_result`.
    pub fn parse(&mut self, buf: &[u8]) -> (r: Result<bool>)
        requires
            old(self).wf(),
        ensures
            final(self).wf(),
            (r, final(self)@) == parse_result(old(self)@, buf@),
    {
        self.head.parse(buf)?;
        let data_len = self.head.data_len();
        let size = self.head.size();
        if data_len >= self.data.len() {
            let ghost d0 = self.data@;
            self.data.resize(data_len, 0);
            assert(self.data@ =~= grown(d0, data_len as nat));
        }
        if self.data_pos == 0 {
            let body = crate::nw::wire::tail(buf, size);
            if body.len() != self.data.len() {
                return Err(Error::BufSizeInvalid);
            }
            self.data_left = data_len;
            let ghost before = self.data@;
            crate::nw::wire::copy_into(&mut self.data, 0, body);
            assert(self.data@ =~= body@);
            self.data_pos = body.len();
        } else {
            if self.data_pos > self.data.len() || buf.len() != self.data.len() - self.data_pos {
                return Err(Error::BufSizeInvalid);
            }
            let ghost before = self.data@;
            crate::nw::wire::copy_into(&mut self.data, self.data_pos, buf);
            assert(self.data@ =~= before.take(self.data_pos as int) + buf@);
            self.data_pos = self.data.len();
        }
        Ok(self.data_pos > 0 && self.data_left == self.data_pos)
    }

    /// Empties the package for the next message.
    pub fn clear(&mut self)
        requires
            old(self).wf(),
        ensures
            final(self).wf(),
            final(self)@ == (PackageView {
                data_pos: 0,
                data_left: 0,
                data: Seq::<u8>::empty(),
                ..old(self)@
            }),
    {
        self.data_pos = 0;
        self.data_left = 0;
        self.data.clear();
    }
}

} // verus!
