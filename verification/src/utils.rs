//! Clock readings and hexadecimal text.

use crate::g::{Error, Result};
use core::time::Duration;
use vstd::prelude::*;

verus! {

// ------------------------------------------------------------------------
// Clock
/// The time since the Unix epoch, from `SystemTime::elapsed` on
/// `UNIX_EPOCH` (which reads the system clock); `None` when the clock is
/// before the epoch. Nothing is stated of the duration: it depends on the
/// clock.
#[verifier::external_body]
fn unix_epoch_elapsed() -> Option<Duration> {
    match std::time::UNIX_EPOCH.elapsed() {
        Ok(d) => Some(d),
        Err(_) => None,
    }
}

/// The whole seconds of a duration, from `Duration::as_secs`. Nothing is
/// stated of the value: the duration is opaque here.
#[verifier::external_body]
fn duration_secs(d: &Duration) -> u64 {
    d.as_secs()
}

/// The nanoseconds of a duration beyond its whole seconds, from
/// `Duration::subsec_nanos`, which documents that they are below one
/// second.
#[verifier::external_body]
fn duration_subsec_nanos(d: &Duration) -> (n: u32)
    ensures
        n < 1_000_000_000,
{
    d.subsec_nanos()
}

/// `r` is a reading of the clock: the whole seconds and the nanoseconds
/// that `Duration::as_secs` and `Duration::subsec_nanos` give of the
/// duration that `SystemTime::elapsed` on `UNIX_EPOCH` returned, or `(0, 0)`
/// when that call found the clock before the epoch.
pub closed spec fn clock_reading(r: (u64, u32)) -> bool {
    ||| call_ensures(unix_epoch_elapsed, (), None::<Duration>) && r == (0u64, 0u32)
    ||| exists|d: Duration|
        #![trigger call_ensures(unix_epoch_elapsed, (), Some(d))]
        call_ensures(unix_epoch_elapsed, (), Some(d)) && call_ensures(duration_secs, (&d,), r.0)
            && call_ensures(duration_subsec_nanos, (&d,), r.1)
}

/// A clock reading has its nanoseconds below one second.
pub proof fn lemma_clock_reading_nanos(r: (u64, u32))
    requires
        clock_reading(r),
    ensures
        r.1 < 1_000_000_000,
{
}

/// Reads the clock: whole seconds and nanoseconds since the Unix epoch,
/// zero when the clock is before the epoch.
fn clock() -> (r: (u64, u32))
    ensures
        r.1 < 1_000_000_000,
        clock_reading(r),
{
    match unix_epoch_elapsed() {
        Some(d) => (duration_secs(&d), duration_subsec_nanos(&d)),
        None => (0, 0),
    }
}

/// A time of `secs` seconds and `nanos` nanoseconds, counted in units of
/// `unit` nanoseconds (rounded down).
pub open spec fn time_in(secs: u64, nanos: u32, unit: int) -> int {
    secs as int * (1_000_000_000int / unit) + nanos as int / unit
}

/// The units of one clock reading agree: each coarser unit is the finer
/// one divided by 1000, rounded down, and the seconds are the reading's
/// whole seconds.
pub proof fn lemma_time_units_agree(secs: u64, nanos: u32)
    requires
        nanos < 1_000_000_000,
    ensures
        time_in(secs, nanos, 1_000_000_000) == secs,
        time_in(secs, nanos, 1) / 1000 == time_in(secs, nanos, 1000),
        time_in(secs, nanos, 1000) / 1000 == time_in(secs, nanos, 1_000_000),
        time_in(secs, nanos, 1_000_000) / 1000 == time_in(secs, nanos, 1_000_000_000),
{
    let s = secs as int;
    let n = nanos as int;
    assert(1_000_000_000int / 1_000_000_000int == 1);
    assert(1_000_000_000int / 1int == 1_000_000_000);
    assert(1_000_000_000int / 1000int == 1_000_000);
    assert(1_000_000_000int / 1_000_000int == 1000);
    assert(n / 1int == n);
    assert(n / 1_000_000_000int == 0);
    assert((s * 1_000_000_000 + n) / 1000 == s * 1_000_000 + n / 1000) by (nonlinear_arith)
        requires
            0 <= n,
    ;
    assert((s * 1_000_000 + n / 1000) / 1000 == s * 1000 + n / 1_000_000) by (nonlinear_arith)
        requires
            0 <= n,
    ;
    assert((s * 1000 + n / 1_000_000) / 1000 == s) by (nonlinear_arith)
        requires
            0 <= n < 1_000_000_000,
    ;
}

/// A clock reading of `secs` seconds and `nanos` nanoseconds, in whole
/// seconds.
pub fn unix_secs(secs: u64, nanos: u32) -> (r: u64)
    requires
        nanos < 1_000_000_000,
    ensures
        r == secs,
        r == time_in(secs, nanos, 1_000_000_000),
{
    assert(1_000_000_000int / 1_000_000_000int == 1);
    assert(nanos as int / 1_000_000_000int == 0);
    secs
}

/// A clock reading of `secs` seconds and `nanos` nanoseconds, in
/// nanoseconds.
pub fn unix_nanos(secs: u64, nanos: u32) -> (r: u128)
    requires
        nanos < 1_000_000_000,
    ensures
        r == secs * 1_000_000_000 + nanos,
        r == time_in(secs, nanos, 1),
{
    assert(1_000_000_000int / 1int == 1_000_000_000int);
    assert(nanos as int / 1int == nanos as int);
    assert(secs as int * 1_000_000_000 <= u64::MAX as int * 1_000_000_000) by (nonlinear_arith);
    secs as u128 * 1_000_000_000 + nanos as u128
}

/// A clock reading of `secs` seconds and `nanos` nanoseconds, in whole
/// milliseconds.
pub fn unix_millis(secs: u64, nanos: u32) -> (r: u128)
    requires
        nanos < 1_000_000_000,
    ensures
        r == secs * 1000 + nanos / 1_000_000,
        r == time_in(secs, nanos, 1_000_000),
{
    assert(1_000_000_000int / 1_000_000int == 1000);
    assert(secs as int * 1000 <= u64::MAX as int * 1000) by (nonlinear_arith);
    secs as u128 * 1000 + (nanos / 1_000_000) as u128
}

/// A clock reading of `secs` seconds and `nanos` nanoseconds, in whole
/// microseconds.
pub fn unix_micros(secs: u64, nanos: u32) -> (r: u128)
    requires
        nanos < 1_000_000_000,
    ensures
        r == secs * 1_000_000 + nanos / 1000,
        r == time_in(secs, nanos, 1000),
{
    assert(1_000_000_000int / 1000int == 1_000_000);
    assert(secs as int * 1_000_000 <= u64::MAX as int * 1_000_000) by (nonlinear_arith);
    secs as u128 * 1_000_000 + (nanos / 1000) as u128
}

/// Seconds since the Unix epoch (0 when the clock is before the epoch): the
/// clock's reading converted by `unix_secs`.
pub fn now_unix() -> (r: u64)
    ensures
        exists|s: u64, n: u32| n < 1_000_000_000 && r == time_in(s, n, 1_000_000_000),
        exists|s: u64, n: u32| #[trigger] clock_reading((s, n)) && r == time_in(s, n, 1_000_000_000),
{
    let (s, n) = clock();
    unix_secs(s, n)
}

/// Nanoseconds since the Unix epoch (0 when the clock is before the epoch):
/// the clock's reading converted by `unix_nanos`.
pub fn now_unix_nanos() -> (r: u128)
    ensures
        exists|s: u64, n: u32| n < 1_000_000_000 && r == time_in(s, n, 1),
        exists|s: u64, n: u32| #[trigger] clock_reading((s, n)) && r == time_in(s, n, 1),
{
    let (s, n) = clock();
    unix_nanos(s, n)
}

/// Milliseconds since the Unix epoch (0 when the clock is before the
/// epoch): the clock's reading converted by `unix_millis`.
pub fn now_unix_mills() -> (r: u128)
    ensures
        exists|s: u64, n: u32| n < 1_000_000_000 && r == time_in(s, n, 1_000_000),
        exists|s: u64, n: u32| #[trigger] clock_reading((s, n)) && r == time_in(s, n, 1_000_000),
{
    let (s, n) = clock();
    unix_millis(s, n)
}

/// Microseconds since the Unix epoch (0 when the clock is before the
/// epoch): the clock's reading converted by `unix_micros`.
pub fn now_unix_micros() -> (r: u128)
    ensures
        exists|s: u64, n: u32| n < 1_000_000_000 && r == time_in(s, n, 1000),
        exists|s: u64, n: u32| #[trigger] clock_reading((s, n)) && r == time_in(s, n, 1000),
{
    let (s, n) = clock();
    unix_micros(s, n)
}

// ------------------------------------------------------------------------
// Hexadecimal text
/// The lowercase hexadecimal digit of `n` (below 16).
pub open spec fn hex_digit(n: int) -> char {
    if n < 10 {
        (48 + n) as char
    } else {
        (97 + n - 10) as char
    }
}

/// Two lowercase hexadecimal digits per byte, the high one first.
pub open spec fn hex_encoding(data: Seq<u8>) -> Seq<char> {
    Seq::new(
        2 * data.len(),
        |i: int|
            if i % 2 == 0 {
                hex_digit(data[i / 2] as int / 16)
            } else {
                hex_digit(data[i / 2] as int % 16)
            },
    )
}

/// The value of a hexadecimal digit, in either case.
pub open spec fn hex_value(c: char) -> Option<int> {
    if '0' <= c && c <= '9' {
        Some(c as int - 48)
    } else if 'a' <= c && c <= 'f' {
        Some(c as int - 97 + 10)
    } else if 'A' <= c && c <= 'F' {
        Some(c as int - 65 + 10)
    } else {
        None
    }
}

/// Hexadecimal text: an even number of hexadecimal digits.
pub open spec fn hex_valid(s: Seq<char>) -> bool {
    s.len() % 2 == 0 && forall|i: int| 0 <= i < s.len() ==> (#[trigger] hex_value(s[i])) is Some
}

/// The bytes of hexadecimal text: each pair of digits, the high one first.
pub open spec fn hex_decoding(s: Seq<char>) -> Seq<u8> {
    Seq::new(
        s.len() / 2,
        |i: int| (16 * hex_value(s[2 * i]).unwrap() + hex_value(s[2 * i + 1]).unwrap()) as u8,
    )
}

/// A hexadecimal digit reads back as its value.
proof fn lemma_hex_digit_value(n: int)
    requires
        0 <= n < 16,
    ensures
        hex_value(hex_digit(n)) == Some(n),
{
}

/// Hexadecimal text of bytes is valid hexadecimal text, and it reads back
/// as those bytes.
pub proof fn lemma_hex_roundtrip(data: Seq<u8>)
    ensures
        hex_valid(hex_encoding(data)),
        hex_decoding(hex_encoding(data)) == data,
{
    let e = hex_encoding(data);
    assert forall|i: int| 0 <= i < e.len() implies (#[trigger] hex_value(e[i])) is Some by {
        lemma_hex_digit_value(data[i / 2] as int / 16);
        lemma_hex_digit_value(data[i / 2] as int % 16);
    }
    assert(e.len() % 2 == 0);
    let d = hex_decoding(e);
    assert forall|i: int| 0 <= i < data.len() implies d[i] == data[i] by {
        assert((2 * i) / 2 == i && (2 * i + 1) / 2 == i);
        assert((2 * i) % 2 == 0 && (2 * i + 1) % 2 == 1);
        lemma_hex_digit_value(data[i] as int / 16);
        lemma_hex_digit_value(data[i] as int % 16);
        assert(16 * (data[i] as int / 16) + data[i] as int % 16 == data[i] as int);
    }
    assert(d =~= data);
}

/// The error of the hex crate's decoder.
#[verifier::external_type_specification]
#[verifier::external_body]
pub struct ExFromHexError(hex::FromHexError);

/// `hex::encode`: lowercase hexadecimal text of the bytes, two digits per
/// byte, the high one first.
#[verifier::external_body]
fn hex_encode(data: &[u8]) -> (s: String)
    ensures
        s@ == hex_encoding(data@),
{
    hex::encode(data)
}

/// `hex::decode`: the bytes of hexadecimal text in either case; an error for
/// text of odd length or with a character that is not a hexadecimal digit.
#[verifier::external_body]
fn hex_decode(s: &str) -> (r: core::result::Result<Vec<u8>, hex::FromHexError>)
    ensures
        r is Ok <==> hex_valid(s@),
        r matches Ok(v) ==> v@ == hex_decoding(s@),
{
    hex::decode(s)
}

/// Lowercase hexadecimal text of `data`.
pub fn bytes_to_hex(data: &[u8]) -> (s: String)
    ensures
        s@ == hex_encoding(data@),
{
    hex_encode(data)
}

/// The bytes of hexadecimal text; `UtilsHexStr` when it is not valid.
pub fn hex_to_bytes(data: &str) -> (r: Result<Vec<u8>>)
    ensures
        hex_valid(data@) ==> (r matches Ok(v) && v@ == hex_decoding(data@)),
        !hex_valid(data@) ==> r == Err::<Vec<u8>, Error>(Error::UtilsHexStr),
{
    match hex_decode(data) {
        Err(_) => Err(Error::UtilsHexStr),
        Ok(v) => Ok(v),
    }
}

} // verus!
