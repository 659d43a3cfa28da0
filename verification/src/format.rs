//! The MessagePack subset of this protocol, as mathematics: what each writer emits
//! and what each reader makes of the bytes at a position.
//!
//! A reader's model maps a buffer and a position to the position after the read
//! and either the value read or the [`Fault`] met. Decoders of whole messages are
//! chains of these steps; the central law of the library,
//! [`lemma_values_roundtrip`], says that reading a sequence of encoded values gives
//! the values back and stops just after them.

use vstd::prelude::*;
use vstd::utf8::{decode_utf8, encode_utf8, valid_utf8};
use vstd::arithmetic::div_mod::lemma_mod_breakdown;

use crate::error::Fault;

verus! {

/// `256` to the power `k`.
pub open spec fn pow256(k: nat) -> nat
    decreases k,
{
    if k == 0 {
        1
    } else {
        256 * pow256((k - 1) as nat)
    }
}

/// The `k` low-order bytes of `n`, most significant first.
pub open spec fn be_bytes(n: nat, k: nat) -> Seq<u8>
    decreases k,
{
    if k == 0 {
        Seq::empty()
    } else {
        be_bytes(n / 256, (k - 1) as nat).push((n % 256) as u8)
    }
}

/// The number whose big-endian bytes are `s`.
pub open spec fn be_value(s: Seq<u8>) -> nat
    decreases s.len(),
{
    if s.len() == 0 {
        0
    } else {
        (be_value(s.drop_last()) * 256 + s.last()) as nat
    }
}

/// The two's-complement pattern of `v` in `k` bytes.
pub open spec fn twos(v: int, k: nat) -> nat {
    if v < 0 {
        (v + pow256(k)) as nat
    } else {
        v as nat
    }
}

/// The signed number whose two's-complement pattern in `k` bytes is `r`.
pub open spec fn from_twos(r: int, k: nat) -> int {
    if 2 * r >= pow256(k) {
        r - pow256(k)
    } else {
        r
    }
}

// ------------------------------------------------------------------
// What the writers emit
// ------------------------------------------------------------------

/// A boolean: `0xc3` for true, `0xc2` for false.
pub open spec fn enc_bool(b: bool) -> Seq<u8> {
    seq![if b { 0xc3u8 } else { 0xc2u8 }]
}

/// An integer in the shortest of the forms this library writes: a positive or
/// negative fixint, or a signed integer of one, two, four or eight bytes.
pub open spec fn enc_int(v: int) -> Seq<u8> {
    if 0 <= v <= 0x7f {
        seq![v as u8]
    } else if -32 <= v < 0 {
        seq![twos(v, 1) as u8]
    } else if -0x80 <= v < 0x80 {
        seq![0xd0u8, twos(v, 1) as u8]
    } else if -0x8000 <= v < 0x8000 {
        seq![0xd1u8] + be_bytes(twos(v, 2), 2)
    } else if -0x8000_0000 <= v < 0x8000_0000 {
        seq![0xd2u8] + be_bytes(twos(v, 4), 4)
    } else {
        seq![0xd3u8] + be_bytes(twos(v, 8), 8)
    }
}

/// An integer always written as a one-byte signed integer (`0xd0`).
pub open spec fn enc_i8(v: int) -> Seq<u8> {
    seq![0xd0u8, twos(v, 1) as u8]
}

/// An integer always written as a two-byte signed integer (`0xd1`).
pub open spec fn enc_i16(v: int) -> Seq<u8> {
    seq![0xd1u8] + be_bytes(twos(v, 2), 2)
}

/// A single-precision number given by its bit pattern (`0xca`).
pub open spec fn enc_f32_bits(bits: u32) -> Seq<u8> {
    seq![0xcau8] + be_bytes(bits as nat, 4)
}

/// A double-precision number given by its bit pattern (`0xcb`).
pub open spec fn enc_f64_bits(bits: u64) -> Seq<u8> {
    seq![0xcbu8] + be_bytes(bits as nat, 8)
}

/// The header of a string of `n` bytes.
pub open spec fn str_header(n: nat) -> Seq<u8> {
    if n <= 31 {
        seq![(0xa0 + n) as u8]
    } else if n <= 0xff {
        seq![0xd9u8, n as u8]
    } else if n <= 0xffff {
        seq![0xdau8] + be_bytes(n, 2)
    } else {
        seq![0xdbu8] + be_bytes(n, 4)
    }
}

/// A string: its header, then its UTF-8 bytes.
pub open spec fn enc_str(chars: Seq<char>) -> Seq<u8> {
    str_header(encode_utf8(chars).len()) + encode_utf8(chars)
}

/// The header of a binary blob of `n` bytes.
pub open spec fn bin_header(n: nat) -> Seq<u8> {
    if n <= 0xff {
        seq![0xc4u8, n as u8]
    } else if n <= 0xffff {
        seq![0xc5u8] + be_bytes(n, 2)
    } else {
        seq![0xc6u8] + be_bytes(n, 4)
    }
}

/// A binary blob: its header, then its bytes.
pub open spec fn enc_bin(bytes: Seq<u8>) -> Seq<u8> {
    bin_header(bytes.len()) + bytes
}

/// The header of an array of `n` items.
pub open spec fn enc_array_len(n: nat) -> Seq<u8> {
    if n <= 15 {
        seq![(0x90 + n) as u8]
    } else if n <= 0xffff {
        seq![0xdcu8] + be_bytes(n, 2)
    } else {
        seq![0xddu8] + be_bytes(n, 4)
    }
}

// ------------------------------------------------------------------
// What the readers make of the bytes at a position
// ------------------------------------------------------------------

/// Reading one byte.
pub open spec fn byte_at(b: Seq<u8>, p: int) -> (int, Result<u8, Fault>) {
    if 0 <= p < b.len() {
        (p + 1, Ok(b[p]))
    } else {
        (p, Err(Fault::UnexpectedEnd))
    }
}

/// Reading `n` bytes.
pub open spec fn bytes_at(b: Seq<u8>, p: int, n: nat) -> (int, Result<Seq<u8>, Fault>) {
    if p + n > usize::MAX {
        (p, Err(Fault::LengthOverflow))
    } else if p + n > b.len() || p < 0 {
        (p, Err(Fault::UnexpectedEnd))
    } else {
        (p + n, Ok(b.subrange(p, p + n)))
    }
}

/// Reading one byte as an unsigned number, or as a signed one when `signed`.
pub open spec fn byte_num_at(b: Seq<u8>, p: int, signed: bool) -> (int, Result<int, Fault>) {
    let (q, r) = byte_at(b, p);
    match r {
        Ok(x) => (q, Ok(if signed { from_twos(x as int, 1) } else { x as int })),
        Err(f) => (q, Err(f)),
    }
}

/// Reading `n` bytes as a big-endian number, signed (two's complement) when `signed`.
pub open spec fn be_num_at(b: Seq<u8>, p: int, n: nat, signed: bool) -> (int, Result<int, Fault>) {
    let (q, r) = bytes_at(b, p, n);
    match r {
        Ok(s) => (
            q,
            Ok(
                if signed {
                    from_twos(be_value(s) as int, n)
                } else {
                    be_value(s) as int
                },
            ),
        ),
        Err(f) => (q, Err(f)),
    }
}

/// What follows the integer marker `m` read just before position `q`.
pub open spec fn int_body_at(b: Seq<u8>, q: int, m: u8) -> (int, Result<int, Fault>) {
    if m <= 0x7f {
        (q, Ok(m as int))
    } else if m == 0xcc {
        byte_num_at(b, q, false)
    } else if m == 0xcd {
        be_num_at(b, q, 2, false)
    } else if m == 0xce {
        be_num_at(b, q, 4, false)
    } else if m == 0xcf {
        be_num_at(b, q, 8, false)
    } else if m == 0xd0 {
        byte_num_at(b, q, true)
    } else if m == 0xd1 {
        be_num_at(b, q, 2, true)
    } else if m == 0xd2 {
        be_num_at(b, q, 4, true)
    } else if m == 0xd3 {
        be_num_at(b, q, 8, true)
    } else if m >= 0xe0 {
        (q, Ok(m - 256))
    } else {
        (q, Err(Fault::ExpectedInteger))
    }
}

/// Reading an integer of any MessagePack integer form as an `i64`.
#[verifier::opaque]
pub open spec fn i64_at(b: Seq<u8>, p: int) -> (int, Result<i64, Fault>) {
    let (q, m) = byte_at(b, p);
    match m {
        Err(f) => (q, Err(f)),
        Ok(m) => {
            let (q2, r) = int_body_at(b, q, m);
            match r {
                Ok(v) => if i64::MIN <= v <= i64::MAX {
                    (q2, Ok(v as i64))
                } else {
                    (q2, Err(Fault::OutOfRange))
                },
                Err(f) => (q2, Err(f)),
            }
        },
    }
}

/// Reading an integer that must lie in `lo..=hi`.
#[verifier::opaque]
pub open spec fn int_in_at(b: Seq<u8>, p: int, lo: int, hi: int) -> (int, Result<int, Fault>) {
    let (q, r) = i64_at(b, p);
    match r {
        Ok(v) => if lo <= v <= hi {
            (q, Ok(v as int))
        } else {
            (q, Err(Fault::OutOfRange))
        },
        Err(f) => (q, Err(f)),
    }
}

/// Reading an integer as an `i32`.
#[verifier::opaque]
pub open spec fn i32_at(b: Seq<u8>, p: int) -> (int, Result<i32, Fault>) {
    let (q, r) = int_in_at(b, p, i32::MIN as int, i32::MAX as int);
    match r {
        Ok(v) => (q, Ok(v as i32)),
        Err(f) => (q, Err(f)),
    }
}

/// Reading an integer as an `i16`.
#[verifier::opaque]
pub open spec fn i16_at(b: Seq<u8>, p: int) -> (int, Result<i16, Fault>) {
    let (q, r) = int_in_at(b, p, i16::MIN as int, i16::MAX as int);
    match r {
        Ok(v) => (q, Ok(v as i16)),
        Err(f) => (q, Err(f)),
    }
}

/// Reading an integer as an `i8`.
#[verifier::opaque]
pub open spec fn i8_at(b: Seq<u8>, p: int) -> (int, Result<i8, Fault>) {
    let (q, r) = int_in_at(b, p, i8::MIN as int, i8::MAX as int);
    match r {
        Ok(v) => (q, Ok(v as i8)),
        Err(f) => (q, Err(f)),
    }
}

/// Reading a boolean.
#[verifier::opaque]
pub open spec fn bool_at(b: Seq<u8>, p: int) -> (int, Result<bool, Fault>) {
    let (q, m) = byte_at(b, p);
    match m {
        Err(f) => (q, Err(f)),
        Ok(m) => if m == 0xc2 {
            (q, Ok(false))
        } else if m == 0xc3 {
            (q, Ok(true))
        } else {
            (q, Err(Fault::ExpectedBool))
        },
    }
}

/// The bit pattern of a floating-point number as it was sent.
#[derive(Debug, Clone, Copy, PartialEq, Eq)]
pub enum FloatBits {
    /// A single-precision number (`0xca`).
    Single(u32),
    /// A double-precision number (`0xcb`).
    Double(u64),
}

impl View for FloatBits {
    type V = FloatBits;

    open spec fn view(&self) -> FloatBits {
        *self
    }
}

/// Reading a floating-point number as the bit pattern it was sent with.
#[verifier::opaque]
pub open spec fn float_at(b: Seq<u8>, p: int) -> (int, Result<FloatBits, Fault>) {
    let (q, m) = byte_at(b, p);
    match m {
        Err(f) => (q, Err(f)),
        Ok(m) => if m == 0xca {
            let (q2, r) = be_num_at(b, q, 4, false);
            match r {
                Ok(v) => (q2, Ok(FloatBits::Single(v as u32))),
                Err(f) => (q2, Err(f)),
            }
        } else if m == 0xcb {
            let (q2, r) = be_num_at(b, q, 8, false);
            match r {
                Ok(v) => (q2, Ok(FloatBits::Double(v as u64))),
                Err(f) => (q2, Err(f)),
            }
        } else {
            (q, Err(Fault::ExpectedFloat))
        },
    }
}

/// Reading the header of a string: its byte length.
pub open spec fn str_len_at(b: Seq<u8>, p: int) -> (int, Result<int, Fault>) {
    let (q, m) = byte_at(b, p);
    match m {
        Err(f) => (q, Err(f)),
        Ok(m) => if 0xa0 <= m <= 0xbf {
            (q, Ok(m - 0xa0))
        } else if m == 0xd9 {
            byte_num_at(b, q, false)
        } else if m == 0xda {
            be_num_at(b, q, 2, false)
        } else if m == 0xdb {
            be_num_at(b, q, 4, false)
        } else {
            (q, Err(Fault::ExpectedString))
        },
    }
}

/// Reading a string.
#[verifier::opaque]
pub open spec fn str_at(b: Seq<u8>, p: int) -> (int, Result<Seq<char>, Fault>) {
    let (q, l) = str_len_at(b, p);
    match l {
        Err(f) => (q, Err(f)),
        Ok(n) => {
            let (q2, r) = bytes_at(b, q, n as nat);
            match r {
                Err(f) => (q2, Err(f)),
                Ok(s) => if valid_utf8(s) {
                    (q2, Ok(decode_utf8(s)))
                } else {
                    (q2, Err(Fault::InvalidUtf8))
                },
            }
        },
    }
}

/// Reading the header of a binary blob: its byte length.
pub open spec fn bin_len_at(b: Seq<u8>, p: int) -> (int, Result<int, Fault>) {
    let (q, m) = byte_at(b, p);
    match m {
        Err(f) => (q, Err(f)),
        Ok(m) => if m == 0xc4 {
            byte_num_at(b, q, false)
        } else if m == 0xc5 {
            be_num_at(b, q, 2, false)
        } else if m == 0xc6 {
            be_num_at(b, q, 4, false)
        } else {
            (q, Err(Fault::ExpectedBinary))
        },
    }
}

/// Reading a binary blob.
#[verifier::opaque]
pub open spec fn bin_at(b: Seq<u8>, p: int) -> (int, Result<Seq<u8>, Fault>) {
    let (q, l) = bin_len_at(b, p);
    match l {
        Err(f) => (q, Err(f)),
        Ok(n) => bytes_at(b, q, n as nat),
    }
}

/// Reading the header of an array: its number of items.
#[verifier::opaque]
pub open spec fn array_len_at(b: Seq<u8>, p: int) -> (int, Result<usize, Fault>) {
    let (q, m) = byte_at(b, p);
    match m {
        Err(f) => (q, Err(f)),
        Ok(m) => if 0x90 <= m <= 0x9f {
            (q, Ok((m - 0x90) as usize))
        } else if m == 0xdc || m == 0xdd {
            let (q2, r) = be_num_at(b, q, if m == 0xdc { 2 } else { 4 }, false);
            match r {
                Ok(n) => (q2, Ok(n as usize)),
                Err(f) => (q2, Err(f)),
            }
        } else {
            (q, Err(Fault::ExpectedArray))
        },
    }
}

// ------------------------------------------------------------------
// Sequences of values
// ------------------------------------------------------------------

/// What a decoder expects next in a message.
pub enum Kind {
    Bool,
    I8,
    I16,
    I32,
    I64,
    Str,
    Bin,
}

/// A value of a message field, as mathematics.
pub enum Value {
    Bool(bool),
    Int(int),
    Str(Seq<char>),
    Bin(Seq<u8>),
}

/// The number a value holds; `0` for a value that is not a number.
pub open spec fn int_of(v: Value) -> int {
    match v {
        Value::Int(x) => x,
        _ => 0,
    }
}

/// Reading one value of kind `k`.
pub open spec fn value_at(b: Seq<u8>, p: int, k: Kind) -> (int, Result<Value, Fault>) {
    match k {
        Kind::Bool => {
            let (q, r) = bool_at(b, p);
            (q, match r { Ok(x) => Ok(Value::Bool(x)), Err(f) => Err(f) })
        },
        Kind::I8 => {
            let (q, r) = i8_at(b, p);
            (q, match r { Ok(x) => Ok(Value::Int(x as int)), Err(f) => Err(f) })
        },
        Kind::I16 => {
            let (q, r) = i16_at(b, p);
            (q, match r { Ok(x) => Ok(Value::Int(x as int)), Err(f) => Err(f) })
        },
        Kind::I32 => {
            let (q, r) = i32_at(b, p);
            (q, match r { Ok(x) => Ok(Value::Int(x as int)), Err(f) => Err(f) })
        },
        Kind::I64 => {
            let (q, r) = i64_at(b, p);
            (q, match r { Ok(x) => Ok(Value::Int(x as int)), Err(f) => Err(f) })
        },
        Kind::Str => {
            let (q, r) = str_at(b, p);
            (q, match r { Ok(x) => Ok(Value::Str(x)), Err(f) => Err(f) })
        },
        Kind::Bin => {
            let (q, r) = bin_at(b, p);
            (q, match r { Ok(x) => Ok(Value::Bin(x)), Err(f) => Err(f) })
        },
    }
}

/// Reading values of the kinds `ks`, one after the other, stopping at the first fault.
pub open spec fn values_at(b: Seq<u8>, p: int, ks: Seq<Kind>) -> (int, Result<Seq<Value>, Fault>)
    decreases ks.len(),
{
    if ks.len() == 0 {
        (p, Ok(Seq::empty()))
    } else {
        let (q, r) = values_at(b, p, ks.drop_last());
        match r {
            Err(f) => (q, Err(f)),
            Ok(vs) => {
                let (q2, v) = value_at(b, q, ks.last());
                match v {
                    Ok(v) => (q2, Ok(vs.push(v))),
                    Err(f) => (q2, Err(f)),
                }
            },
        }
    }
}

/// Reading values that may be absent: each is read if bytes remain, and is `None`
/// when the stream has ended before it.
pub open spec fn optionals_at(b: Seq<u8>, p: int, ks: Seq<Kind>) -> (int, Result<Seq<Option<Value>>, Fault>)
    decreases ks.len(),
{
    if ks.len() == 0 {
        (p, Ok(Seq::empty()))
    } else {
        let (q, r) = optionals_at(b, p, ks.drop_last());
        match r {
            Err(f) => (q, Err(f)),
            Ok(vs) => if q < b.len() {
                let (q2, v) = value_at(b, q, ks.last());
                match v {
                    Ok(v) => (q2, Ok(vs.push(Some(v)))),
                    Err(f) => (q2, Err(f)),
                }
            } else {
                (q, Ok(vs.push(None)))
            },
        }
    }
}

/// The bytes the writers emit for a value.
pub open spec fn encode_value(v: Value) -> Seq<u8> {
    match v {
        Value::Bool(x) => enc_bool(x),
        Value::Int(x) => enc_int(x),
        Value::Str(x) => enc_str(x),
        Value::Bin(x) => enc_bin(x),
    }
}

/// The bytes the writers emit for values, one after the other.
pub open spec fn encode_values(vs: Seq<Value>) -> Seq<u8>
    decreases vs.len(),
{
    if vs.len() == 0 {
        Seq::empty()
    } else {
        encode_values(vs.drop_last()) + encode_value(vs.last())
    }
}

/// Reading `n` entries, each a binary blob whose bytes hold values of the kinds `ks`
/// (bytes after those values are ignored), stopping at the first fault.
pub open spec fn entries_at(b: Seq<u8>, p: int, n: nat, ks: Seq<Kind>) -> (int, Result<Seq<Seq<Value>>, Fault>)
    decreases n,
{
    if n == 0 {
        (p, Ok(Seq::empty()))
    } else {
        let (q, r) = entries_at(b, p, (n - 1) as nat, ks);
        match r {
            Err(f) => (q, Err(f)),
            Ok(es) => {
                let (q2, blob) = bin_at(b, q);
                match blob {
                    Err(f) => (q2, Err(f)),
                    Ok(nested) => match values_at(nested, 0, ks).1 {
                        Ok(vs) => (q2, Ok(es.push(vs))),
                        Err(f) => (q2, Err(f)),
                    },
                }
            },
        }
    }
}

/// The bytes of entries written each as a binary blob of its encoded values.
pub open spec fn blobs(es: Seq<Seq<Value>>) -> Seq<u8>
    decreases es.len(),
{
    if es.len() == 0 {
        Seq::empty()
    } else {
        blobs(es.drop_last()) + enc_bin(encode_values(es.last()))
    }
}

/// Writing one more entry after the entries `es`.
pub proof fn lemma_blobs_push(es: Seq<Seq<Value>>, e: Seq<Value>)
    ensures
        blobs(es.push(e)) == blobs(es) + enc_bin(encode_values(e)),
{
    assert(es.push(e).drop_last() =~= es);
}

/// Once reading entries has failed, reading more of them fails the same way, at
/// the same position.
pub proof fn lemma_entries_err_stays(b: Seq<u8>, p: int, k: nat, n: nat, ks: Seq<Kind>)
    requires
        k <= n,
        entries_at(b, p, k, ks).1 is Err,
    ensures
        entries_at(b, p, n, ks) == entries_at(b, p, k, ks),
    decreases n - k,
{
    if k < n {
        lemma_entries_err_stays(b, p, k, (n - 1) as nat, ks);
    }
}

/// Whether the value `v` can be written and read back as kind `k`.
pub open spec fn fits(v: Value, k: Kind) -> bool {
    match (v, k) {
        (Value::Bool(_), Kind::Bool) => true,
        (Value::Int(x), Kind::I8) => i8::MIN <= x <= i8::MAX,
        (Value::Int(x), Kind::I16) => i16::MIN <= x <= i16::MAX,
        (Value::Int(x), Kind::I32) => i32::MIN <= x <= i32::MAX,
        (Value::Int(x), Kind::I64) => i64::MIN <= x <= i64::MAX,
        (Value::Str(x), Kind::Str) => encode_utf8(x).len() <= u32::MAX,
        (Value::Bin(x), Kind::Bin) => x.len() <= u32::MAX,
        _ => false,
    }
}

/// Whether the bytes of `b` from position `p` on start with `e`.
pub open spec fn starts_with_at(b: Seq<u8>, p: int, e: Seq<u8>) -> bool {
    &&& 0 <= p
    &&& p + e.len() <= b.len()
    &&& b.subrange(p, p + e.len()) == e
}

/// Reading the first `j` values of the kinds `ks`: the first `j - 1`, then one more.
pub proof fn lemma_values_at_take(b: Seq<u8>, p: int, ks: Seq<Kind>, j: int)
    requires
        0 < j <= ks.len(),
    ensures
        j == 1 ==> ks.take(j - 1) == Seq::<Kind>::empty(),
        j == ks.len() ==> ks.take(j) == ks,
        values_at(b, p, ks.take(j)) == ({
            let (q, r) = values_at(b, p, ks.take(j - 1));
            match r {
                Err(f) => (q, Err(f)),
                Ok(vs) => {
                    let (q2, v) = value_at(b, q, ks[j - 1]);
                    match v {
                        Ok(v) => (q2, Ok(vs.push(v))),
                        Err(f) => (q2, Err(f)),
                    }
                },
            }
        }),
{
    assert(ks.take(j).drop_last() =~= ks.take(j - 1));
    assert(ks.take(0) =~= Seq::<Kind>::empty());
    assert(ks.take(ks.len() as int) =~= ks);
}

/// Reading the first `j` optional values of the kinds `ks`: the first `j - 1`, then
/// one more.
pub proof fn lemma_optionals_at_take(b: Seq<u8>, p: int, ks: Seq<Kind>, j: int)
    requires
        0 < j <= ks.len(),
    ensures
        j == 1 ==> ks.take(j - 1) == Seq::<Kind>::empty(),
        j == ks.len() ==> ks.take(j) == ks,
        optionals_at(b, p, ks.take(j)) == ({
            let (q, r) = optionals_at(b, p, ks.take(j - 1));
            match r {
                Err(f) => (q, Err(f)),
                Ok(vs) => if q < b.len() {
                    let (q2, v) = value_at(b, q, ks[j - 1]);
                    match v {
                        Ok(v) => (q2, Ok(vs.push(Some(v)))),
                        Err(f) => (q2, Err(f)),
                    }
                } else {
                    (q, Ok(vs.push(None)))
                },
            }
        }),
{
    assert(ks.take(j).drop_last() =~= ks.take(j - 1));
    assert(ks.take(0) =~= Seq::<Kind>::empty());
    assert(ks.take(ks.len() as int) =~= ks);
}

/// Writing the first `j` values: the first `j - 1`, then one more.
pub proof fn lemma_encode_values_take(vs: Seq<Value>, j: int)
    requires
        0 < j <= vs.len(),
    ensures
        j == 1 ==> encode_values(vs.take(j - 1)) == Seq::<u8>::empty(),
        j == vs.len() ==> vs.take(j) == vs,
        encode_values(vs.take(j)) == encode_values(vs.take(j - 1)) + encode_value(vs[j - 1]),
{
    assert(vs.take(j).drop_last() =~= vs.take(j - 1));
    assert(vs.take(0) =~= Seq::<Value>::empty());
    assert(vs.take(vs.len() as int) =~= vs);
}

// ------------------------------------------------------------------
// Lemmas on big-endian numbers
// ------------------------------------------------------------------

/// The powers of 256 that the formats use.
pub proof fn lemma_pow256_values()
    ensures
        pow256(1) == 0x100,
        pow256(2) == 0x1_0000,
        pow256(4) == 0x1_0000_0000,
        pow256(8) == 0x1_0000_0000_0000_0000,
{
    reveal_with_fuel(pow256, 9);
}

/// Appending a byte shifts the number one byte up.
pub proof fn lemma_be_value_push(s: Seq<u8>, x: u8)
    ensures
        be_value(s.push(x)) == be_value(s) * 256 + x,
{
    assert(s.push(x).drop_last() =~= s);
}

/// A number of `k` bytes is below `256^k`.
pub proof fn lemma_be_value_bound(s: Seq<u8>)
    ensures
        be_value(s) < pow256(s.len()),
    decreases s.len(),
{
    if s.len() > 0 {
        lemma_be_value_bound(s.drop_last());
        let a = be_value(s.drop_last()) as int;
        let p = pow256(s.drop_last().len()) as int;
        let l = s.last() as int;
        assert(a * 256 + l < 256 * p) by (nonlinear_arith)
            requires
                a < p,
                0 <= l < 256,
        ;
    }
}

/// The bytes of `n` read back give `n`, reduced modulo `256^k`; there are `k` of them.
pub proof fn lemma_be_roundtrip(n: nat, k: nat)
    ensures
        be_bytes(n, k).len() == k,
        be_value(be_bytes(n, k)) == n % pow256(k),
    decreases k,
{
    if k > 0 {
        let km = (k - 1) as nat;
        lemma_be_roundtrip(n / 256, km);
        lemma_be_value_push(be_bytes(n / 256, km), (n % 256) as u8);
        lemma_pow256_positive(km);
        lemma_mod_breakdown(n as int, 256, pow256(km) as int);
        assert(pow256(k) == 256 * pow256(km));
    } else {
        assert(n % 1 == 0);
    }
}

/// The encoding of an integer takes one to nine bytes.
pub proof fn lemma_enc_int_len(v: int)
    ensures
        1 <= enc_int(v).len() <= 9,
{
    lemma_be_roundtrip(twos(v, 2), 2);
    lemma_be_roundtrip(twos(v, 4), 4);
    lemma_be_roundtrip(twos(v, 8), 8);
}

/// Every power of 256 is positive.
pub proof fn lemma_pow256_positive(k: nat)
    ensures
        pow256(k) > 0,
    decreases k,
{
    if k > 0 {
        lemma_pow256_positive((k - 1) as nat);
    }
}

/// The bytes of a number below `256^k` read back give the number.
pub proof fn lemma_be_exact(n: nat, k: nat)
    requires
        n < pow256(k),
    ensures
        be_bytes(n, k).len() == k,
        be_value(be_bytes(n, k)) == n,
{
    lemma_be_roundtrip(n, k);
    vstd::arithmetic::div_mod::lemma_small_mod(n, pow256(k));
}

} // verus!
