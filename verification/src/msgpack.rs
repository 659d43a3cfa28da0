//! Writers that append MessagePack items to a buffer, and a reader that takes them
//! off a byte slice one after the other.

use vstd::prelude::*;
use vstd::utf8::{decode_utf8, encode_utf8, valid_utf8};

use crate::error::{Fault, MsgpackError, Result};
use crate::roundtrip::lemma_reads_stay_in_bounds;
use crate::format::{
    be_bytes, be_num_at, be_value, bin_at, bool_at, byte_at, bytes_at, enc_array_len, enc_bin,
    enc_bool, enc_f32_bits, enc_f64_bits, enc_i16, enc_i8, enc_int, enc_str, float_at, FloatBits, i16_at, i32_at, i64_at, i8_at, int_in_at,
    lemma_be_value_bound, lemma_be_value_push, lemma_pow256_values, pow256, str_at,
    array_len_at,
};

verus! {

/// `std::str::from_utf8`: it succeeds exactly on valid UTF-8, and then gives the
/// string that the bytes encode.
#[verifier::external_body]
fn str_from_utf8<'b>(bytes: &'b [u8]) -> (r: core::result::Result<&'b str, core::str::Utf8Error>)
    ensures
        r is Ok <==> valid_utf8(bytes@),
        r matches Ok(s) ==> s@ == decode_utf8(bytes@),
{
    core::str::from_utf8(bytes)
}

/// `i64::try_from(u64)`: it succeeds exactly when the value is at most `i64::MAX`,
/// and then keeps the value.
#[verifier::external_body]
fn i64_try_from_u64(v: u64) -> (r: core::result::Result<i64, core::num::TryFromIntError>)
    ensures
        r is Ok <==> v <= i64::MAX,
        r matches Ok(x) ==> x == v,
{
    i64::try_from(v)
}

/// Appends the `k` low-order bytes of `n`, most significant first.
fn push_be(out: &mut Vec<u8>, n: u64, k: usize)
    ensures
        final(out)@ == old(out)@ + be_bytes(n as nat, k as nat),
    decreases k,
{
    if k > 0 {
        push_be(out, n / 256, k - 1);
        out.push((n % 256) as u8);
        assert(final(out)@ =~= old(out)@ + be_bytes(n as nat, k as nat));
    } else {
        assert(final(out)@ =~= old(out)@ + be_bytes(n as nat, k as nat));
    }
}

/// Appends the bytes of a slice.
fn push_all(out: &mut Vec<u8>, bytes: &[u8])
    ensures
        final(out)@ == old(out)@ + bytes@,
{
    let mut i: usize = 0;
    while i < bytes.len()
        invariant
            i <= bytes.len(),
            out@ == old(out)@ + bytes@.subrange(0, i as int),
        decreases bytes.len() - i,
    {
        out.push(bytes[i]);
        i = i + 1;
        assert(out@ =~= old(out)@ + bytes@.subrange(0, i as int));
    }
    assert(bytes@.subrange(0, i as int) =~= bytes@);
}

/// Appends a boolean.
pub fn write_bool(out: &mut Vec<u8>, value: bool)
    ensures
        final(out)@ == old(out)@ + enc_bool(value),
{
    out.push(if value { 0xc3 } else { 0xc2 });
    assert(final(out)@ =~= old(out)@ + enc_bool(value));
}

/// Appends an `i32` in the shortest integer form.
pub fn write_i32(out: &mut Vec<u8>, value: i32)
    ensures
        final(out)@ == old(out)@ + enc_int(value as int),
{
    write_i64(out, value as i64);
}

/// Appends an `i8` as a one-byte signed integer (`0xd0`).
pub fn write_i8(out: &mut Vec<u8>, value: i8)
    ensures
        final(out)@ == old(out)@ + enc_i8(value as int),
{
    proof {
        lemma_pow256_values();
    }
    out.push(0xd0);
    let byte: u8 = if value < 0 {
        (value as i16 + 256) as u8
    } else {
        value as u8
    };
    out.push(byte);
    assert(final(out)@ =~= old(out)@ + enc_i8(value as int));
}

/// Appends an `i16` as a two-byte signed integer (`0xd1`).
pub fn write_i16(out: &mut Vec<u8>, value: i16)
    ensures
        final(out)@ == old(out)@ + enc_i16(value as int),
{
    proof {
        lemma_pow256_values();
    }
    out.push(0xd1);
    let pattern: u64 = if value < 0 {
        (value as i32 + 0x1_0000) as u64
    } else {
        value as u64
    };
    push_be(out, pattern, 2);
    assert(final(out)@ =~= old(out)@ + enc_i16(value as int));
}

/// Appends an `i64` in the shortest of the forms fixint, `0xd0`, `0xd1`, `0xd2`, `0xd3`.
pub fn write_i64(out: &mut Vec<u8>, value: i64)
    ensures
        final(out)@ == old(out)@ + enc_int(value as int),
{
    proof {
        lemma_pow256_values();
    }
    if 0 <= value && value <= 0x7f {
        out.push(value as u8);
    } else if -32 <= value && value <= -1 {
        out.push((value + 256) as u8);
    } else if -0x80 <= value && value <= 0x7f {
        out.push(0xd0);
        out.push((value + 256) as u8);
    } else if -0x8000 <= value && value <= 0x7fff {
        out.push(0xd1);
        let pattern: u64 = if value < 0 {
            (value + 0x1_0000) as u64
        } else {
            value as u64
        };
        push_be(out, pattern, 2);
    } else if -0x8000_0000 <= value && value <= 0x7fff_ffff {
        out.push(0xd2);
        let pattern: u64 = if value < 0 {
            (value + 0x1_0000_0000) as u64
        } else {
            value as u64
        };
        push_be(out, pattern, 4);
    } else {
        out.push(0xd3);
        let pattern: u64 = if value < 0 {
            ((value - i64::MIN) as u64) + 0x8000_0000_0000_0000
        } else {
            value as u64
        };
        push_be(out, pattern, 8);
    }
    assert(final(out)@ =~= old(out)@ + enc_int(value as int));
}

/// Appends a single-precision number given by its bit pattern (`0xca`).
pub fn write_f32_bits(out: &mut Vec<u8>, bits: u32)
    ensures
        final(out)@ == old(out)@ + enc_f32_bits(bits),
{
    out.push(0xca);
    push_be(out, bits as u64, 4);
    assert(final(out)@ =~= old(out)@ + enc_f32_bits(bits));
}

/// Appends a double-precision number given by its bit pattern (`0xcb`).
pub fn write_f64_bits(out: &mut Vec<u8>, bits: u64)
    ensures
        final(out)@ == old(out)@ + enc_f64_bits(bits),
{
    out.push(0xcb);
    push_be(out, bits, 8);
    assert(final(out)@ =~= old(out)@ + enc_f64_bits(bits));
}

/// Appends a string: a header that holds its byte length, then its UTF-8 bytes.
/// A string of more than `u32::MAX` bytes is refused, and nothing is appended.
pub fn write_str(out: &mut Vec<u8>, value: &str) -> (r: Result<()>)
    ensures
        r is Ok <==> encode_utf8(value@).len() <= u32::MAX,
        r is Ok ==> final(out)@ == old(out)@ + enc_str(value@),
        r matches Err(e) ==> e is IntConversion && final(out)@ == old(out)@,
{
    proof {
        lemma_pow256_values();
    }
    let bytes = value.as_bytes();
    let len = bytes.len();
    if len <= 31 {
        out.push(0xa0 + len as u8);
    } else if len <= 0xff {
        out.push(0xd9);
        out.push(len as u8);
    } else if len <= 0xffff {
        out.push(0xda);
        push_be(out, len as u64, 2);
    } else {
        match u32::try_from(len) {
            Ok(len32) => {
                out.push(0xdb);
                push_be(out, len32 as u64, 4);
            },
            Err(e) => {
                return Err(MsgpackError::IntConversion(e));
            },
        }
    }
    push_all(out, bytes);
    assert(final(out)@ =~= old(out)@ + enc_str(value@));
    Ok(())
}

/// Appends a binary blob: a header that holds its length, then its bytes. A blob
/// of more than `u32::MAX` bytes is refused, and nothing is appended.
pub fn write_bin(out: &mut Vec<u8>, value: &[u8]) -> (r: Result<()>)
    ensures
        r is Ok <==> value@.len() <= u32::MAX,
        r is Ok ==> final(out)@ == old(out)@ + enc_bin(value@),
        r matches Err(e) ==> e is IntConversion && final(out)@ == old(out)@,
{
    proof {
        lemma_pow256_values();
    }
    let len = value.len();
    if len <= 0xff {
        out.push(0xc4);
        out.push(len as u8);
    } else if len <= 0xffff {
        out.push(0xc5);
        push_be(out, len as u64, 2);
    } else {
        match u32::try_from(len) {
            Ok(len32) => {
                out.push(0xc6);
                push_be(out, len32 as u64, 4);
            },
            Err(e) => {
                return Err(MsgpackError::IntConversion(e));
            },
        }
    }
    push_all(out, value);
    assert(final(out)@ =~= old(out)@ + enc_bin(value@));
    Ok(())
}

/// Appends the header of an array of `len` items. More than `u32::MAX` items are
/// refused, and nothing is appended.
pub fn write_array_len(out: &mut Vec<u8>, len: usize) -> (r: Result<()>)
    ensures
        r is Ok <==> len <= u32::MAX,
        r is Ok ==> final(out)@ == old(out)@ + enc_array_len(len as nat),
        r matches Err(e) ==> e is IntConversion && final(out)@ == old(out)@,
{
    proof {
        lemma_pow256_values();
    }
    if len <= 15 {
        out.push(0x90 + len as u8);
    } else if len <= 0xffff {
        out.push(0xdc);
        push_be(out, len as u64, 2);
    } else {
        match u32::try_from(len) {
            Ok(len32) => {
                out.push(0xdd);
                push_be(out, len32 as u64, 4);
            },
            Err(e) => {
                return Err(MsgpackError::IntConversion(e));
            },
        }
    }
    assert(final(out)@ =~= old(out)@ + enc_array_len(len as nat));
    Ok(())
}

/// A cursor over a byte slice that reads MessagePack items one after the other.
#[derive(Debug)]
pub struct MsgpackReader<'a> {
    buf: &'a [u8],
    pos: usize,
}

impl<'a> Clone for MsgpackReader<'a> {
    /// A reader over the same bytes at the same position.
    fn clone(&self) -> (r: Self)
        ensures
            r.bytes() == self.bytes(),
            r.cursor() == self.cursor(),
    {
        proof {
            use_type_invariant(self);
        }
        MsgpackReader { buf: self.buf, pos: self.pos }
    }
}

impl<'a> MsgpackReader<'a> {
    /// The position never passes the end of the bytes.
    #[verifier::type_invariant]
    spec fn in_bounds(self) -> bool {
        self.pos <= self.buf@.len()
    }

    /// The bytes being read.
    pub closed spec fn bytes(&self) -> Seq<u8> {
        self.buf@
    }

    /// The position of the next byte to read.
    pub closed spec fn cursor(&self) -> int {
        self.pos as int
    }

    /// `next` is this reader after a read that the model describes by `step`, and
    /// that returned `r`: the same bytes, the position the model gives, which is
    /// not behind the old one nor past the end, and an outcome that agrees with the
    /// model's.
    pub open spec fn stepped<T: View>(
        self,
        next: Self,
        r: Result<T>,
        step: (int, core::result::Result<T::V, Fault>),
    ) -> bool {
        &&& next.bytes() == self.bytes()
        &&& next.cursor() == step.0
        &&& self.cursor() <= next.cursor() <= next.bytes().len()
        &&& MsgpackError::agrees(r, step.1)
    }

    /// A reader at the start of `buf`.
    pub fn new(buf: &'a [u8]) -> (r: Self)
        ensures
            r.bytes() == buf@,
            r.cursor() == 0,
    {
        MsgpackReader { buf, pos: 0 }
    }

    /// Whether bytes remain after the position.
    pub fn has_next(&self) -> (r: bool)
        ensures
            r == (self.cursor() < self.bytes().len()),
    {
        self.pos < self.buf.len()
    }

    /// The position of the next byte to read.
    pub fn position(&self) -> (r: usize)
        ensures
            r == self.cursor(),
            r <= self.bytes().len(),
    {
        proof {
            use_type_invariant(self);
        }
        self.pos
    }

    /// The next byte, without moving; `None` at the end.
    pub fn peek_marker(&self) -> (r: Option<u8>)
        ensures
            r == (if self.cursor() < self.bytes().len() {
                Some(self.bytes()[self.cursor()])
            } else {
                None
            }),
    {
        if self.pos < self.buf.len() {
            Some(self.buf[self.pos])
        } else {
            None
        }
    }

    fn read_u8(&mut self) -> (r: Result<u8>)
        ensures
            old(self).stepped(*final(self), r, byte_at(old(self).bytes(), old(self).cursor())),
    {
        proof {
            use_type_invariant(&*self);
            lemma_reads_stay_in_bounds(self.bytes(), self.cursor());
        }
        if self.pos < self.buf.len() {
            let byte = self.buf[self.pos];
            self.pos = self.pos + 1;
            Ok(byte)
        } else {
            Err(MsgpackError::Msgpack("unexpected end of buffer"))
        }
    }

    fn read_exact(&mut self, len: usize) -> (r: Result<&'a [u8]>)
        ensures
            old(self).stepped(*final(self), r, bytes_at(old(self).bytes(), old(self).cursor(), len as nat)),
    {
        proof {
            use_type_invariant(&*self);
            lemma_reads_stay_in_bounds(self.bytes(), self.cursor());
        }
        let end = match self.pos.checked_add(len) {
            Some(end) => end,
            None => {
                return Err(MsgpackError::Msgpack("length overflow"));
            },
        };
        if end > self.buf.len() {
            return Err(MsgpackError::Msgpack("unexpected end of buffer"));
        }
        let out = vstd::slice::slice_subrange(self.buf, self.pos, end);
        self.pos = end;
        Ok(out)
    }

    /// Reads `n` bytes as a big-endian unsigned number.
    fn read_uint(&mut self, n: usize) -> (r: Result<u64>)
        requires
            n <= 8,
        ensures
            final(self).bytes() == old(self).bytes(),
            final(self).cursor() == be_num_at(old(self).bytes(), old(self).cursor(), n as nat, false).0,
            match be_num_at(old(self).bytes(), old(self).cursor(), n as nat, false).1 {
                Ok(v) => r matches Ok(x) && x == v,
                Err(f) => r matches Err(e) && e.reports(f),
            },
            r matches Ok(x) ==> x < pow256(n as nat),
    {
        let bytes = self.read_exact(n)?;
        let mut acc: u64 = 0;
        let mut i: usize = 0;
        proof {
            lemma_pow256_values();
        }
        while i < n
            invariant
                i <= n <= 8,
                bytes@.len() == n,
                acc == be_value(bytes@.subrange(0, i as int)),
                pow256(8) == 0x1_0000_0000_0000_0000,
            decreases n - i,
        {
            proof {
                let s = bytes@.subrange(0, i as int);
                let t = bytes@.subrange(0, i as int + 1);
                assert(t =~= s.push(bytes@[i as int]));
                lemma_be_value_push(s, bytes@[i as int]);
                lemma_be_value_bound(t);
                lemma_pow_mono(t.len(), 8);
            }
            acc = acc * 256 + bytes[i] as u64;
            i = i + 1;
        }
        assert(bytes@.subrange(0, n as int) =~= bytes@);
        proof {
            lemma_be_value_bound(bytes@);
        }
        Ok(acc)
    }

    /// Reads a boolean.
    pub fn read_bool(&mut self) -> (r: Result<bool>)
        ensures
            old(self).stepped(*final(self), r, bool_at(old(self).bytes(), old(self).cursor())),
    {
        proof {
            use_type_invariant(&*self);
            lemma_reads_stay_in_bounds(self.bytes(), self.cursor());
        }
        proof {
            reveal(bool_at);
        }
        match self.read_u8()? {
            0xc2 => Ok(false),
            0xc3 => Ok(true),
            _ => Err(MsgpackError::Msgpack("expected bool")),
        }
    }

    /// Reads an integer of any MessagePack form that fits an `i32`.
    pub fn read_i32(&mut self) -> (r: Result<i32>)
        ensures
            old(self).stepped(*final(self), r, i32_at(old(self).bytes(), old(self).cursor())),
    {
        proof {
            use_type_invariant(&*self);
            lemma_reads_stay_in_bounds(self.bytes(), self.cursor());
        }
        proof {
            reveal(i32_at);
            reveal(int_in_at);
        }
        let v = self.read_i64()?;
        match i32::try_from(v) {
            Ok(x) => Ok(x),
            Err(e) => Err(MsgpackError::IntConversion(e)),
        }
    }

    /// Reads an integer of any MessagePack form that fits an `i8`.
    pub fn read_i8(&mut self) -> (r: Result<i8>)
        ensures
            old(self).stepped(*final(self), r, i8_at(old(self).bytes(), old(self).cursor())),
    {
        proof {
            use_type_invariant(&*self);
            lemma_reads_stay_in_bounds(self.bytes(), self.cursor());
        }
        proof {
            reveal(i8_at);
            reveal(int_in_at);
        }
        let v = self.read_i64()?;
        match i8::try_from(v) {
            Ok(x) => Ok(x),
            Err(e) => Err(MsgpackError::IntConversion(e)),
        }
    }

    /// Reads an integer of any MessagePack form that fits an `i16`.
    pub fn read_i16(&mut self) -> (r: Result<i16>)
        ensures
            old(self).stepped(*final(self), r, i16_at(old(self).bytes(), old(self).cursor())),
    {
        proof {
            use_type_invariant(&*self);
            lemma_reads_stay_in_bounds(self.bytes(), self.cursor());
        }
        proof {
            reveal(i16_at);
            reveal(int_in_at);
        }
        let v = self.read_i64()?;
        match i16::try_from(v) {
            Ok(x) => Ok(x),
            Err(e) => Err(MsgpackError::IntConversion(e)),
        }
    }

    /// Reads an integer of any MessagePack form that fits an `i64`.
    pub fn read_i64(&mut self) -> (r: Result<i64>)
        ensures
            old(self).stepped(*final(self), r, i64_at(old(self).bytes(), old(self).cursor())),
    {
        proof {
            use_type_invariant(&*self);
            lemma_reads_stay_in_bounds(self.bytes(), self.cursor());
        }
        proof {
            reveal(i64_at);
        }
        proof {
            lemma_pow256_values();
        }
        let marker = self.read_u8()?;
        if marker <= 0x7f {
            Ok(marker as i64)
        } else if marker == 0xcc {
            let b = self.read_u8()?;
            Ok(b as i64)
        } else if marker == 0xcd {
            let raw = self.read_uint(2)?;
            Ok(raw as i64)
        } else if marker == 0xce {
            let raw = self.read_uint(4)?;
            Ok(raw as i64)
        } else if marker == 0xcf {
            let raw = self.read_uint(8)?;
            match i64_try_from_u64(raw) {
                Ok(v) => Ok(v),
                Err(e) => Err(MsgpackError::IntConversion(e)),
            }
        } else if marker == 0xd0 {
            let b = self.read_u8()?;
            Ok(if b >= 0x80 { b as i64 - 0x100 } else { b as i64 })
        } else if marker == 0xd1 {
            let raw = self.read_uint(2)?;
            Ok(if raw >= 0x8000 { raw as i64 - 0x1_0000 } else { raw as i64 })
        } else if marker == 0xd2 {
            let raw = self.read_uint(4)?;
            Ok(if raw >= 0x8000_0000 { raw as i64 - 0x1_0000_0000 } else { raw as i64 })
        } else if marker == 0xd3 {
            let raw = self.read_uint(8)?;
            Ok(
                if raw >= 0x8000_0000_0000_0000 {
                    (raw - 0x8000_0000_0000_0000) as i64 + i64::MIN
                } else {
                    raw as i64
                },
            )
        } else if marker >= 0xe0 {
            Ok(marker as i64 - 0x100)
        } else {
            Err(MsgpackError::Msgpack("expected integer"))
        }
    }

    /// Reads a floating-point number of either precision, as the bit pattern it was
    /// sent with.
    pub fn read_float_bits(&mut self) -> (r: Result<FloatBits>)
        ensures
            old(self).stepped(*final(self), r, float_at(old(self).bytes(), old(self).cursor())),
    {
        proof {
            use_type_invariant(&*self);
            lemma_reads_stay_in_bounds(self.bytes(), self.cursor());
        }
        proof {
            reveal(float_at);
            lemma_pow256_values();
        }
        let marker = self.read_u8()?;
        if marker == 0xca {
            let raw = self.read_uint(4)?;
            Ok(FloatBits::Single(raw as u32))
        } else if marker == 0xcb {
            let raw = self.read_uint(8)?;
            Ok(FloatBits::Double(raw))
        } else {
            Err(MsgpackError::Msgpack("expected float"))
        }
    }

    /// Reads a string whose bytes must be UTF-8.
    pub fn read_str(&mut self) -> (r: Result<String>)
        ensures
            old(self).stepped(*final(self), r, str_at(old(self).bytes(), old(self).cursor())),
    {
        proof {
            use_type_invariant(&*self);
            lemma_reads_stay_in_bounds(self.bytes(), self.cursor());
        }
        proof {
            reveal(str_at);
        }
        proof {
            lemma_pow256_values();
        }
        let marker = self.read_u8()?;
        let len: usize = if 0xa0 <= marker && marker <= 0xbf {
            (marker - 0xa0) as usize
        } else if marker == 0xd9 {
            let b = self.read_u8()?;
            b as usize
        } else if marker == 0xda {
            let raw = self.read_uint(2)?;
            raw as usize
        } else if marker == 0xdb {
            let raw = self.read_uint(4)?;
            match usize::try_from(raw as u32) {
                Ok(l) => l,
                Err(e) => {
                    return Err(MsgpackError::IntConversion(e));
                },
            }
        } else {
            return Err(MsgpackError::Msgpack("expected string"));
        };
        let bytes = self.read_exact(len)?;
        match str_from_utf8(bytes) {
            Ok(s) => Ok(s.to_owned()),
            Err(e) => Err(MsgpackError::Utf8(e)),
        }
    }

    /// Reads a binary blob.
    pub fn read_bin(&mut self) -> (r: Result<Vec<u8>>)
        ensures
            old(self).stepped(*final(self), r, bin_at(old(self).bytes(), old(self).cursor())),
    {
        proof {
            use_type_invariant(&*self);
            lemma_reads_stay_in_bounds(self.bytes(), self.cursor());
        }
        proof {
            reveal(bin_at);
        }
        proof {
            lemma_pow256_values();
        }
        let marker = self.read_u8()?;
        let len: usize = if marker == 0xc4 {
            let b = self.read_u8()?;
            b as usize
        } else if marker == 0xc5 {
            let raw = self.read_uint(2)?;
            raw as usize
        } else if marker == 0xc6 {
            let raw = self.read_uint(4)?;
            match usize::try_from(raw as u32) {
                Ok(l) => l,
                Err(e) => {
                    return Err(MsgpackError::IntConversion(e));
                },
            }
        } else {
            return Err(MsgpackError::Msgpack("expected binary"));
        };
        let bytes = self.read_exact(len)?;
        Ok(vstd::slice::slice_to_vec(bytes))
    }

    /// Reads the header of an array: its number of items.
    pub fn read_array_len(&mut self) -> (r: Result<usize>)
        ensures
            old(self).stepped(*final(self), r, array_len_at(old(self).bytes(), old(self).cursor())),
    {
        proof {
            use_type_invariant(&*self);
            lemma_reads_stay_in_bounds(self.bytes(), self.cursor());
        }
        proof {
            reveal(array_len_at);
        }
        proof {
            lemma_pow256_values();
        }
        let marker = self.read_u8()?;
        if 0x90 <= marker && marker <= 0x9f {
            Ok((marker - 0x90) as usize)
        } else if marker == 0xdc {
            let raw = self.read_uint(2)?;
            Ok(raw as usize)
        } else if marker == 0xdd {
            let raw = self.read_uint(4)?;
            match usize::try_from(raw as u32) {
                Ok(l) => Ok(l),
                Err(e) => Err(MsgpackError::IntConversion(e)),
            }
        } else {
            Err(MsgpackError::Msgpack("expected array"))
        }
    }
}

/// Powers of 256 grow with the exponent.
proof fn lemma_pow_mono(i: nat, j: nat)
    requires
        i <= j,
    ensures
        pow256(i) <= pow256(j),
    decreases j,
{
    if i < j {
        lemma_pow_mono(i, (j - 1) as nat);
    }
}

} // verus!
