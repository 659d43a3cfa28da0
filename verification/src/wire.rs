//! What the readers make of the bytes, in plain arithmetic on those bytes: each
//! MessagePack integer form, the boolean markers, and the length headers of
//! strings, blobs and arrays. These laws pin the reader models of
//! [`crate::format`] to the MessagePack format itself.

use vstd::prelude::*;
use vstd::utf8::{decode_utf8, valid_utf8};

use crate::error::Fault;
use crate::format::{
    array_len_at, be_bytes, be_value, float_at, FloatBits, bin_at, bin_header, bool_at, enc_array_len, enc_f32_bits,
    enc_f64_bits, enc_i16, enc_i8, enc_int, i16_at, i32_at, i64_at, i8_at, int_in_at, lemma_be_exact,
    lemma_be_value_push, pow256, str_at, str_header, twos,
};

verus! {

/// The number whose big-endian bytes stand at `b[q..q + k]` is that of the first
/// `k - 1` of them, shifted one byte up, plus the last.
proof fn lemma_be_value_at(b: Seq<u8>, q: int, k: int)
    requires
        0 <= q,
        0 < k,
        q + k <= b.len(),
    ensures
        be_value(b.subrange(q, q + k)) == be_value(b.subrange(q, q + k - 1)) * 256 + b[q + k - 1],
{
    assert(b.subrange(q, q + k) =~= b.subrange(q, q + k - 1).push(b[q + k - 1]));
    lemma_be_value_push(b.subrange(q, q + k - 1), b[q + k - 1]);
}

/// The big-endian numbers of one, two, four and eight bytes at `q`.
proof fn lemma_be_values(b: Seq<u8>, q: int)
    requires
        0 <= q,
    ensures
        q + 1 <= b.len() ==> be_value(b.subrange(q, q + 1)) == b[q],
        q + 2 <= b.len() ==> be_value(b.subrange(q, q + 2)) == b[q] * 0x100 + b[q + 1],
        q + 4 <= b.len() ==> be_value(b.subrange(q, q + 4)) == b[q] * 0x100_0000 + b[q + 1]
            * 0x1_0000 + b[q + 2] * 0x100 + b[q + 3],
        q + 8 <= b.len() ==> be_value(b.subrange(q, q + 8)) == b[q] * 0x100_0000_0000_0000 + b[q
            + 1] * 0x1_0000_0000_0000 + b[q + 2] * 0x100_0000_0000 + b[q + 3] * 0x1_0000_0000 + b[q
            + 4] * 0x100_0000 + b[q + 5] * 0x1_0000 + b[q + 6] * 0x100 + b[q + 7],
{
    if q + 1 <= b.len() {
        lemma_be_value_at(b, q, 1);
    }
    if q + 2 <= b.len() {
        lemma_be_value_at(b, q, 2);
    }
    if q + 4 <= b.len() {
        lemma_be_value_at(b, q, 3);
        lemma_be_value_at(b, q, 4);
    }
    if q + 8 <= b.len() {
        lemma_be_value_at(b, q, 5);
        lemma_be_value_at(b, q, 6);
        lemma_be_value_at(b, q, 7);
        lemma_be_value_at(b, q, 8);
    }
    if q + 1 <= b.len() {
        assert(b.subrange(q, q) =~= Seq::<u8>::empty());
        assert(be_value(b.subrange(q, q + 1)) == be_value(b.subrange(q, q)) * 256 + b[q]);
    }
    if q + 2 <= b.len() {
        assert(be_value(b.subrange(q, q + 2)) == be_value(b.subrange(q, q + 1)) * 256 + b[q + 1]);
    }
    if q + 4 <= b.len() {
        assert(be_value(b.subrange(q, q + 3)) == be_value(b.subrange(q, q + 2)) * 256 + b[q + 2]);
        assert(be_value(b.subrange(q, q + 4)) == be_value(b.subrange(q, q + 3)) * 256 + b[q + 3]);
    }
    if q + 8 <= b.len() {
        assert(be_value(b.subrange(q, q + 5)) == be_value(b.subrange(q, q + 4)) * 256 + b[q + 4]);
        assert(be_value(b.subrange(q, q + 6)) == be_value(b.subrange(q, q + 5)) * 256 + b[q + 5]);
        assert(be_value(b.subrange(q, q + 7)) == be_value(b.subrange(q, q + 6)) * 256 + b[q + 6]);
        assert(be_value(b.subrange(q, q + 8)) == be_value(b.subrange(q, q + 7)) * 256 + b[q + 7]);
    }
}

/// The unsigned number of two bytes.
pub open spec fn u16_of(hi: u8, lo: u8) -> int {
    hi * 0x100 + lo
}

/// The unsigned number of four bytes, most significant first.
pub open spec fn u32_of(b0: u8, b1: u8, b2: u8, b3: u8) -> int {
    b0 * 0x100_0000 + b1 * 0x1_0000 + b2 * 0x100 + b3
}

/// The unsigned number of eight bytes, most significant first.
pub open spec fn u64_of(b: Seq<u8>, q: int) -> int {
    u32_of(b[q], b[q + 1], b[q + 2], b[q + 3]) * 0x1_0000_0000 + u32_of(
        b[q + 4],
        b[q + 5],
        b[q + 6],
        b[q + 7],
    )
}

/// Law: what `read_i64` makes of each MessagePack integer form, in arithmetic on
/// the bytes: a positive fixint is its byte; a negative fixint is its byte less
/// 256; `0xcc`, `0xcd`, `0xce`, `0xcf` carry an unsigned number of one, two, four
/// and eight bytes (never negative; one above `i64::MAX` is refused); `0xd0`,
/// `0xd1`, `0xd2`, `0xd3` carry a two's-complement number of one, two, four and
/// eight bytes; every other marker is refused. Each form is read to its end.
pub proof fn lemma_i64_forms(b: Seq<u8>, p: int)
    requires
        0 <= p < b.len(),
        b.len() <= usize::MAX,
    ensures
        b[p] <= 0x7f ==> i64_at(b, p) == (p + 1, Ok::<i64, Fault>(b[p] as i64)),
        b[p] >= 0xe0 ==> i64_at(b, p) == (p + 1, Ok::<i64, Fault>((b[p] - 0x100) as i64)),
        b[p] == 0xcc && p + 2 <= b.len() ==> i64_at(b, p) == (p + 2, Ok::<i64, Fault>(b[p + 1] as i64)),
        b[p] == 0xcd && p + 3 <= b.len() ==> i64_at(b, p) == (
            p + 3,
            Ok::<i64, Fault>(u16_of(b[p + 1], b[p + 2]) as i64),
        ),
        b[p] == 0xce && p + 5 <= b.len() ==> i64_at(b, p) == (
            p + 5,
            Ok::<i64, Fault>(u32_of(b[p + 1], b[p + 2], b[p + 3], b[p + 4]) as i64),
        ),
        b[p] == 0xcf && p + 9 <= b.len() ==> i64_at(b, p) == (
            p + 9,
            if u64_of(b, p + 1) <= i64::MAX {
                Ok::<i64, Fault>(u64_of(b, p + 1) as i64)
            } else {
                Err::<i64, Fault>(Fault::OutOfRange)
            },
        ),
        b[p] == 0xd0 && p + 2 <= b.len() ==> i64_at(b, p) == (
            p + 2,
            Ok::<i64, Fault>(
                (if b[p + 1] >= 0x80 {
                    b[p + 1] - 0x100
                } else {
                    b[p + 1] as int
                }) as i64,
            ),
        ),
        b[p] == 0xd1 && p + 3 <= b.len() ==> i64_at(b, p) == (
            p + 3,
            Ok::<i64, Fault>(
                (if u16_of(b[p + 1], b[p + 2]) >= 0x8000 {
                    u16_of(b[p + 1], b[p + 2]) - 0x1_0000
                } else {
                    u16_of(b[p + 1], b[p + 2])
                }) as i64,
            ),
        ),
        b[p] == 0xd2 && p + 5 <= b.len() ==> i64_at(b, p) == (
            p + 5,
            Ok::<i64, Fault>(
                (if u32_of(b[p + 1], b[p + 2], b[p + 3], b[p + 4]) >= 0x8000_0000 {
                    u32_of(b[p + 1], b[p + 2], b[p + 3], b[p + 4]) - 0x1_0000_0000
                } else {
                    u32_of(b[p + 1], b[p + 2], b[p + 3], b[p + 4])
                }) as i64,
            ),
        ),
        b[p] == 0xd3 && p + 9 <= b.len() ==> i64_at(b, p) == (
            p + 9,
            Ok::<i64, Fault>(
                (if u64_of(b, p + 1) >= 0x8000_0000_0000_0000 {
                    u64_of(b, p + 1) - 0x1_0000_0000_0000_0000
                } else {
                    u64_of(b, p + 1)
                }) as i64,
            ),
        ),
        0xc0 <= b[p] <= 0xcb || 0xd4 <= b[p] <= 0xdf ==> i64_at(b, p) == (
            p + 1,
            Err::<i64, Fault>(Fault::ExpectedInteger),
        ),
{
    reveal(i64_at);
    crate::format::lemma_pow256_values();
    lemma_be_values(b, p + 1);
}

/// Law: `read_i32` reads what `read_i64` reads, and refuses, after reading it, an
/// integer outside the range of `i32`.
pub proof fn lemma_i32_from_i64(b: Seq<u8>, p: int)
    ensures
        i32_at(b, p).0 == i64_at(b, p).0,
        i64_at(b, p).1 matches Ok(v) ==> i32_at(b, p).1 == if i32::MIN <= v <= i32::MAX {
            Ok::<i32, Fault>(v as i32)
        } else {
            Err::<i32, Fault>(Fault::OutOfRange)
        },
        i64_at(b, p).1 matches Err(f) ==> i32_at(b, p).1 == Err::<i32, Fault>(f),
{
    reveal(i32_at);
    reveal(int_in_at);
}

/// Law: `read_bool` reads `0xc3` as true and `0xc2` as false, and refuses every
/// other marker after reading it.
pub proof fn lemma_bool_forms(b: Seq<u8>, p: int)
    requires
        0 <= p < b.len(),
    ensures
        b[p] == 0xc3 ==> bool_at(b, p) == (p + 1, Ok::<bool, Fault>(true)),
        b[p] == 0xc2 ==> bool_at(b, p) == (p + 1, Ok::<bool, Fault>(false)),
        b[p] != 0xc2 && b[p] != 0xc3 ==> bool_at(b, p) == (p + 1, Err::<bool, Fault>(Fault::ExpectedBool)),
{
    reveal(bool_at);
}

/// Law: `read_str` reads a header giving the byte length `n` (a fixstr marker
/// `0xa0 + n`, or `0xd9`, `0xda`, `0xdb` followed by `n` in one, two or four bytes),
/// then `n` bytes, which must be UTF-8 and give the string they encode.
pub proof fn lemma_str_forms(b: Seq<u8>, p: int)
    requires
        0 <= p < b.len(),
        b.len() <= usize::MAX,
    ensures
        ({
            let (h, n) = if 0xa0 <= b[p] <= 0xbf {
                (1int, b[p] - 0xa0)
            } else if b[p] == 0xd9 {
                (2int, b[p + 1] as int)
            } else if b[p] == 0xda {
                (3int, u16_of(b[p + 1], b[p + 2]))
            } else {
                (5int, u32_of(b[p + 1], b[p + 2], b[p + 3], b[p + 4]))
            };
            (0xa0 <= b[p] <= 0xbf || b[p] == 0xd9 || b[p] == 0xda || b[p] == 0xdb) && p + h + n
                <= b.len() ==> str_at(b, p) == (
                p + h + n,
                if valid_utf8(b.subrange(p + h, p + h + n)) {
                    Ok::<Seq<char>, Fault>(decode_utf8(b.subrange(p + h, p + h + n)))
                } else {
                    Err::<Seq<char>, Fault>(Fault::InvalidUtf8)
                },
            )
        }),
        !(0xa0 <= b[p] <= 0xbf || b[p] == 0xd9 || b[p] == 0xda || b[p] == 0xdb) ==> str_at(b, p) == (
            p + 1,
            Err::<Seq<char>, Fault>(Fault::ExpectedString),
        ),
{
    reveal(str_at);
    crate::format::lemma_pow256_values();
    lemma_be_values(b, p + 1);
}

/// Law: `read_bin` reads a header giving the length `n` (`0xc4`, `0xc5`, `0xc6`
/// followed by `n` in one, two or four bytes), then gives the next `n` bytes.
pub proof fn lemma_bin_forms(b: Seq<u8>, p: int)
    requires
        0 <= p < b.len(),
        b.len() <= usize::MAX,
    ensures
        ({
            let (h, n) = if b[p] == 0xc4 {
                (2int, b[p + 1] as int)
            } else if b[p] == 0xc5 {
                (3int, u16_of(b[p + 1], b[p + 2]))
            } else {
                (5int, u32_of(b[p + 1], b[p + 2], b[p + 3], b[p + 4]))
            };
            (b[p] == 0xc4 || b[p] == 0xc5 || b[p] == 0xc6) && p + h + n <= b.len() ==> bin_at(b, p)
                == (p + h + n, Ok::<Seq<u8>, Fault>(b.subrange(p + h, p + h + n)))
        }),
        !(b[p] == 0xc4 || b[p] == 0xc5 || b[p] == 0xc6) ==> bin_at(b, p) == (
            p + 1,
            Err::<Seq<u8>, Fault>(Fault::ExpectedBinary),
        ),
{
    reveal(bin_at);
    crate::format::lemma_pow256_values();
    lemma_be_values(b, p + 1);
}

/// Law: `read_array_len` reads a fixarray marker `0x90 + n`, or `0xdc`, `0xdd`
/// followed by `n` in two or four bytes, and gives `n`.
pub proof fn lemma_array_len_forms(b: Seq<u8>, p: int)
    requires
        0 <= p < b.len(),
        b.len() <= usize::MAX,
    ensures
        0x90 <= b[p] <= 0x9f ==> array_len_at(b, p) == (p + 1, Ok::<usize, Fault>((b[p] - 0x90) as usize)),
        b[p] == 0xdc && p + 3 <= b.len() ==> array_len_at(b, p) == (
            p + 3,
            Ok::<usize, Fault>(u16_of(b[p + 1], b[p + 2]) as usize),
        ),
        b[p] == 0xdd && p + 5 <= b.len() ==> array_len_at(b, p) == (
            p + 5,
            Ok::<usize, Fault>(u32_of(b[p + 1], b[p + 2], b[p + 3], b[p + 4]) as usize),
        ),
        !(0x90 <= b[p] <= 0x9f || b[p] == 0xdc || b[p] == 0xdd) ==> array_len_at(b, p) == (
            p + 1,
            Err::<usize, Fault>(Fault::ExpectedArray),
        ),
{
    reveal(array_len_at);
    crate::format::lemma_pow256_values();
    lemma_be_values(b, p + 1);
}


/// A marker followed by the `k` big-endian bytes of `n` (`n` below `256^k`): the
/// bytes after the marker, read as an unsigned number, give `n`.
proof fn lemma_marked_number(e: Seq<u8>, m: u8, n: nat, k: nat)
    requires
        k == 2 || k == 4 || k == 8,
        n < pow256(k),
        e == seq![m] + be_bytes(n, k),
    ensures
        e.len() == k + 1,
        e[0] == m,
        k == 2 ==> u16_of(e[1], e[2]) == n,
        k == 4 ==> u32_of(e[1], e[2], e[3], e[4]) == n,
        k == 8 ==> u64_of(e, 1) == n,
{
    lemma_be_exact(n, k);
    assert(e.subrange(1, 1 + k as int) =~= be_bytes(n, k));
    lemma_be_values(e, 1);
}

/// Law: what `write_i64` (and `write_i32`) emits for each integer `v`, in plain
/// bytes: `v` itself from 0 to 127; `v + 256` from -32 to -1; `0xd0` and `v + 256`
/// from -128 to -33; otherwise `0xd1`, `0xd2` or `0xd3` followed by the two's
/// complement of `v` in two, four or eight bytes, the shortest of them that holds
/// `v`.
pub proof fn lemma_int_bytes(v: int)
    requires
        i64::MIN <= v <= i64::MAX,
    ensures
        0 <= v <= 0x7f ==> enc_int(v) == seq![v as u8],
        -32 <= v < 0 ==> enc_int(v) == seq![(v + 0x100) as u8],
        -0x80 <= v < -32 ==> enc_int(v) == seq![0xd0u8, (v + 0x100) as u8],
        0x80 <= v < 0x8000 || -0x8000 <= v < -0x80 ==> {
            let e = enc_int(v);
            &&& e.len() == 3
            &&& e[0] == 0xd1
            &&& u16_of(e[1], e[2]) == if v < 0 { v + 0x1_0000 } else { v }
        },
        0x8000 <= v < 0x8000_0000 || -0x8000_0000 <= v < -0x8000 ==> {
            let e = enc_int(v);
            &&& e.len() == 5
            &&& e[0] == 0xd2
            &&& u32_of(e[1], e[2], e[3], e[4]) == if v < 0 { v + 0x1_0000_0000 } else { v }
        },
        0x8000_0000 <= v || v < -0x8000_0000 ==> {
            let e = enc_int(v);
            &&& e.len() == 9
            &&& e[0] == 0xd3
            &&& u64_of(e, 1) == if v < 0 { v + 0x1_0000_0000_0000_0000 } else { v }
        },
{
    crate::format::lemma_pow256_values();
    let e = enc_int(v);
    if 0x80 <= v < 0x8000 || -0x8000 <= v < -0x80 {
        lemma_marked_number(e, 0xd1, twos(v, 2), 2);
    } else if 0x8000 <= v < 0x8000_0000 || -0x8000_0000 <= v < -0x8000 {
        lemma_marked_number(e, 0xd2, twos(v, 4), 4);
    } else if 0x8000_0000 <= v || v < -0x8000_0000 {
        lemma_marked_number(e, 0xd3, twos(v, 8), 8);
    }
}


/// Law: `read_i16` and `read_i8` read what `read_i64` reads, and refuse, after
/// reading it, an integer outside the range of `i16` or `i8`.
pub proof fn lemma_i16_i8_from_i64(b: Seq<u8>, p: int)
    ensures
        i16_at(b, p).0 == i64_at(b, p).0,
        i8_at(b, p).0 == i64_at(b, p).0,
        i64_at(b, p).1 matches Ok(v) ==> i16_at(b, p).1 == if i16::MIN <= v <= i16::MAX {
            Ok::<i16, Fault>(v as i16)
        } else {
            Err::<i16, Fault>(Fault::OutOfRange)
        },
        i64_at(b, p).1 matches Ok(v) ==> i8_at(b, p).1 == if i8::MIN <= v <= i8::MAX {
            Ok::<i8, Fault>(v as i8)
        } else {
            Err::<i8, Fault>(Fault::OutOfRange)
        },
        i64_at(b, p).1 matches Err(f) ==> i16_at(b, p).1 == Err::<i16, Fault>(f) && i8_at(b, p).1
            == Err::<i8, Fault>(f),
{
    reveal(i16_at);
    reveal(i8_at);
    reveal(int_in_at);
}

/// Law: `read_float_bits` reads `0xca` followed by the four bytes of a
/// single-precision pattern, or `0xcb` followed by the eight bytes of a
/// double-precision one, and refuses every other marker after reading it.
pub proof fn lemma_float_forms(b: Seq<u8>, p: int)
    requires
        0 <= p < b.len(),
        b.len() <= usize::MAX,
    ensures
        b[p] == 0xca && p + 5 <= b.len() ==> float_at(b, p) == (
            p + 5,
            Ok::<FloatBits, Fault>(FloatBits::Single(u32_of(b[p + 1], b[p + 2], b[p + 3], b[p + 4]) as u32)),
        ),
        b[p] == 0xcb && p + 9 <= b.len() ==> float_at(b, p) == (
            p + 9,
            Ok::<FloatBits, Fault>(FloatBits::Double(u64_of(b, p + 1) as u64)),
        ),
        b[p] != 0xca && b[p] != 0xcb ==> float_at(b, p) == (p + 1, Err::<FloatBits, Fault>(Fault::ExpectedFloat)),
{
    reveal(float_at);
    crate::format::lemma_pow256_values();
    lemma_be_values(b, p + 1);
}

/// Law: what `write_i8` and `write_i16` emit: `0xd0` and the byte of `v` in two's
/// complement, and `0xd1` and the two bytes of `v` in two's complement.
pub proof fn lemma_fixed_int_bytes(v: int)
    ensures
        i8::MIN <= v <= i8::MAX ==> enc_i8(v) == seq![0xd0u8, (if v < 0 { v + 0x100 } else { v }) as u8],
        i16::MIN <= v <= i16::MAX ==> {
            let e = enc_i16(v);
            &&& e.len() == 3
            &&& e[0] == 0xd1
            &&& u16_of(e[1], e[2]) == if v < 0 { v + 0x1_0000 } else { v }
        },
{
    crate::format::lemma_pow256_values();
    if i16::MIN <= v <= i16::MAX {
        lemma_marked_number(enc_i16(v), 0xd1, twos(v, 2), 2);
    }
}

/// Law: what `write_f32_bits` and `write_f64_bits` emit: `0xca` and the four bytes
/// of the pattern, and `0xcb` and its eight bytes, most significant first.
pub proof fn lemma_float_bytes(single: u32, double: u64)
    ensures
        enc_f32_bits(single).len() == 5,
        enc_f32_bits(single)[0] == 0xca,
        u32_of(enc_f32_bits(single)[1], enc_f32_bits(single)[2], enc_f32_bits(single)[3], enc_f32_bits(single)[4]) == single,
        enc_f64_bits(double).len() == 9,
        enc_f64_bits(double)[0] == 0xcb,
        u64_of(enc_f64_bits(double), 1) == double,
{
    crate::format::lemma_pow256_values();
    lemma_marked_number(enc_f32_bits(single), 0xca, single as nat, 4);
    lemma_marked_number(enc_f64_bits(double), 0xcb, double as nat, 8);
}

/// Law: the headers `write_str`, `write_bin` and `write_array_len` emit for a
/// length `n`, in plain bytes: a string takes `0xa0 + n` up to 31 bytes, then `0xd9`
/// and one byte, `0xda` and two, `0xdb` and four; a blob `0xc4` and one byte,
/// `0xc5` and two, `0xc6` and four; an array `0x90 + n` up to 15 items, then `0xdc`
/// and two bytes, `0xdd` and four; each time the shortest form that holds `n`.
pub proof fn lemma_header_bytes(n: nat)
    requires
        n <= u32::MAX,
    ensures
        n <= 31 ==> str_header(n) == seq![(0xa0 + n) as u8],
        32 <= n <= 0xff ==> str_header(n) == seq![0xd9u8, n as u8],
        0x100 <= n <= 0xffff ==> str_header(n).len() == 3 && str_header(n)[0] == 0xda && u16_of(
            str_header(n)[1],
            str_header(n)[2],
        ) == n,
        0x1_0000 <= n ==> str_header(n).len() == 5 && str_header(n)[0] == 0xdb && u32_of(
            str_header(n)[1],
            str_header(n)[2],
            str_header(n)[3],
            str_header(n)[4],
        ) == n,
        n <= 0xff ==> bin_header(n) == seq![0xc4u8, n as u8],
        0x100 <= n <= 0xffff ==> bin_header(n).len() == 3 && bin_header(n)[0] == 0xc5 && u16_of(
            bin_header(n)[1],
            bin_header(n)[2],
        ) == n,
        0x1_0000 <= n ==> bin_header(n).len() == 5 && bin_header(n)[0] == 0xc6 && u32_of(
            bin_header(n)[1],
            bin_header(n)[2],
            bin_header(n)[3],
            bin_header(n)[4],
        ) == n,
        n <= 15 ==> enc_array_len(n) == seq![(0x90 + n) as u8],
        16 <= n <= 0xffff ==> enc_array_len(n).len() == 3 && enc_array_len(n)[0] == 0xdc && u16_of(
            enc_array_len(n)[1],
            enc_array_len(n)[2],
        ) == n,
        0x1_0000 <= n ==> enc_array_len(n).len() == 5 && enc_array_len(n)[0] == 0xdd && u32_of(
            enc_array_len(n)[1],
            enc_array_len(n)[2],
            enc_array_len(n)[3],
            enc_array_len(n)[4],
        ) == n,
{
    crate::format::lemma_pow256_values();
    if 0x100 <= n <= 0xffff {
        lemma_marked_number(str_header(n), 0xda, n, 2);
        lemma_marked_number(bin_header(n), 0xc5, n, 2);
    }
    if 0x1_0000 <= n {
        lemma_marked_number(str_header(n), 0xdb, n, 4);
        lemma_marked_number(bin_header(n), 0xc6, n, 4);
        lemma_marked_number(enc_array_len(n), 0xdd, n, 4);
    }
    if 16 <= n <= 0xffff {
        lemma_marked_number(enc_array_len(n), 0xdc, n, 2);
    }
}


/// Law: an integer cut short is refused. With no byte left the read stays where it
/// is and reports the end of the stream; after a marker that needs `n` more bytes
/// than remain, the read stops just after the marker and reports the end of the
/// stream, or an overflow where the end of the item would lie past `usize::MAX`.
pub proof fn lemma_i64_cut_short(b: Seq<u8>, p: int)
    requires
        0 <= p,
        b.len() <= usize::MAX,
    ensures
        p >= b.len() ==> i64_at(b, p) == (p, Err::<i64, Fault>(Fault::UnexpectedEnd)),
        p < b.len() && (b[p] == 0xcc || b[p] == 0xd0) && p + 2 > b.len() ==> i64_at(b, p) == (
            p + 1,
            Err::<i64, Fault>(Fault::UnexpectedEnd),
        ),
        ({
            let n: int = if b[p] == 0xcd || b[p] == 0xd1 {
                2
            } else if b[p] == 0xce || b[p] == 0xd2 {
                4
            } else {
                8
            };
            p < b.len() && (b[p] == 0xcd || b[p] == 0xd1 || b[p] == 0xce || b[p] == 0xd2 || b[p]
                == 0xcf || b[p] == 0xd3) && p + 1 + n > b.len() ==> i64_at(b, p) == (
                p + 1,
                Err::<i64, Fault>(
                    if p + 1 + n > usize::MAX {
                        Fault::LengthOverflow
                    } else {
                        Fault::UnexpectedEnd
                    },
                ),
            )
        }),
{
    reveal(i64_at);
}

} // verus!
