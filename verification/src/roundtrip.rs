//! The laws that tie the writers to the readers: what is written is read back,
//! and the read stops exactly where the written item ends, whatever follows it.

use vstd::prelude::*;
use vstd::utf8::{encode_utf8, encode_utf8_decode_utf8, encode_utf8_valid_utf8};

use crate::format::{
    array_len_at, be_bytes, be_num_at, bin_at, bin_header, bin_len_at, bool_at, byte_at, byte_num_at,
    enc_array_len, enc_bin, enc_bool, enc_i16, enc_i8, enc_int, enc_str, encode_value, encode_values,
    fits, from_twos, i16_at, i32_at, i64_at, i8_at, int_in_at, lemma_be_exact, lemma_pow256_values, pow256,
    starts_with_at, str_at, str_header, str_len_at, twos, value_at, values_at, Kind, Value,
    enc_f32_bits, enc_f64_bits, float_at, FloatBits, blobs, entries_at, bytes_at, lemma_be_roundtrip,
};

verus! {

/// Bytes that start with `e1 + e2` start with `e1`, and `e2` follows it.
pub proof fn lemma_starts_with_split(b: Seq<u8>, p: int, e1: Seq<u8>, e2: Seq<u8>)
    requires
        starts_with_at(b, p, e1 + e2),
    ensures
        starts_with_at(b, p, e1),
        starts_with_at(b, p + e1.len(), e2),
{
    let whole = b.subrange(p, p + e1.len() + e2.len());
    assert(whole == e1 + e2);
    assert(b.subrange(p, p + e1.len()) =~= whole.subrange(0, e1.len() as int));
    assert(whole.subrange(0, e1.len() as int) =~= e1);
    assert(b.subrange(p + e1.len(), p + e1.len() + e2.len()) =~= whole.subrange(
        e1.len() as int,
        (e1.len() + e2.len()) as int,
    ));
    assert(whole.subrange(e1.len() as int, (e1.len() + e2.len()) as int) =~= e2);
}

/// The first byte at a position that starts with `e` is the first byte of `e`.
proof fn lemma_first_byte(b: Seq<u8>, p: int, e: Seq<u8>)
    requires
        starts_with_at(b, p, e),
        e.len() > 0,
    ensures
        byte_at(b, p) == (p + 1, Ok::<u8, crate::error::Fault>(e[0])),
{
    assert(b.subrange(p, p + e.len())[0] == b[p]);
}

/// Reading `k` big-endian bytes of `n` gives `n`.
proof fn lemma_be_num_roundtrip(b: Seq<u8>, p: int, n: nat, k: nat)
    requires
        n < pow256(k),
        starts_with_at(b, p, be_bytes(n, k)),
        b.len() <= usize::MAX,
    ensures
        be_bytes(n, k).len() == k,
        be_num_at(b, p, k, false) == (p + k, Ok::<int, crate::error::Fault>(n as int)),
        be_num_at(b, p, k, true) == (p + k, Ok::<int, crate::error::Fault>(from_twos(n as int, k))),
{
    lemma_be_exact(n, k);
}

/// The two's-complement pattern of a number that fits `k` bytes lies below `256^k`
/// and reads back as the number.
proof fn lemma_twos(v: int, k: nat)
    requires
        k == 1 || k == 2 || k == 4 || k == 8,
        -(pow256(k) / 2) <= v < pow256(k) / 2,
    ensures
        twos(v, k) < pow256(k),
        from_twos(twos(v, k) as int, k) == v,
{
    lemma_pow256_values();
}

/// Law: an integer written by `write_i64` is read back by `read_i64`, and the read
/// ends where the encoding ends.
pub proof fn lemma_int_roundtrip(b: Seq<u8>, p: int, v: int)
    requires
        i64::MIN <= v <= i64::MAX,
        starts_with_at(b, p, enc_int(v)),
        b.len() <= usize::MAX,
    ensures
        i64_at(b, p) == (p + enc_int(v).len(), Ok::<i64, crate::error::Fault>(v as i64)),
{
    reveal(i64_at);
    lemma_pow256_values();
    let e = enc_int(v);
    lemma_first_byte(b, p, e);
    if 0 <= v <= 0x7f {
    } else if -32 <= v < 0 {
    } else if -0x80 <= v < 0x80 {
        assert(e =~= seq![0xd0u8] + seq![twos(v, 1) as u8]);
        lemma_starts_with_split(b, p, seq![0xd0u8], seq![twos(v, 1) as u8]);
        lemma_first_byte(b, p + 1, seq![twos(v, 1) as u8]);
    } else if -0x8000 <= v < 0x8000 {
        lemma_twos(v, 2);
        lemma_starts_with_split(b, p, seq![0xd1u8], be_bytes(twos(v, 2), 2));
        lemma_be_num_roundtrip(b, p + 1, twos(v, 2), 2);
    } else if -0x8000_0000 <= v < 0x8000_0000 {
        lemma_twos(v, 4);
        lemma_starts_with_split(b, p, seq![0xd2u8], be_bytes(twos(v, 4), 4));
        lemma_be_num_roundtrip(b, p + 1, twos(v, 4), 4);
    } else {
        lemma_twos(v, 8);
        lemma_starts_with_split(b, p, seq![0xd3u8], be_bytes(twos(v, 8), 8));
        lemma_be_num_roundtrip(b, p + 1, twos(v, 8), 8);
    }
}

/// Law: an integer written by `write_i32` is read back by `read_i32`.
pub proof fn lemma_i32_roundtrip(b: Seq<u8>, p: int, v: int)
    requires
        i32::MIN <= v <= i32::MAX,
        starts_with_at(b, p, enc_int(v)),
        b.len() <= usize::MAX,
    ensures
        i32_at(b, p) == (p + enc_int(v).len(), Ok::<i32, crate::error::Fault>(v as i32)),
{
    reveal(i32_at);
    reveal(int_in_at);
    lemma_int_roundtrip(b, p, v);
}

/// Law: an integer written by `write_i8` is read back by `read_i8`.
pub proof fn lemma_i8_roundtrip(b: Seq<u8>, p: int, v: int)
    requires
        i8::MIN <= v <= i8::MAX,
        starts_with_at(b, p, enc_i8(v)),
        b.len() <= usize::MAX,
    ensures
        i8_at(b, p) == (p + 2, Ok::<i8, crate::error::Fault>(v as i8)),
{
    reveal(i8_at);
    reveal(int_in_at);
    reveal(i64_at);
    lemma_pow256_values();
    lemma_first_byte(b, p, enc_i8(v));
    assert(enc_i8(v) =~= seq![0xd0u8] + seq![twos(v, 1) as u8]);
    lemma_starts_with_split(b, p, seq![0xd0u8], seq![twos(v, 1) as u8]);
    lemma_first_byte(b, p + 1, seq![twos(v, 1) as u8]);
}

/// Law: an integer written by `write_i16` is read back by `read_i16`.
pub proof fn lemma_i16_roundtrip(b: Seq<u8>, p: int, v: int)
    requires
        i16::MIN <= v <= i16::MAX,
        starts_with_at(b, p, enc_i16(v)),
        b.len() <= usize::MAX,
    ensures
        i16_at(b, p) == (p + 3, Ok::<i16, crate::error::Fault>(v as i16)),
{
    reveal(i16_at);
    reveal(int_in_at);
    reveal(i64_at);
    lemma_pow256_values();
    lemma_twos(v, 2);
    lemma_first_byte(b, p, enc_i16(v));
    lemma_starts_with_split(b, p, seq![0xd1u8], be_bytes(twos(v, 2), 2));
    lemma_be_num_roundtrip(b, p + 1, twos(v, 2), 2);
    lemma_be_exact(twos(v, 2), 2);
}

/// Law: a boolean written by `write_bool` is read back by `read_bool`.
pub proof fn lemma_bool_roundtrip(b: Seq<u8>, p: int, x: bool)
    requires
        starts_with_at(b, p, enc_bool(x)),
    ensures
        bool_at(b, p) == (p + 1, Ok::<bool, crate::error::Fault>(x)),
{
    reveal(bool_at);
    lemma_first_byte(b, p, enc_bool(x));
}

/// Reading a length header of `n` written in the one-, two- or four-byte form.
proof fn lemma_len_field(b: Seq<u8>, p: int, n: nat, h: Seq<u8>, m: u8)
    requires
        n <= u32::MAX,
        b.len() <= usize::MAX,
        h == (if n <= 0xff && m != 0xdc { seq![m, n as u8] } else if n <= 0xffff {
            seq![m] + be_bytes(n, 2)
        } else {
            seq![m] + be_bytes(n, 4)
        }),
        starts_with_at(b, p, h),
    ensures
        n <= 0xff && m != 0xdc ==> byte_num_at(b, p + 1, false) == (p + 2, Ok::<int, crate::error::Fault>(n as int)),
        !(n <= 0xff && m != 0xdc) && n <= 0xffff ==> be_num_at(b, p + 1, 2, false) == (p + 3, Ok::<int, crate::error::Fault>(n as int)),
        n > 0xffff ==> be_num_at(b, p + 1, 4, false) == (p + 5, Ok::<int, crate::error::Fault>(n as int)),
        byte_at(b, p) == (p + 1, Ok::<u8, crate::error::Fault>(m)),
        h.len() == (if n <= 0xff && m != 0xdc { 2int } else if n <= 0xffff { 3int } else { 5int }),
{
    lemma_pow256_values();
    lemma_first_byte(b, p, h);
    if n <= 0xff && m != 0xdc {
        assert(h =~= seq![m] + seq![n as u8]);
        lemma_starts_with_split(b, p, seq![m], seq![n as u8]);
        lemma_first_byte(b, p + 1, seq![n as u8]);
    } else if n <= 0xffff {
        lemma_be_exact(n, 2);
        lemma_starts_with_split(b, p, seq![m], be_bytes(n, 2));
        lemma_be_num_roundtrip(b, p + 1, n, 2);
    } else {
        lemma_be_exact(n, 4);
        lemma_starts_with_split(b, p, seq![m], be_bytes(n, 4));
        lemma_be_num_roundtrip(b, p + 1, n, 4);
    }
}

/// Law: a string written by `write_str` is read back by `read_str`.
pub proof fn lemma_str_roundtrip(b: Seq<u8>, p: int, chars: Seq<char>)
    requires
        encode_utf8(chars).len() <= u32::MAX,
        starts_with_at(b, p, enc_str(chars)),
        b.len() <= usize::MAX,
    ensures
        str_at(b, p) == (p + enc_str(chars).len(), Ok::<Seq<char>, crate::error::Fault>(chars)),
{
    reveal(str_at);
    let bytes = encode_utf8(chars);
    let n = bytes.len();
    let h = str_header(n);
    lemma_starts_with_split(b, p, h, bytes);
    encode_utf8_valid_utf8(chars);
    encode_utf8_decode_utf8(chars);
    lemma_pow256_values();
    if n <= 31 {
        lemma_first_byte(b, p, h);
    } else if n <= 0xff {
        lemma_len_field(b, p, n, h, 0xd9u8);
    } else if n <= 0xffff {
        lemma_len_field(b, p, n, h, 0xdau8);
    } else {
        lemma_len_field(b, p, n, h, 0xdbu8);
    }
    let q = p + h.len();
    assert(str_len_at(b, p) == (q, Ok::<int, crate::error::Fault>(n as int)));
    assert(b.subrange(q, q + n) == bytes);
}

/// Law: a binary blob written by `write_bin` is read back by `read_bin`.
pub proof fn lemma_bin_roundtrip(b: Seq<u8>, p: int, bytes: Seq<u8>)
    requires
        bytes.len() <= u32::MAX,
        starts_with_at(b, p, enc_bin(bytes)),
        b.len() <= usize::MAX,
    ensures
        bin_at(b, p) == (p + enc_bin(bytes).len(), Ok::<Seq<u8>, crate::error::Fault>(bytes)),
{
    reveal(bin_at);
    let n = bytes.len();
    let h = bin_header(n);
    lemma_starts_with_split(b, p, h, bytes);
    if n <= 0xff {
        lemma_len_field(b, p, n, h, 0xc4u8);
    } else if n <= 0xffff {
        lemma_len_field(b, p, n, h, 0xc5u8);
    } else {
        lemma_len_field(b, p, n, h, 0xc6u8);
    }
    let q = p + h.len();
    assert(bin_len_at(b, p) == (q, Ok::<int, crate::error::Fault>(n as int)));
}

/// Law: an array header written by `write_array_len` is read back by `read_array_len`.
pub proof fn lemma_array_len_roundtrip(b: Seq<u8>, p: int, n: nat)
    requires
        n <= u32::MAX,
        starts_with_at(b, p, enc_array_len(n)),
        b.len() <= usize::MAX,
    ensures
        array_len_at(b, p) == (p + enc_array_len(n).len(), Ok::<usize, crate::error::Fault>(n as usize)),
{
    reveal(array_len_at);
    let h = enc_array_len(n);
    lemma_pow256_values();
    if n <= 15 {
        lemma_first_byte(b, p, h);
    } else if n <= 0xffff {
        lemma_len_field(b, p, n, h, 0xdcu8);
    } else {
        lemma_len_field(b, p, n, h, 0xddu8);
    }
}

/// Law: a value that fits its kind, written as the writers write it, is read back by
/// the reader of that kind.
pub proof fn lemma_value_roundtrip(b: Seq<u8>, p: int, v: Value, k: Kind)
    requires
        fits(v, k),
        starts_with_at(b, p, encode_value(v)),
        b.len() <= usize::MAX,
    ensures
        value_at(b, p, k) == (p + encode_value(v).len(), Ok::<Value, crate::error::Fault>(v)),
{
    reveal(i32_at);
    reveal(i16_at);
    reveal(i8_at);
    reveal(int_in_at);
    match v {
        Value::Bool(x) => lemma_bool_roundtrip(b, p, x),
        Value::Int(x) => {
            lemma_int_roundtrip(b, p, x);
        },
        Value::Str(x) => lemma_str_roundtrip(b, p, x),
        Value::Bin(x) => lemma_bin_roundtrip(b, p, x),
    }
}

/// Law: values that fit their kinds, written one after the other, are read back in
/// order by the readers of those kinds; the reading ends just after the last of
/// them, whatever bytes follow.
pub proof fn lemma_values_roundtrip(b: Seq<u8>, p: int, vs: Seq<Value>, ks: Seq<Kind>)
    requires
        vs.len() == ks.len(),
        forall|i: int| 0 <= i < vs.len() ==> fits(#[trigger] vs[i], ks[i]),
        starts_with_at(b, p, encode_values(vs)),
        b.len() <= usize::MAX,
    ensures
        values_at(b, p, ks) == (p + encode_values(vs).len(), Ok::<Seq<Value>, crate::error::Fault>(vs)),
    decreases vs.len(),
{
    if vs.len() > 0 {
        let init = vs.drop_last();
        let e = encode_values(init);
        lemma_starts_with_split(b, p, e, encode_value(vs.last()));
        assert forall|i: int| 0 <= i < init.len() implies fits(#[trigger] init[i], ks.drop_last()[i]) by {
            assert(fits(vs[i], ks[i]));
        }
        lemma_values_roundtrip(b, p, init, ks.drop_last());
        assert(fits(vs[vs.len() - 1], ks[ks.len() - 1]));
        lemma_value_roundtrip(b, p + e.len(), vs.last(), ks.last());
        assert(init.push(vs.last()) =~= vs);
    } else {
        assert(vs =~= Seq::<Value>::empty());
    }
}

/// Law: a floating-point number written by `write_f32_bits` is read back by
/// `read_float_bits` with the same bit pattern.
pub proof fn lemma_f32_bits_roundtrip(b: Seq<u8>, p: int, bits: u32)
    requires
        starts_with_at(b, p, enc_f32_bits(bits)),
        b.len() <= usize::MAX,
    ensures
        float_at(b, p) == (p + 5, Ok::<FloatBits, crate::error::Fault>(FloatBits::Single(bits))),
{
    reveal(float_at);
    lemma_pow256_values();
    lemma_first_byte(b, p, enc_f32_bits(bits));
    lemma_starts_with_split(b, p, seq![0xcau8], be_bytes(bits as nat, 4));
    lemma_be_num_roundtrip(b, p + 1, bits as nat, 4);
}

/// Law: a floating-point number written by `write_f64_bits` is read back by
/// `read_float_bits` with the same bit pattern.
pub proof fn lemma_f64_bits_roundtrip(b: Seq<u8>, p: int, bits: u64)
    requires
        starts_with_at(b, p, enc_f64_bits(bits)),
        b.len() <= usize::MAX,
    ensures
        float_at(b, p) == (p + 9, Ok::<FloatBits, crate::error::Fault>(FloatBits::Double(bits))),
{
    reveal(float_at);
    lemma_pow256_values();
    lemma_first_byte(b, p, enc_f64_bits(bits));
    lemma_starts_with_split(b, p, seq![0xcbu8], be_bytes(bits as nat, 8));
    lemma_be_num_roundtrip(b, p + 1, bits as nat, 8);
}

/// Law: a read never moves the reader backwards nor past the end of its bytes,
/// whether it succeeds or fails.
pub proof fn lemma_reads_stay_in_bounds(b: Seq<u8>, p: int)
    requires
        0 <= p <= b.len(),
    ensures
        p <= bool_at(b, p).0 <= b.len(),
        p <= i64_at(b, p).0 <= b.len(),
        p <= i32_at(b, p).0 <= b.len(),
        p <= i16_at(b, p).0 <= b.len(),
        p <= i8_at(b, p).0 <= b.len(),
        p <= str_at(b, p).0 <= b.len(),
        p <= bin_at(b, p).0 <= b.len(),
        p <= array_len_at(b, p).0 <= b.len(),
        p <= float_at(b, p).0 <= b.len(),
{
    reveal(bool_at);
    reveal(i64_at);
    reveal(int_in_at);
    reveal(i32_at);
    reveal(i16_at);
    reveal(i8_at);
    reveal(str_at);
    reveal(bin_at);
    reveal(array_len_at);
    reveal(float_at);
}

/// Law: entries written each as a binary blob of its encoded values (the lists of
/// `WatchBidVersionRequest::payload`) are read back by the list reader of
/// `WatchBidVersionResponse::decode`, and the reading ends where the last blob ends.
pub proof fn lemma_entries_roundtrip(b: Seq<u8>, p: int, es: Seq<Seq<Value>>, ks: Seq<Kind>)
    requires
        forall|i: int|
            #![trigger es[i]]
            0 <= i < es.len() ==> es[i].len() == ks.len() && encode_values(es[i]).len() <= u32::MAX
                && forall|j: int| 0 <= j < ks.len() ==> fits(#[trigger] es[i][j], ks[j]),
        starts_with_at(b, p, blobs(es)),
        b.len() <= usize::MAX,
    ensures
        entries_at(b, p, es.len(), ks) == (p + blobs(es).len(), Ok::<Seq<Seq<Value>>, crate::error::Fault>(es)),
    decreases es.len(),
{
    if es.len() > 0 {
        let init = es.drop_last();
        let last = es.last();
        let head = blobs(init);
        let nested = encode_values(last);
        lemma_starts_with_split(b, p, head, enc_bin(nested));
        assert forall|i: int|
            #![trigger init[i]]
            0 <= i < init.len() implies init[i].len() == ks.len() && encode_values(init[i]).len()
                <= u32::MAX && forall|j: int| 0 <= j < ks.len() ==> fits(#[trigger] init[i][j], ks[j]) by {
            assert(init[i] == es[i]);
        }
        lemma_entries_roundtrip(b, p, init, ks);
        assert(last == es[es.len() - 1]);
        lemma_bin_roundtrip(b, p + head.len(), nested);
        assert(nested.subrange(0, nested.len() as int) =~= nested);
        lemma_values_roundtrip(nested, 0, last, ks);
        assert(init.push(last) =~= es);
    } else {
        assert(es =~= Seq::<Seq<Value>>::empty());
    }
}

// ------------------------------------------------------------------
// Truncated encodings
// ------------------------------------------------------------------

/// The bytes of `b` from position `p` on are a strict prefix of `e`: `b` ends
/// before `e` does.
pub open spec fn truncated_at(b: Seq<u8>, p: int, e: Seq<u8>) -> bool {
    &&& 0 <= p <= b.len() < p + e.len()
    &&& b.subrange(p, b.len() as int) == e.subrange(0, b.len() - p)
}

/// Bytes that hold a strict prefix of `e1 + e2` hold a strict prefix of `e1`, or
/// all of `e1` and then a strict prefix of `e2`.
proof fn lemma_truncated_split(b: Seq<u8>, p: int, e1: Seq<u8>, e2: Seq<u8>)
    requires
        truncated_at(b, p, e1 + e2),
    ensures
        b.len() < p + e1.len() ==> truncated_at(b, p, e1),
        b.len() >= p + e1.len() ==> starts_with_at(b, p, e1) && truncated_at(b, p + e1.len(), e2),
{
    let m = b.len() - p;
    let tail = b.subrange(p, b.len() as int);
    assert(tail == (e1 + e2).subrange(0, m));
    if m < e1.len() {
        assert((e1 + e2).subrange(0, m) =~= e1.subrange(0, m));
    } else {
        assert(b.subrange(p, p + e1.len()) =~= tail.subrange(0, e1.len() as int));
        assert((e1 + e2).subrange(0, m).subrange(0, e1.len() as int) =~= e1);
        assert(b.subrange(p + e1.len(), b.len() as int) =~= tail.subrange(e1.len() as int, m));
        assert((e1 + e2).subrange(0, m).subrange(e1.len() as int, m) =~= e2.subrange(
            0,
            m - e1.len(),
        ));
    }
}

/// Reading all of `e` where only a strict prefix of it stands fails.
proof fn lemma_truncated_bytes(b: Seq<u8>, p: int, e: Seq<u8>)
    requires
        truncated_at(b, p, e),
    ensures
        bytes_at(b, p, e.len()).1 is Err,
        be_num_at(b, p, e.len(), false).1 is Err,
        be_num_at(b, p, e.len(), true).1 is Err,
        e.len() == 1 ==> byte_num_at(b, p, false).1 is Err,
        e.len() == 1 ==> byte_num_at(b, p, true).1 is Err,
{
}

/// Where a strict prefix of `seq![m] + rest` stands, the marker is read, or the
/// bytes end at once.
proof fn lemma_truncated_marker(b: Seq<u8>, p: int, m: u8, rest: Seq<u8>)
    requires
        truncated_at(b, p, seq![m] + rest),
    ensures
        b.len() == p ==> byte_at(b, p).1 is Err,
        b.len() > p ==> byte_at(b, p) == (p + 1, Ok::<u8, crate::error::Fault>(m)) && truncated_at(
            b,
            p + 1,
            rest,
        ),
{
    lemma_truncated_split(b, p, seq![m], rest);
    if b.len() > p {
        lemma_first_byte(b, p, seq![m]);
    }
}

/// Law: reading an integer where only a strict prefix of its encoding stands fails.
pub proof fn lemma_int_truncated(b: Seq<u8>, p: int, v: int)
    requires
        i64::MIN <= v <= i64::MAX,
        truncated_at(b, p, enc_int(v)),
    ensures
        i64_at(b, p).1 is Err,
{
    reveal(i64_at);
    lemma_pow256_values();
    let e = enc_int(v);
    if 0 <= v <= 0x7f || -32 <= v < 0 {
    } else if -0x80 <= v < 0x80 {
        assert(e =~= seq![0xd0u8] + seq![twos(v, 1) as u8]);
        lemma_truncated_marker(b, p, 0xd0u8, seq![twos(v, 1) as u8]);
        if b.len() > p {
            lemma_truncated_bytes(b, p + 1, seq![twos(v, 1) as u8]);
        }
    } else {
        let (m, k): (u8, nat) = if -0x8000 <= v < 0x8000 {
            (0xd1u8, 2)
        } else if -0x8000_0000 <= v < 0x8000_0000 {
            (0xd2u8, 4)
        } else {
            (0xd3u8, 8)
        };
        lemma_be_len(twos(v, k), k);
        lemma_truncated_marker(b, p, m, be_bytes(twos(v, k), k));
        if b.len() > p {
            lemma_truncated_bytes(b, p + 1, be_bytes(twos(v, k), k));
        }
    }
}

/// There are `k` bytes in the big-endian form of any number.
proof fn lemma_be_len(n: nat, k: nat)
    ensures
        be_bytes(n, k).len() == k,
{
    lemma_be_roundtrip(n, k);
}

/// A strict prefix of a length header `h` of `n` fails to read as one.
proof fn lemma_truncated_len_field(b: Seq<u8>, p: int, n: nat, h: Seq<u8>, m: u8)
    requires
        n <= u32::MAX,
        h == (if n <= 0xff && m != 0xdc { seq![m, n as u8] } else if n <= 0xffff {
            seq![m] + be_bytes(n, 2)
        } else {
            seq![m] + be_bytes(n, 4)
        }),
        truncated_at(b, p, h),
    ensures
        b.len() == p ==> byte_at(b, p).1 is Err,
        b.len() > p ==> byte_at(b, p) == (p + 1, Ok::<u8, crate::error::Fault>(m)),
        b.len() > p && n <= 0xff && m != 0xdc ==> byte_num_at(b, p + 1, false).1 is Err,
        b.len() > p && !(n <= 0xff && m != 0xdc) && n <= 0xffff ==> be_num_at(b, p + 1, 2, false).1 is Err,
        b.len() > p && n > 0xffff ==> be_num_at(b, p + 1, 4, false).1 is Err,
{
    lemma_be_len(n, 2);
    lemma_be_len(n, 4);
    if n <= 0xff && m != 0xdc {
        assert(h =~= seq![m] + seq![n as u8]);
        lemma_truncated_marker(b, p, m, seq![n as u8]);
        if b.len() > p {
            lemma_truncated_bytes(b, p + 1, seq![n as u8]);
        }
    } else if n <= 0xffff {
        lemma_truncated_marker(b, p, m, be_bytes(n, 2));
        if b.len() > p {
            lemma_truncated_bytes(b, p + 1, be_bytes(n, 2));
        }
    } else {
        lemma_truncated_marker(b, p, m, be_bytes(n, 4));
        if b.len() > p {
            lemma_truncated_bytes(b, p + 1, be_bytes(n, 4));
        }
    }
}

/// Law: reading a string where only a strict prefix of its encoding stands fails.
pub proof fn lemma_str_truncated(b: Seq<u8>, p: int, chars: Seq<char>)
    requires
        encode_utf8(chars).len() <= u32::MAX,
        truncated_at(b, p, enc_str(chars)),
        b.len() <= usize::MAX,
    ensures
        str_at(b, p).1 is Err,
{
    reveal(str_at);
    lemma_pow256_values();
    let bytes = encode_utf8(chars);
    let n = bytes.len();
    let h = str_header(n);
    lemma_truncated_split(b, p, h, bytes);
    if b.len() < p + h.len() {
        if n <= 31 {
        } else if n <= 0xff {
            lemma_truncated_len_field(b, p, n, h, 0xd9u8);
        } else if n <= 0xffff {
            lemma_truncated_len_field(b, p, n, h, 0xdau8);
        } else {
            lemma_truncated_len_field(b, p, n, h, 0xdbu8);
        }
        assert(str_len_at(b, p).1 is Err);
    } else {
        if n <= 31 {
            lemma_first_byte(b, p, h);
        } else if n <= 0xff {
            lemma_len_field(b, p, n, h, 0xd9u8);
        } else if n <= 0xffff {
            lemma_len_field(b, p, n, h, 0xdau8);
        } else {
            lemma_len_field(b, p, n, h, 0xdbu8);
        }
        assert(str_len_at(b, p) == (p + h.len(), Ok::<int, crate::error::Fault>(n as int)));
        lemma_truncated_bytes(b, p + h.len(), bytes);
    }
}

/// Law: reading a binary blob where only a strict prefix of its encoding stands
/// fails.
pub proof fn lemma_bin_truncated(b: Seq<u8>, p: int, bytes: Seq<u8>)
    requires
        bytes.len() <= u32::MAX,
        truncated_at(b, p, enc_bin(bytes)),
        b.len() <= usize::MAX,
    ensures
        bin_at(b, p).1 is Err,
{
    reveal(bin_at);
    let n = bytes.len();
    let h = bin_header(n);
    lemma_truncated_split(b, p, h, bytes);
    if b.len() < p + h.len() {
        if n <= 0xff {
            lemma_truncated_len_field(b, p, n, h, 0xc4u8);
        } else if n <= 0xffff {
            lemma_truncated_len_field(b, p, n, h, 0xc5u8);
        } else {
            lemma_truncated_len_field(b, p, n, h, 0xc6u8);
        }
        assert(bin_len_at(b, p).1 is Err);
    } else {
        if n <= 0xff {
            lemma_len_field(b, p, n, h, 0xc4u8);
        } else if n <= 0xffff {
            lemma_len_field(b, p, n, h, 0xc5u8);
        } else {
            lemma_len_field(b, p, n, h, 0xc6u8);
        }
        assert(bin_len_at(b, p) == (p + h.len(), Ok::<int, crate::error::Fault>(n as int)));
        lemma_truncated_bytes(b, p + h.len(), bytes);
    }
}

/// Law: reading a value where only a strict prefix of its encoding stands fails.
pub proof fn lemma_value_truncated(b: Seq<u8>, p: int, v: Value, k: Kind)
    requires
        fits(v, k),
        truncated_at(b, p, encode_value(v)),
        b.len() <= usize::MAX,
    ensures
        value_at(b, p, k).1 is Err,
{
    reveal(i32_at);
    reveal(i16_at);
    reveal(i8_at);
    reveal(int_in_at);
    reveal(bool_at);
    match v {
        Value::Bool(x) => {},
        Value::Int(x) => lemma_int_truncated(b, p, x),
        Value::Str(x) => lemma_str_truncated(b, p, x),
        Value::Bin(x) => lemma_bin_truncated(b, p, x),
    }
}

/// Law: reading values that fit their kinds fails where only a strict prefix of
/// their encoding stands: a message cut short is refused, whichever item it is cut in.
pub proof fn lemma_values_truncated(b: Seq<u8>, vs: Seq<Value>, ks: Seq<Kind>)
    requires
        vs.len() == ks.len(),
        forall|i: int| 0 <= i < vs.len() ==> fits(#[trigger] vs[i], ks[i]),
        b.len() < encode_values(vs).len() <= usize::MAX,
        b == encode_values(vs).subrange(0, b.len() as int),
    ensures
        values_at(b, 0, ks).1 is Err,
    decreases vs.len(),
{
    if vs.len() == 0 {
        assert(encode_values(vs).len() == 0);
    } else {
        let init = vs.drop_last();
        let e0 = encode_values(init);
        let e1 = encode_value(vs.last());
        assert(encode_values(vs) == e0 + e1);
        assert forall|i: int| 0 <= i < init.len() implies fits(#[trigger] init[i], ks.drop_last()[i]) by {
            assert(fits(vs[i], ks[i]));
        }
        assert(fits(vs[vs.len() - 1], ks[ks.len() - 1]));
        if b.len() < e0.len() {
            assert(b =~= e0.subrange(0, b.len() as int));
            lemma_values_truncated(b, init, ks.drop_last());
        } else {
            assert(b.subrange(0, e0.len() as int) =~= e0);
            lemma_values_roundtrip(b, 0, init, ks.drop_last());
            assert(b.subrange(e0.len() as int, b.len() as int) =~= e1.subrange(0, b.len() - e0.len()));
            lemma_value_truncated(b, e0.len() as int, vs.last(), ks.last());
        }
    }
}

// ------------------------------------------------------------------
// Sequences of reads
// ------------------------------------------------------------------

/// One call of a reader of `MsgpackReader`.
pub enum ReadOp {
    /// `read_bool`, `read_i8`, `read_i16`, `read_i32`, `read_i64`, `read_str` or
    /// `read_bin`, by the kind read.
    Value(Kind),
    /// `read_array_len`.
    ArrayLen,
    /// `read_float_bits`.
    Float,
}

/// The position after one read at `p`, whether it succeeds or fails.
pub open spec fn read_end(b: Seq<u8>, p: int, op: ReadOp) -> int {
    match op {
        ReadOp::Value(k) => value_at(b, p, k).0,
        ReadOp::ArrayLen => array_len_at(b, p).0,
        ReadOp::Float => float_at(b, p).0,
    }
}

/// The position after the reads `ops`, made one after the other from `p`, each of
/// them succeeding or failing.
pub open spec fn reads_end(b: Seq<u8>, p: int, ops: Seq<ReadOp>) -> int
    decreases ops.len(),
{
    if ops.len() == 0 {
        p
    } else {
        read_end(b, reads_end(b, p, ops.drop_last()), ops.last())
    }
}

/// Law: over any sequence of reads, each succeeding or failing, the position never
/// goes back and never passes the end of the bytes; one more read never moves it
/// back. (A read that succeeds on what a writer wrote advances it by exactly the
/// length of that encoding: `lemma_value_roundtrip`, `lemma_array_len_roundtrip`,
/// `lemma_f32_bits_roundtrip`, `lemma_f64_bits_roundtrip`.)
pub proof fn lemma_reads_in_bounds(b: Seq<u8>, p: int, ops: Seq<ReadOp>, op: ReadOp)
    requires
        0 <= p <= b.len(),
    ensures
        p <= reads_end(b, p, ops) <= b.len(),
        reads_end(b, p, ops) <= reads_end(b, p, ops.push(op)) <= b.len(),
    decreases ops.len(),
{
    if ops.len() > 0 {
        lemma_reads_in_bounds(b, p, ops.drop_last(), ops.last());
        assert(ops.drop_last().push(ops.last()) =~= ops);
    }
    let q = reads_end(b, p, ops);
    lemma_reads_stay_in_bounds(b, q);
    reveal(i32_at);
    reveal(i16_at);
    reveal(i8_at);
    assert(ops.push(op).drop_last() =~= ops);
}

} // verus!
