use vivo_msgpack::format::FloatBits;
use vivo_msgpack::msgpack::{
    write_array_len, write_bin, write_bool, write_f32_bits, write_f64_bits, write_i16, write_i32,
    write_i64, write_i8, write_str, MsgpackReader,
};
use vivo_msgpack::MsgpackError;

fn enc_i64(v: i64) -> Vec<u8> {
    let mut out = Vec::new();
    write_i64(&mut out, v);
    out
}

fn is_msg(e: &MsgpackError, text: &str) -> bool {
    matches!(e, MsgpackError::Msgpack(m) if *m == text)
}

#[test]
fn write_i64_picks_the_shortest_form() {
    assert_eq!(enc_i64(0), vec![0x00]);
    assert_eq!(enc_i64(127), vec![0x7f]);
    assert_eq!(enc_i64(-1), vec![0xff]);
    assert_eq!(enc_i64(-32), vec![0xe0]);
    assert_eq!(enc_i64(-33), vec![0xd0, 0xdf]);
    assert_eq!(enc_i64(-128), vec![0xd0, 0x80]);
    assert_eq!(enc_i64(128), vec![0xd1, 0x00, 0x80]);
    assert_eq!(enc_i64(-129), vec![0xd1, 0xff, 0x7f]);
    assert_eq!(enc_i64(32767), vec![0xd1, 0x7f, 0xff]);
    assert_eq!(enc_i64(-32768), vec![0xd1, 0x80, 0x00]);
    assert_eq!(enc_i64(32768), vec![0xd2, 0x00, 0x00, 0x80, 0x00]);
    assert_eq!(enc_i64(i32::MIN as i64), vec![0xd2, 0x80, 0x00, 0x00, 0x00]);
    assert_eq!(enc_i64(0x8000_0000), vec![0xd3, 0, 0, 0, 0, 0x80, 0, 0, 0]);
    assert_eq!(enc_i64(i64::MIN), vec![0xd3, 0x80, 0, 0, 0, 0, 0, 0, 0]);
    assert_eq!(enc_i64(i64::MAX), vec![0xd3, 0x7f, 0xff, 0xff, 0xff, 0xff, 0xff, 0xff, 0xff]);
}

#[test]
fn integers_read_back_and_consume_exactly_their_encoding() {
    let values = [
        0i64, 1, 127, 128, 255, 256, -1, -32, -33, -128, -129, 32767, 32768, -32768, -32769,
        i32::MAX as i64, i32::MIN as i64, i32::MAX as i64 + 1, i64::MIN, i64::MAX,
    ];
    let mut buf = Vec::new();
    for v in values {
        write_i64(&mut buf, v);
    }
    buf.push(0xc3);
    let mut reader = MsgpackReader::new(&buf);
    for v in values {
        assert_eq!(reader.read_i64().unwrap(), v);
    }
    assert!(reader.read_bool().unwrap());
    assert!(!reader.has_next());
}

#[test]
fn write_i8_and_i16_use_fixed_forms() {
    let mut out = Vec::new();
    write_i8(&mut out, 5);
    write_i8(&mut out, -100);
    write_i16(&mut out, 5);
    write_i16(&mut out, -300);
    assert_eq!(out, vec![0xd0, 0x05, 0xd0, 0x9c, 0xd1, 0x00, 0x05, 0xd1, 0xfe, 0xd4]);
    let mut reader = MsgpackReader::new(&out);
    assert_eq!(reader.read_i8().unwrap(), 5);
    assert_eq!(reader.read_i8().unwrap(), -100);
    assert_eq!(reader.read_i16().unwrap(), 5);
    assert_eq!(reader.read_i16().unwrap(), -300);
}

#[test]
fn read_i64_accepts_unsigned_forms() {
    let buf = [
        0xcc, 0xff, 0xcd, 0x12, 0x34, 0xce, 0xff, 0xff, 0xff, 0xff, 0xcf, 0x7f, 0xff, 0xff, 0xff,
        0xff, 0xff, 0xff, 0xff,
    ];
    let mut reader = MsgpackReader::new(&buf);
    assert_eq!(reader.read_i64().unwrap(), 255);
    assert_eq!(reader.read_i64().unwrap(), 0x1234);
    assert_eq!(reader.read_i64().unwrap(), 0xffff_ffff);
    assert_eq!(reader.read_i64().unwrap(), i64::MAX);
}

#[test]
fn read_i64_refuses_a_u64_above_i64_max() {
    let buf = [0xcf, 0x80, 0, 0, 0, 0, 0, 0, 0];
    let mut reader = MsgpackReader::new(&buf);
    let err = reader.read_i64().unwrap_err();
    assert!(matches!(err, MsgpackError::IntConversion(_)));
    assert_eq!(reader.position(), 9);
}

#[test]
fn read_i32_refuses_a_wider_integer_after_consuming_it() {
    let mut buf = Vec::new();
    write_i64(&mut buf, 1 << 40);
    let mut reader = MsgpackReader::new(&buf);
    assert!(matches!(reader.read_i32().unwrap_err(), MsgpackError::IntConversion(_)));
    assert_eq!(reader.position(), 9);
    let mut reader = MsgpackReader::new(&[0xcc, 0xc8]);
    assert!(matches!(reader.read_i8().unwrap_err(), MsgpackError::IntConversion(_)));
}

#[test]
fn read_i64_refuses_other_markers() {
    let mut reader = MsgpackReader::new(&[0xc0]);
    assert!(is_msg(&reader.read_i64().unwrap_err(), "expected integer"));
    assert_eq!(reader.position(), 1);
}

#[test]
fn reading_past_the_end_fails_without_moving_past_it() {
    let mut reader = MsgpackReader::new(&[]);
    assert!(is_msg(&reader.read_bool().unwrap_err(), "unexpected end of buffer"));
    assert_eq!(reader.position(), 0);
    let mut reader = MsgpackReader::new(&[0xd1, 0x01]);
    assert!(is_msg(&reader.read_i64().unwrap_err(), "unexpected end of buffer"));
    assert_eq!(reader.position(), 1);
    let mut reader = MsgpackReader::new(&[0xa3, b'a', b'b']);
    assert!(is_msg(&reader.read_str().unwrap_err(), "unexpected end of buffer"));
    assert_eq!(reader.position(), 1);
}

#[test]
fn booleans_round_trip_and_others_are_refused() {
    let mut out = Vec::new();
    write_bool(&mut out, true);
    write_bool(&mut out, false);
    assert_eq!(out, vec![0xc3, 0xc2]);
    out.push(0x01);
    let mut reader = MsgpackReader::new(&out);
    assert!(reader.read_bool().unwrap());
    assert!(!reader.read_bool().unwrap());
    assert!(is_msg(&reader.read_bool().unwrap_err(), "expected bool"));
    assert_eq!(reader.position(), 3);
}

#[test]
fn string_headers_follow_the_length() {
    for (len, header) in [
        (0usize, vec![0xa0u8]),
        (31, vec![0xbf]),
        (32, vec![0xd9, 32]),
        (255, vec![0xd9, 255]),
        (256, vec![0xda, 0x01, 0x00]),
        (65535, vec![0xda, 0xff, 0xff]),
        (65536, vec![0xdb, 0x00, 0x01, 0x00, 0x00]),
    ] {
        let text = "x".repeat(len);
        let mut out = Vec::new();
        write_str(&mut out, &text).unwrap();
        assert_eq!(&out[..header.len()], &header[..]);
        assert_eq!(out.len(), header.len() + len);
        let mut reader = MsgpackReader::new(&out);
        assert_eq!(reader.read_str().unwrap(), text);
        assert!(!reader.has_next());
    }
}

#[test]
fn strings_round_trip_with_multibyte_text() {
    let text = "héllo, 世界 🎉";
    let mut out = Vec::new();
    write_str(&mut out, text).unwrap();
    assert_eq!(out[0], 0xa0 + text.len() as u8);
    let mut reader = MsgpackReader::new(&out);
    assert_eq!(reader.read_str().unwrap(), text);
}

#[test]
fn read_str_refuses_invalid_utf8_and_other_markers() {
    let mut reader = MsgpackReader::new(&[0xa2, 0xc3, 0x28]);
    assert!(matches!(reader.read_str().unwrap_err(), MsgpackError::Utf8(_)));
    assert_eq!(reader.position(), 3);
    let mut reader = MsgpackReader::new(&[0xc4, 0x00]);
    assert!(is_msg(&reader.read_str().unwrap_err(), "expected string"));
}

#[test]
fn binary_headers_follow_the_length() {
    for (len, header) in [
        (0usize, vec![0xc4u8, 0]),
        (255, vec![0xc4, 255]),
        (256, vec![0xc5, 0x01, 0x00]),
        (70000, vec![0xc6, 0x00, 0x01, 0x11, 0x70]),
    ] {
        let blob: Vec<u8> = (0..len).map(|i| (i % 251) as u8).collect();
        let mut out = Vec::new();
        write_bin(&mut out, &blob).unwrap();
        assert_eq!(&out[..header.len()], &header[..]);
        let mut reader = MsgpackReader::new(&out);
        assert_eq!(reader.read_bin().unwrap(), blob);
        assert!(!reader.has_next());
    }
    let mut reader = MsgpackReader::new(&[0xa0]);
    assert!(is_msg(&reader.read_bin().unwrap_err(), "expected binary"));
}

#[test]
fn array_headers_round_trip() {
    for (len, header) in [
        (0usize, vec![0x90u8]),
        (15, vec![0x9f]),
        (16, vec![0xdc, 0x00, 0x10]),
        (65535, vec![0xdc, 0xff, 0xff]),
        (65536, vec![0xdd, 0x00, 0x01, 0x00, 0x00]),
    ] {
        let mut out = Vec::new();
        write_array_len(&mut out, len).unwrap();
        assert_eq!(out, header);
        let mut reader = MsgpackReader::new(&out);
        assert_eq!(reader.read_array_len().unwrap(), len);
    }
    let mut reader = MsgpackReader::new(&[0x80]);
    assert!(is_msg(&reader.read_array_len().unwrap_err(), "expected array"));
}

#[test]
fn float_bit_patterns_round_trip() {
    let mut out = Vec::new();
    write_f32_bits(&mut out, 1.5f32.to_bits());
    write_f64_bits(&mut out, (-2.25f64).to_bits());
    assert_eq!(&out[..5], &[0xca, 0x3f, 0xc0, 0x00, 0x00]);
    let mut reader = MsgpackReader::new(&out);
    assert_eq!(reader.read_float_bits().unwrap(), FloatBits::Single(1.5f32.to_bits()));
    assert_eq!(reader.read_float_bits().unwrap(), FloatBits::Double((-2.25f64).to_bits()));
    let mut reader = MsgpackReader::new(&[0x01]);
    assert!(is_msg(&reader.read_float_bits().unwrap_err(), "expected float"));
}

#[test]
fn write_i32_matches_write_i64() {
    for v in [0i32, -1, 100, -100, 1000, -40000, i32::MAX, i32::MIN] {
        let mut a = Vec::new();
        write_i32(&mut a, v);
        assert_eq!(a, enc_i64(v as i64));
    }
}

#[test]
fn peek_position_and_has_next_do_not_move() {
    let buf = [0xc3, 0x05];
    let mut reader = MsgpackReader::new(&buf);
    assert_eq!(reader.peek_marker(), Some(0xc3));
    assert_eq!(reader.position(), 0);
    assert!(reader.has_next());
    assert!(reader.read_bool().unwrap());
    assert_eq!(reader.peek_marker(), Some(0x05));
    assert_eq!(reader.read_i32().unwrap(), 5);
    assert_eq!(reader.peek_marker(), None);
    assert!(!reader.has_next());
    assert_eq!(reader.position(), 2);
}

#[test]
fn writers_append_to_what_is_there() {
    let mut out = vec![0xaa, 0xbb];
    write_str(&mut out, "hi").unwrap();
    assert_eq!(out, vec![0xaa, 0xbb, 0xa2, b'h', b'i']);
}

#[test]
fn position_never_goes_back_nor_past_the_end() {
    let buf = [0xc3, 0xd1, 0x01, 0x02, 0xa5, b'a', 0x00];
    let mut reader = MsgpackReader::new(&buf);
    let mut last = reader.position();
    for _ in 0..4 {
        let _ = reader.read_bool();
        let _ = reader.read_i64();
        let _ = reader.read_str();
        let _ = reader.read_bin();
        let p = reader.position();
        assert!(p >= last && p <= buf.len());
        last = p;
    }
    let copy = reader.clone();
    assert_eq!(copy.position(), reader.position());
}
