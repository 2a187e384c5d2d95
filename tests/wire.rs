use chattest::{
    bytes_to_uint, decode, encode, padding_after, uint_to_bytes, Code, DecodeError, EncodeError,
    MAX_FRAME_LEN,
};

fn s(x: &str) -> String {
    x.to_string()
}

fn all_kinds() -> Vec<Code> {
    vec![
        Code::Name(s("alice")),
        Code::AlreadyHere,
        Code::MessageTo(s("hello there")),
        Code::MessageFrom(s("bob"), s("hi all")),
        Code::Welcome(s("lobby"), s("admin")),
        Code::Name(s("")),
        Code::MessageTo(s("")),
        Code::MessageFrom(s(""), s("")),
        Code::Welcome(s("r"), s("")),
        Code::MessageTo(s("caf\u{e9} \u{ff}")),
    ]
}

#[test]
fn uint_bytes_are_big_endian() {
    assert_eq!(uint_to_bytes(0x0102_0304), [1, 2, 3, 4]);
    assert_eq!(uint_to_bytes(0), [0, 0, 0, 0]);
    assert_eq!(uint_to_bytes(u32::MAX), [255, 255, 255, 255]);
    assert_eq!(bytes_to_uint([1, 2, 3, 4]), 0x0102_0304);
    assert_eq!(bytes_to_uint([0, 0, 1, 0]), 256);
    for v in [0u32, 1, 255, 256, 65535, 65536, 16_777_216, 0xdead_beef, u32::MAX] {
        assert_eq!(bytes_to_uint(uint_to_bytes(v)), v);
    }
}

#[test]
fn encode_name_layout() {
    assert_eq!(encode(&Code::Name(s("ab"))).unwrap(), vec![1, 0, 0, 0, 2, b'a', b'b']);
}

#[test]
fn encode_already_here_writes_zero_length() {
    assert_eq!(encode(&Code::AlreadyHere).unwrap(), vec![2, 0, 0, 0, 0]);
    assert_eq!(padding_after(&Code::AlreadyHere), 4);
    assert_eq!(padding_after(&Code::Name(s("x"))), 0);
}

#[test]
fn encode_message_to_layout() {
    assert_eq!(encode(&Code::MessageTo(s("hi"))).unwrap(), vec![3, 0, 0, 0, 2, b'h', b'i']);
}

#[test]
fn encode_message_from_layout() {
    let bytes = encode(&Code::MessageFrom(s("A"), s("hi"))).unwrap();
    assert_eq!(bytes, vec![4, 0, 0, 0, 7, 0, 0, 0, 1, b'A', b'h', b'i']);
}

#[test]
fn encode_welcome_layout() {
    let bytes = encode(&Code::Welcome(s("rm"), s("x"))).unwrap();
    assert_eq!(bytes, vec![5, 0, 0, 0, 7, 0, 0, 0, 2, b'r', b'm', b'x']);
}

#[test]
fn encode_high_latin1_as_single_bytes() {
    let bytes = encode(&Code::MessageTo(s("\u{e9}\u{ff}"))).unwrap();
    assert_eq!(bytes, vec![3, 0, 0, 0, 2, 0xe9, 0xff]);
}

#[test]
fn encode_refuses_wide_characters() {
    assert_eq!(encode(&Code::MessageTo(s("\u{20ac}"))), Err(EncodeError::NotByteText));
    assert_eq!(
        encode(&Code::MessageFrom(s("ok"), s("snow \u{2603}"))),
        Err(EncodeError::NotByteText)
    );
}

#[test]
fn encode_refuses_oversized_payload() {
    let big = "x".repeat(MAX_FRAME_LEN as usize + 1);
    assert_eq!(encode(&Code::MessageTo(big.clone())), Err(EncodeError::TooLong));
    let fits = "x".repeat(MAX_FRAME_LEN as usize);
    assert!(encode(&Code::MessageTo(fits)).is_ok());
    let pair = "y".repeat(MAX_FRAME_LEN as usize - 4);
    assert!(encode(&Code::MessageFrom(pair.clone(), s(""))).is_ok());
    assert_eq!(encode(&Code::MessageFrom(pair, s("z"))), Err(EncodeError::TooLong));
}

#[test]
fn decode_encode_round_trip() {
    for m in all_kinds() {
        let bytes = encode(&m).unwrap();
        let (back, used) = decode(&bytes).unwrap().unwrap();
        assert_eq!(back, m);
        if m == Code::AlreadyHere {
            assert_eq!(used, 1);
        } else {
            assert_eq!(used, bytes.len());
        }
    }
}

#[test]
fn message_from_length_and_fields() {
    let bytes = encode(&Code::MessageFrom(s("carol"), s("good morning"))).unwrap();
    assert_eq!(bytes_to_uint([bytes[1], bytes[2], bytes[3], bytes[4]]), 4 + 5 + 12);
    assert_eq!(bytes.len(), 9 + 5 + 12);
    assert_eq!(
        decode(&bytes).unwrap().unwrap().0,
        Code::MessageFrom(s("carol"), s("good morning"))
    );
}

#[test]
fn decode_incomplete_prefixes() {
    let bytes = encode(&Code::MessageFrom(s("A"), s("hi"))).unwrap();
    for k in 0..bytes.len() {
        assert_eq!(decode(&bytes[..k]), Ok(None));
    }
}

#[test]
fn decode_ignores_bytes_after_the_frame() {
    let mut bytes = encode(&Code::Name(s("zed"))).unwrap();
    bytes.extend_from_slice(&[9, 9, 9]);
    assert_eq!(decode(&bytes), Ok(Some((Code::Name(s("zed")), 8))));
}

#[test]
fn decode_rejects_short_total_length() {
    for code in [4u8, 5] {
        for len in 0u8..4 {
            assert_eq!(decode(&[code, 0, 0, 0, len]), Err(DecodeError::Framing));
        }
    }
}

#[test]
fn decode_rejects_name_length_at_or_over_total() {
    // total length 6, name length 6
    let bytes = [4u8, 0, 0, 0, 6, 0, 0, 0, 6, b'a', b'b'];
    assert_eq!(decode(&bytes), Err(DecodeError::Framing));
    // total length 6, name length 9
    let bytes = [5u8, 0, 0, 0, 6, 0, 0, 0, 9, b'a', b'b'];
    assert_eq!(decode(&bytes), Err(DecodeError::Framing));
    // total length 6, name length 3: the text would need -1 bytes
    let bytes = [4u8, 0, 0, 0, 6, 0, 0, 0, 3, b'a', b'b'];
    assert_eq!(decode(&bytes), Err(DecodeError::Framing));
    // total length 6, name length 2: fine
    let bytes = [4u8, 0, 0, 0, 6, 0, 0, 0, 2, b'a', b'b'];
    assert_eq!(decode(&bytes), Ok(Some((Code::MessageFrom(s("ab"), s("")), 11))));
}

#[test]
fn decode_rejects_oversized_length() {
    let l = uint_to_bytes(MAX_FRAME_LEN + 1);
    assert_eq!(decode(&[1, l[0], l[1], l[2], l[3]]), Err(DecodeError::Framing));
}

#[test]
fn decode_rejects_unknown_code() {
    assert_eq!(decode(&[0]), Err(DecodeError::UnsupportedCode(0)));
    assert_eq!(decode(&[6, 0, 0, 0, 0]), Err(DecodeError::UnsupportedCode(6)));
    assert_eq!(decode(&[200]), Err(DecodeError::UnsupportedCode(200)));
}

#[test]
fn decode_high_bytes_become_latin1_characters() {
    let bytes = [3u8, 0, 0, 0, 2, 0xe9, 0x41];
    assert_eq!(decode(&bytes), Ok(Some((Code::MessageTo(s("\u{e9}A")), 7))));
}

#[test]
fn decode_rejects_name_length_from_header_alone() {
    assert_eq!(decode(&[4, 0, 0, 0, 5, 0, 0, 0, 5]), Err(DecodeError::Framing));
    assert_eq!(decode(&[4, 0, 0, 0, 8, 0, 0, 0, 9]), Err(DecodeError::Framing));
    assert_eq!(decode(&[5, 0, 0, 0, 10, 0, 0, 0, 7]), Err(DecodeError::Framing));
    assert_eq!(decode(&[4, 0, 0, 0, 10, 0, 0, 0, 6]), Ok(None));
    assert_eq!(decode(&[4, 0, 0, 0, 5, 0, 0, 0]), Ok(None));
}
