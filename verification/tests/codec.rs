use socketio::packet::{Error, Opcode, Packet};
use socketio::value::Value;

fn packet(opcode: Opcode) -> Packet {
    Packet {
        namespace: None,
        opcode,
        id: None,
        attachments_num: 0,
        data: None,
        attachments: None,
    }
}

fn roundtrip(p: &Packet, wire: &[u8]) {
    let encoded = p.encode();
    assert_eq!(encoded, wire.to_vec());
    let decoded = Packet::from_bytes(&wire.to_vec()).expect("decoding packet");
    assert_eq!(&decoded, p);
}

#[test]
fn type_data() {
    roundtrip(&packet(Opcode::Connect), b"0");
}

#[test]
fn type_namespace_data() {
    let mut p = packet(Opcode::Connect);
    p.namespace = Some(b"/abc".to_vec());
    roundtrip(&p, b"0/abc");
}

#[test]
fn namespace_vec() {
    let mut p = packet(Opcode::Event);
    p.namespace = Some(b"/foo".to_vec());
    p.data = Some(Value::Arr(vec![
        Value::Str(b"foo".to_vec()),
        Value::Str(b"bar".to_vec()),
    ]));
    roundtrip(&p, b"2/foo,[\"foo\",\"bar\"]");
}

#[test]
fn id_namespace_vec() {
    let mut p = packet(Opcode::Event);
    p.namespace = Some(b"/abc".to_vec());
    p.id = Some(1);
    p.data = Some(Value::Arr(vec![
        Value::Int(1),
        Value::Int(2),
        Value::Int(3),
        Value::Int(4),
    ]));
    roundtrip(&p, b"2/abc,1[1,2,3,4]");
}

#[test]
fn attachment() {
    let mut p = packet(Opcode::BinaryEvent);
    p.attachments_num = 1;
    p.data = Some(Value::Arr(vec![Value::Int(1)]));
    roundtrip(&p, b"51-[1]");
}

#[test]
fn empty_event_payload_is_no_event() {
    assert_eq!(Packet::from_bytes(&b"2[]".to_vec()), Err(Error::NoEvent));
}

#[test]
fn empty_input_is_invalid() {
    assert_eq!(Packet::from_bytes(&Vec::new()), Err(Error::InvalidPacket));
}

#[test]
fn unknown_opcode_byte() {
    assert_eq!(
        Packet::from_bytes(&b"9[1]".to_vec()),
        Err(Error::InvalidOpcode(b'9'))
    );
}

#[test]
fn attachment_prefix_without_dash_is_invalid() {
    assert_eq!(Packet::from_bytes(&b"5x-[1]".to_vec()), Err(Error::InvalidPacket));
    assert_eq!(Packet::from_bytes(&b"51".to_vec()), Err(Error::InvalidPacket));
}

#[test]
fn event_payload_must_be_a_sequence() {
    assert_eq!(
        Packet::from_bytes(&b"2{}".to_vec()),
        Err(Error::PacketDataNotArray)
    );
    assert_eq!(
        Packet::from_bytes(&b"2".to_vec()),
        Err(Error::PacketDataNotArray)
    );
}

#[test]
fn acknowledgment_needs_an_id() {
    assert_eq!(Packet::from_bytes(&b"3[1]".to_vec()), Err(Error::AckIDMissing));
}

#[test]
fn broken_payload_text() {
    assert_eq!(Packet::from_bytes(&b"2[1,".to_vec()), Err(Error::JSONError));
    assert_eq!(Packet::from_bytes(&b"2[1,]".to_vec()), Err(Error::JSONError));
}

#[test]
fn blanks_in_the_payload_are_accepted_and_normalized() {
    let p = Packet::from_bytes(&b"2[1, 2]".to_vec()).expect("decoding packet");
    assert_eq!(
        p.data,
        Some(Value::Arr(vec![Value::Int(1), Value::Int(2)]))
    );
    assert_eq!(p.encode(), b"2[1,2]".to_vec());

    let q = Packet::from_bytes(&b"2 [ \"a\" , { \"k\" : null } ]".to_vec())
        .expect("decoding packet");
    assert_eq!(q.encode(), b"2[\"a\",{\"k\":null}]".to_vec());
}

#[test]
fn standard_escapes_are_accepted_and_normalized() {
    let p = Packet::from_bytes(&b"2[\"a\\tb\\u0041\\/c\"]".to_vec()).expect("decoding packet");
    assert_eq!(
        p.data,
        Some(Value::Arr(vec![Value::Str(b"a\tbA/c".to_vec())]))
    );
    assert_eq!(p.encode(), b"2[\"a\\tbA/c\"]".to_vec());
    // a four-digit escape above the single-byte range becomes its multi-byte form
    let q = Packet::from_bytes(&b"2[\"\\u00e9\\u4e2d\"]".to_vec()).expect("decoding packet");
    assert_eq!(
        q.data,
        Some(Value::Arr(vec![Value::Str(vec![0xc3, 0xa9, 0xe4, 0xb8, 0xad])]))
    );
}

#[test]
fn control_bytes_are_escaped_on_the_wire() {
    let mut p = packet(Opcode::Event);
    p.data = Some(Value::Arr(vec![Value::Str(vec![0x01, 0x0a, 0x1f])]));
    let encoded = p.encode();
    assert_eq!(encoded, b"2[\"\\u0001\\n\\u001f\"]".to_vec());
    let decoded = Packet::from_bytes(&encoded).expect("decoding packet");
    assert_eq!(decoded, p);
    // a raw control byte inside a string is taken liberally and normalized
    let raw = vec![0x32, 0x5b, 0x22, 0x01, 0x22, 0x5d];
    let q = Packet::from_bytes(&raw).expect("decoding packet");
    assert_eq!(q.data, Some(Value::Arr(vec![Value::Str(vec![0x01])])));
}

#[test]
fn surrogate_pairs_are_accepted_and_lone_surrogates_refused() {
    // a pair names one code point beyond the basic plane
    let p = Packet::from_bytes(&b"2[\"\\ud83d\\ude00\"]".to_vec()).expect("decoding packet");
    assert_eq!(
        p.data,
        Some(Value::Arr(vec![Value::Str(vec![0xf0, 0x9f, 0x98, 0x80])]))
    );
    // a lone high or low surrogate names nothing
    assert_eq!(
        Packet::from_bytes(&b"2[\"\\ud800\"]".to_vec()),
        Err(Error::JSONError)
    );
    assert_eq!(
        Packet::from_bytes(&b"2[\"\\udc00x\"]".to_vec()),
        Err(Error::JSONError)
    );
}

#[test]
fn acknowledgment_without_payload_roundtrips() {
    let mut p = packet(Opcode::Ack);
    p.id = Some(35);
    roundtrip(&p, b"335");
}

#[test]
fn full_tree_roundtrips() {
    let mut p = packet(Opcode::BinaryEvent);
    p.namespace = Some(b"/abc".to_vec());
    p.id = Some(7);
    p.attachments_num = 2;
    p.data = Some(Value::Arr(vec![
        Value::Str(b"e".to_vec()),
        Value::Null,
        Value::Bool(true),
        Value::Bool(false),
        Value::Int(-12),
        Value::Int(0),
        Value::Str(b"s\"x\\y".to_vec()),
        Value::Num(b"6.25e-3".to_vec()),
        Value::Arr(vec![Value::Int(1), Value::Arr(vec![])]),
        Value::Obj(vec![(b"k".to_vec(), Value::Arr(vec![Value::Bool(false)]))]),
    ]));
    let encoded = p.encode();
    let decoded = Packet::from_bytes(&encoded).expect("decoding packet");
    assert_eq!(decoded, p);
    // and the decoded packet prints back to the very same text
    assert_eq!(decoded.encode(), encoded);
}

#[test]
fn decoded_text_reencodes_exactly() {
    for wire in [
        b"0".to_vec(),
        b"0/abc".to_vec(),
        b"2/foo,[\"foo\",\"bar\"]".to_vec(),
        b"2/abc,1[1,2,3,4]".to_vec(),
        b"51-[1]".to_vec(),
        b"40".to_vec(),
        b"335".to_vec(),
        b"2[\"a\",{\"k\":null,\"m\":[true,-5]}]".to_vec(),
    ] {
        let p = Packet::from_bytes(&wire).expect("decoding packet");
        assert_eq!(p.encode(), wire);
    }
}

#[test]
fn extreme_numbers_roundtrip() {
    let mut p = packet(Opcode::Event);
    p.data = Some(Value::Arr(vec![
        Value::Str(b"n".to_vec()),
        Value::Int(i64::MAX),
        Value::Int(i64::MIN),
    ]));
    let encoded = p.encode();
    assert_eq!(
        encoded,
        b"2[\"n\",9223372036854775807,-9223372036854775808]".to_vec()
    );
    let decoded = Packet::from_bytes(&encoded).expect("decoding packet");
    assert_eq!(decoded, p);
}

#[test]
fn nonmachine_numbers_pass_through() {
    // a fraction, an exponent, or an integer beyond the machine range is
    // carried as its literal, byte for byte
    for wire in [
        b"2[1.5]".to_vec(),
        b"2[1e5]".to_vec(),
        b"2[-2.75E+10]".to_vec(),
        b"2[1.50]".to_vec(),
        b"2[-0]".to_vec(),
        b"2[18446744073709551615]".to_vec(),
        b"2[-9223372036854775809]".to_vec(),
    ] {
        let p = Packet::from_bytes(&wire).expect("decoding packet");
        assert_eq!(p.encode(), wire);
    }
    let p = Packet::from_bytes(&b"2[1.5]".to_vec()).expect("decoding packet");
    assert_eq!(p.data, Some(Value::Arr(vec![Value::Num(b"1.5".to_vec())])));
    // machine integers still come out as integers
    let q = Packet::from_bytes(&b"2[15]".to_vec()).expect("decoding packet");
    assert_eq!(q.data, Some(Value::Arr(vec![Value::Int(15)])));
    // blanks normalize around them too
    let r = Packet::from_bytes(&b"2[ 1.5 , 2e3 ]".to_vec()).expect("decoding packet");
    assert_eq!(r.encode(), b"2[1.5,2e3]".to_vec());
}

#[test]
fn broken_numbers_are_refused() {
    assert_eq!(Packet::from_bytes(&b"2[01]".to_vec()), Err(Error::JSONError));
    assert_eq!(Packet::from_bytes(&b"2[01.5]".to_vec()), Err(Error::JSONError));
    assert_eq!(Packet::from_bytes(&b"2[1.]".to_vec()), Err(Error::JSONError));
    assert_eq!(Packet::from_bytes(&b"2[1e]".to_vec()), Err(Error::JSONError));
    assert_eq!(Packet::from_bytes(&b"2[.5]".to_vec()), Err(Error::JSONError));
}

#[test]
fn non_text_bytes_are_refused() {
    // a payload that is not well-formed text
    let bad_payload = vec![0x32, 0x5b, 0x22, 0xff, 0x22, 0x5d];
    assert_eq!(Packet::from_bytes(&bad_payload), Err(Error::FromUtf8Error));
    // a lone continuation byte, and an overlong form
    let lone = vec![0x32, 0x5b, 0x22, 0x80, 0x22, 0x5d];
    assert_eq!(Packet::from_bytes(&lone), Err(Error::FromUtf8Error));
    let overlong = vec![0x32, 0x5b, 0x22, 0xc0, 0x80, 0x22, 0x5d];
    assert_eq!(Packet::from_bytes(&overlong), Err(Error::FromUtf8Error));
    // a namespace that is not well-formed text
    let mut bad_ns = b"0/".to_vec();
    bad_ns.push(0xff);
    assert_eq!(Packet::from_bytes(&bad_ns), Err(Error::FromUtf8Error));
    // well-formed multi-byte text passes through raw
    let fine = b"2[\"\xc3\xa9\"]".to_vec();
    let p = Packet::from_bytes(&fine).expect("decoding packet");
    assert_eq!(p.data, Some(Value::Arr(vec![Value::Str(vec![0xc3, 0xa9])])));
    assert_eq!(p.encode(), fine);
}
