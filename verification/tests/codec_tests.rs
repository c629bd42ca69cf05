use pathfinder::codec::{DecodeError, Message, MessageDecoder};

fn frame(m: &Message) -> Vec<u8> {
    assert!(m.check_wf());
    m.pack()
}

#[test]
fn pack_layout_is_exact() {
    let m = Message { name: "ab".to_string(), data: vec![9, 8, 7] };
    let bytes = frame(&m);
    assert_eq!(bytes, vec![0, 2, b'a', b'b', 0, 0, 0, 3, 9, 8, 7]);
}

#[test]
fn roundtrip_name_and_payload() {
    let m = Message { name: "Pathfinding:Path".to_string(), data: vec![1, 2, 3, 4, 5] };
    let mut buf = frame(&m);
    let mut dec = MessageDecoder;
    let out = dec.decode(&mut buf).unwrap().unwrap();
    assert_eq!(out.name, "Pathfinding:Path");
    assert_eq!(out.data, vec![1, 2, 3, 4, 5]);
    assert!(buf.is_empty());
}

#[test]
fn roundtrip_large_payload_and_long_name() {
    let name: String = std::iter::repeat('n').take(65535).collect();
    let data: Vec<u8> = (0..1048576u32).map(|i| (i % 251) as u8).collect();
    let m = Message { name: name.clone(), data: data.clone() };
    let mut buf = frame(&m);
    let mut dec = MessageDecoder;
    let out = dec.decode(&mut buf).unwrap().unwrap();
    assert_eq!(out.name, name);
    assert_eq!(out.data, data);
    assert!(buf.is_empty());
}

#[test]
fn roundtrip_empty_name_and_payload() {
    let m = Message { name: String::new(), data: Vec::new() };
    let mut buf = frame(&m);
    let mut dec = MessageDecoder;
    let out = dec.decode(&mut buf).unwrap().unwrap();
    assert_eq!(out.name, "");
    assert!(out.data.is_empty());
}

#[test]
fn partial_frames_are_incomplete_not_invalid() {
    let m = Message { name: "abc".to_string(), data: vec![1, 2, 3, 4] };
    let full = frame(&m);
    let mut dec = MessageDecoder;
    for cut in 0..full.len() {
        let mut buf = full[..cut].to_vec();
        let r = dec.decode(&mut buf).unwrap();
        assert!(r.is_none(), "cut at {cut} should be incomplete");
        assert_eq!(buf.len(), cut, "an incomplete frame consumes nothing");
    }
}

#[test]
fn decode_leaves_following_bytes() {
    let m = Message { name: "x".to_string(), data: vec![42] };
    let mut buf = frame(&m);
    buf.extend_from_slice(&[0, 1, b'y']);
    let mut dec = MessageDecoder;
    let out = dec.decode(&mut buf).unwrap().unwrap();
    assert_eq!(out.name, "x");
    assert_eq!(buf, vec![0, 1, b'y']);
}

#[test]
fn invalid_utf8_name_is_rejected() {
    // name length 2, bytes 0xff 0xfe (not UTF-8), empty payload
    let mut buf = vec![0, 2, 0xff, 0xfe, 0, 0, 0, 0];
    let mut dec = MessageDecoder;
    let r = dec.decode(&mut buf);
    assert!(matches!(r, Err(DecodeError::InvalidName)));
    assert!(buf.is_empty(), "the bad frame is consumed");
}

#[test]
fn unpack_string_reads_prefixed_text() {
    let data = vec![0, 5, b'h', b'e', b'l', b'l', b'o', 99, 99];
    assert_eq!(pathfinder::codec::unpack_string(&data), Some("hello".to_string()));
}

#[test]
fn unpack_string_rejects_short_and_bad_input() {
    assert_eq!(pathfinder::codec::unpack_string(&vec![]), None);
    assert_eq!(pathfinder::codec::unpack_string(&vec![0]), None);
    assert_eq!(pathfinder::codec::unpack_string(&vec![0, 3, b'a']), None);
    assert_eq!(pathfinder::codec::unpack_string(&vec![0, 2, 0xff, 0xfe]), None);
}

#[test]
fn pack_str_appends_length_prefixed_bytes() {
    let mut buf = vec![7u8];
    pathfinder::codec::pack_str("hi", &mut buf);
    assert_eq!(buf, vec![7, 0, 2, b'h', b'i']);
}

#[test]
fn sign_bit_data_length_stays_incomplete() {
    // A frame declaring a data length with the sign bit set can never
    // be completed; the decoder must keep waiting, not consume bytes.
    let mut buf = vec![0, 1, b'a', 0x80, 0, 0, 0, 1, 2, 3];
    let before = buf.clone();
    let mut dec = MessageDecoder;
    let r = dec.decode(&mut buf).unwrap();
    assert!(r.is_none());
    assert_eq!(buf, before);
}

#[test]
fn two_frames_decode_in_turn() {
    let m1 = Message { name: "a".to_string(), data: vec![1] };
    let m2 = Message { name: "b".to_string(), data: vec![2, 2] };
    let mut buf = frame(&m1);
    buf.extend_from_slice(&frame(&m2));
    let mut dec = MessageDecoder;
    let first = dec.decode(&mut buf).unwrap().unwrap();
    assert_eq!((first.name.as_str(), first.data.as_slice()), ("a", &[1u8][..]));
    let second = dec.decode(&mut buf).unwrap().unwrap();
    assert_eq!((second.name.as_str(), second.data.as_slice()), ("b", &[2u8, 2][..]));
    assert!(buf.is_empty());
    assert!(dec.decode(&mut buf).unwrap().is_none());
}
