use bytes::BytesMut;
use uip::codec::Codec;
use uip::codec::Frame;
use uip::codec::ProtocolError;

fn data_frame(channel: u16, payload: &[u8]) -> Frame {
    let mut b = BytesMut::new();
    b.extend_from_slice(payload);
    Frame::Data(channel, b)
}

fn encode_to_vec(f: Frame) -> Vec<u8> {
    let mut dst = BytesMut::new();
    Codec::encode(f, &mut dst).expect("encodable frame");
    dst[..].to_vec()
}

#[test]
fn encode_ping_and_pong() {
    assert_eq!(encode_to_vec(Frame::Ping), vec![1u8]);
    assert_eq!(encode_to_vec(Frame::Pong), vec![2u8]);
}

#[test]
fn encode_data_exact_bytes() {
    let bytes = encode_to_vec(data_frame(1, b"hello"));
    assert_eq!(bytes, vec![0x03, 0x00, 0x01, 0x00, 0x05, 0x68, 0x65, 0x6c, 0x6c, 0x6f]);
}

#[test]
fn encode_data_big_channel_and_length() {
    let payload = vec![0xabu8; 300];
    let bytes = encode_to_vec(data_frame(0x1234, &payload));
    assert_eq!(bytes[0], 3);
    assert_eq!(&bytes[1..3], &[0x12, 0x34]);
    assert_eq!(&bytes[3..5], &[0x01, 0x2c]);
    assert_eq!(&bytes[5..], &payload[..]);
}

#[test]
fn encode_rejects_oversized_payload() {
    let payload = vec![0u8; 65536];
    let mut dst = BytesMut::new();
    let r = Codec::encode(data_frame(7, &payload), &mut dst);
    assert_eq!(r, Err(ProtocolError::OversizedPayload));
    assert_eq!(dst.len(), 0);
}

#[test]
fn encode_accepts_largest_payload() {
    let payload = vec![9u8; 65535];
    let bytes = encode_to_vec(data_frame(7, &payload));
    assert_eq!(bytes.len(), 5 + 65535);
    assert_eq!(&bytes[3..5], &[0xff, 0xff]);
}

#[test]
fn decode_roundtrips_data() {
    for (channel, payload) in
        [(0u16, &b""[..]), (3, b"x"), (65535, b"hello world"), (258, b"\x00\x01\x02")]
    {
        let bytes = encode_to_vec(data_frame(channel, payload));
        let mut codec = Codec::new();
        codec.feed(&bytes);
        match codec.decode() {
            Ok(Some(Frame::Data(ch, got))) => {
                assert_eq!(ch, channel);
                assert_eq!(&got[..], payload);
            }
            other => panic!("expected a Data frame, got {:?}", other.map(|_| ())),
        }
        assert!(matches!(codec.decode(), Ok(None)));
    }
}

#[test]
fn decode_roundtrips_empty_payload() {
    let bytes = encode_to_vec(data_frame(42, b""));
    assert_eq!(bytes, vec![3, 0, 42, 0, 0]);
    let mut codec = Codec::new();
    codec.feed(&bytes);
    match codec.decode() {
        Ok(Some(Frame::Data(ch, got))) => {
            assert_eq!(ch, 42);
            assert_eq!(got.len(), 0);
        }
        _ => panic!("expected a Data frame"),
    }
}

#[test]
fn decode_waits_for_every_missing_byte() {
    let bytes = encode_to_vec(data_frame(5, b"partial"));
    for split in 0..bytes.len() {
        let mut codec = Codec::new();
        codec.feed(&bytes[..split]);
        assert!(matches!(codec.decode(), Ok(None)), "no frame before byte {}", split);
        codec.feed(&bytes[split..]);
        match codec.decode() {
            Ok(Some(Frame::Data(ch, got))) => {
                assert_eq!(ch, 5);
                assert_eq!(&got[..], b"partial");
            }
            _ => panic!("expected the frame once all bytes arrived"),
        }
        assert!(matches!(codec.decode(), Ok(None)), "exactly one frame");
    }
}

#[test]
fn decode_byte_by_byte() {
    let bytes = encode_to_vec(data_frame(9, b"abc"));
    let mut codec = Codec::new();
    let mut frames = 0;
    for b in &bytes {
        codec.feed(&[*b]);
        while let Ok(Some(_)) = codec.decode() {
            frames += 1;
        }
    }
    assert_eq!(frames, 1);
}

#[test]
fn decode_rejects_unknown_tag() {
    for tag in [0u8, 4, 9, 255] {
        let mut codec = Codec::new();
        codec.feed(&[tag, 0, 0]);
        assert!(matches!(codec.decode(), Err(ProtocolError::UnknownTag)));
    }
}

#[test]
fn decode_ping_pong_stream() {
    let mut codec = Codec::new();
    codec.feed(&[1, 2]);
    assert!(matches!(codec.decode(), Ok(Some(Frame::Ping))));
    assert!(matches!(codec.decode(), Ok(Some(Frame::Pong))));
    assert!(matches!(codec.decode(), Ok(None)));
}

#[test]
fn decode_two_frames_back_to_back() {
    let mut bytes = encode_to_vec(data_frame(1, b"one"));
    bytes.extend_from_slice(&encode_to_vec(data_frame(2, b"two")));
    let mut codec = Codec::new();
    codec.feed(&bytes);
    match codec.decode() {
        Ok(Some(Frame::Data(1, got))) => assert_eq!(&got[..], b"one"),
        _ => panic!("expected first frame"),
    }
    match codec.decode() {
        Ok(Some(Frame::Data(2, got))) => assert_eq!(&got[..], b"two"),
        _ => panic!("expected second frame"),
    }
    assert!(matches!(codec.decode(), Ok(None)));
}
