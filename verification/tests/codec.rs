use veloren_core::codec::{
    decode_datagram, decode_frames, decode_stream, encode_datagram, encode_frame, StreamDecode,
};
use veloren_core::frame::Frame;

fn handshake() -> Frame {
    Frame::Handshake {
        magic_number: [b'V', b'E', b'L', b'O', b'R', b'E', b'N'],
        version: [0, 3, 1],
    }
}

#[test]
fn handshake_stream_round_trip() {
    let expected: Vec<u8> = vec![
        0x01, 0x56, 0x45, 0x4C, 0x4F, 0x52, 0x45, 0x4E, 0x00, 0x00, 0x00, 0x00, 0x03, 0x00, 0x00,
        0x00, 0x01, 0x00, 0x00, 0x00,
    ];
    let encoded = encode_frame(&handshake());
    assert_eq!(encoded, expected);
    match decode_stream(&encoded, 0) {
        StreamDecode::Decoded { frame, next } => {
            assert_eq!(frame, handshake());
            assert_eq!(next, 20);
        }
        _ => panic!("expected a decoded frame"),
    }
}

#[test]
fn open_stream_round_trip() {
    let frame = Frame::OpenStream {
        sid: 0x0102030405060708,
        prio: 5,
        promises: 0x0F,
    };
    let expected: Vec<u8> = vec![
        0x04, 0x08, 0x07, 0x06, 0x05, 0x04, 0x03, 0x02, 0x01, 0x05, 0x0F,
    ];
    let encoded = encode_frame(&frame);
    assert_eq!(encoded, expected);
    match decode_stream(&encoded, 0) {
        StreamDecode::Decoded { frame: decoded, next } => {
            assert_eq!(decoded, frame);
            assert_eq!(next, 11);
        }
        _ => panic!("expected a decoded frame"),
    }
}

#[test]
fn every_variant_round_trips_on_stream() {
    let frames = vec![
        handshake(),
        Frame::ParticipantId {
            pid: 0x0102030405060708090A0B0C0D0E0F10,
        },
        Frame::Shutdown,
        Frame::OpenStream {
            sid: 7,
            prio: 1,
            promises: 3,
        },
        Frame::CloseStream { sid: 7 },
        Frame::DataHeader {
            mid: 1,
            sid: 7,
            length: 130,
        },
        Frame::Data {
            mid: 1,
            start: 0,
            data: vec![9, 8, 7, 6, 5],
        },
        Frame::Raw(vec![1, 2, 3]),
        Frame::Raw(vec![]),
        Frame::Data {
            mid: 2,
            start: 4,
            data: vec![],
        },
    ];
    for frame in frames {
        let encoded = encode_frame(&frame);
        match decode_stream(&encoded, 0) {
            StreamDecode::Decoded { frame: decoded, next } => {
                assert_eq!(decoded, frame);
                assert_eq!(next, encoded.len());
            }
            _ => panic!("expected a decoded frame"),
        }
    }
}

#[test]
fn every_variant_round_trips_on_datagram() {
    let frames = vec![
        handshake(),
        Frame::ParticipantId { pid: u128::MAX },
        Frame::Shutdown,
        Frame::OpenStream {
            sid: u64::MAX,
            prio: 255,
            promises: 255,
        },
        Frame::CloseStream { sid: 0 },
        Frame::DataHeader {
            mid: 3,
            sid: 9,
            length: u64::MAX,
        },
        Frame::Data {
            mid: 1,
            start: 100,
            data: vec![0xAA; 30],
        },
        Frame::Raw(vec![0x55; 17]),
    ];
    for frame in frames {
        let encoded = encode_frame(&frame);
        assert_eq!(decode_datagram(&encoded), frame);
    }
}

#[test]
fn encoding_is_deterministic() {
    let frame = Frame::Data {
        mid: 77,
        start: 12,
        data: vec![1, 2, 3, 4],
    };
    assert_eq!(encode_frame(&frame), encode_frame(&frame));
    let h = handshake();
    assert_eq!(encode_frame(&h), encode_frame(&h));
}

#[test]
fn concatenated_frames_decode_in_order() {
    // A 130-byte logical message fragmented as a header and two pieces.
    let first = vec![0x11u8; 100];
    let second = vec![0x22u8; 30];
    let frames = vec![
        Frame::DataHeader {
            mid: 1,
            sid: 7,
            length: 130,
        },
        Frame::Data {
            mid: 1,
            start: 0,
            data: first,
        },
        Frame::Data {
            mid: 1,
            start: 100,
            data: second,
        },
    ];
    let mut stream: Vec<u8> = Vec::new();
    for frame in &frames {
        stream.extend_from_slice(&encode_frame(frame));
    }
    let (decoded, clean) = decode_frames(&stream);
    assert!(clean);
    assert_eq!(decoded, frames);
}

#[test]
fn truncated_frame_yields_nothing() {
    let encoded = encode_frame(&handshake());
    // Cut anywhere after the tag but before the end of the body.
    for cut in 1..encoded.len() {
        let partial: Vec<u8> = encoded[..cut].to_vec();
        match decode_stream(&partial, 0) {
            StreamDecode::Incomplete => {}
            _ => panic!("a partial frame must not decode"),
        }
        let (decoded, clean) = decode_frames(&partial);
        assert!(decoded.is_empty());
        assert!(!clean);
    }
}

#[test]
fn unknown_tag_yields_one_raw_frame_and_reading_continues() {
    // Tag 0xFF followed by 300 zero bytes.
    let mut stream: Vec<u8> = vec![0xFF];
    stream.extend_from_slice(&[0u8; 300]);
    match decode_stream(&stream, 0) {
        StreamDecode::Decoded { frame, next } => {
            match frame {
                Frame::Raw(data) => assert_eq!(data.len(), 256),
                _ => panic!("expected a raw diagnostic frame"),
            }
            assert_eq!(next, 257);
            // The reader continues from `next`.
            match decode_stream(&stream, next) {
                StreamDecode::Incomplete | StreamDecode::Decoded { .. } | StreamDecode::Closed => {}
            }
        }
        _ => panic!("expected a decoded frame"),
    }
}

#[test]
fn reserved_tags_are_unknown() {
    for tag in [0u8, 10, 13] {
        let mut stream: Vec<u8> = vec![tag];
        stream.extend_from_slice(&[0xEE; 10]);
        match decode_stream(&stream, 0) {
            StreamDecode::Decoded { frame, next } => {
                match frame {
                    Frame::Raw(data) => {
                        assert_eq!(data.len(), 256);
                        assert_eq!(&data[..10], &[0xEE; 10]);
                        assert!(data[10..].iter().all(|b| *b == 0));
                    }
                    _ => panic!("expected a raw diagnostic frame"),
                }
                assert_eq!(next, 11);
            }
            _ => panic!("expected a decoded frame"),
        }
    }
}

#[test]
fn empty_buffer_is_a_clean_close() {
    let empty: Vec<u8> = Vec::new();
    match decode_stream(&empty, 0) {
        StreamDecode::Closed => {}
        _ => panic!("an empty buffer is the clean close"),
    }
    let (decoded, clean) = decode_frames(&empty);
    assert!(decoded.is_empty());
    assert!(clean);
}

#[test]
fn datagram_encoder_fills_scratch_buffer() {
    let mut buffer: Vec<u8> = vec![0; 2000];
    let frame = Frame::OpenStream {
        sid: 0x0102030405060708,
        prio: 5,
        promises: 0x0F,
    };
    let len = encode_datagram(&frame, &mut buffer).expect("fits");
    assert_eq!(len, 11);
    assert_eq!(
        &buffer[..11],
        &[0x04, 0x08, 0x07, 0x06, 0x05, 0x04, 0x03, 0x02, 0x01, 0x05, 0x0F]
    );
    assert_eq!(buffer.len(), 2000);
    assert!(buffer[11..].iter().all(|b| *b == 0));
}

#[test]
fn oversized_datagram_frame_is_refused() {
    let mut buffer: Vec<u8> = vec![0; 2000];
    let frame = Frame::Data {
        mid: 1,
        start: 0,
        data: vec![7; 1990],
    };
    assert_eq!(encode_datagram(&frame, &mut buffer), None);
    // A buffer sized for the largest frame takes the same frame.
    let mut big: Vec<u8> = vec![0; 65554];
    assert_eq!(encode_datagram(&frame, &mut big), Some(2009));
}

#[test]
fn short_data_datagram_is_surfaced_raw() {
    // A 10-byte datagram whose first byte is the Data tag: too short for
    // the 18-byte body, so the whole datagram comes back as Raw and the
    // reader keeps going.
    let datagram: Vec<u8> = vec![0x07, 1, 2, 3, 4, 5, 6, 7, 8, 9];
    assert_eq!(decode_datagram(&datagram), Frame::Raw(datagram.clone()));
}

#[test]
fn datagram_length_mismatch_is_surfaced_raw() {
    // A Data datagram whose length prefix disagrees with the bytes that
    // actually follow it.
    let mut datagram = encode_frame(&Frame::Data {
        mid: 1,
        start: 0,
        data: vec![1, 2, 3],
    });
    datagram.push(0xAB); // one byte of trailing slack
    assert_eq!(decode_datagram(&datagram), Frame::Raw(datagram.clone()));
}

#[test]
fn empty_datagram_is_surfaced_raw() {
    let datagram: Vec<u8> = Vec::new();
    assert_eq!(decode_datagram(&datagram), Frame::Raw(Vec::new()));
}

#[test]
fn unknown_tag_datagram_is_surfaced_whole() {
    let datagram: Vec<u8> = vec![0xFF, 1, 2, 3];
    assert_eq!(decode_datagram(&datagram), Frame::Raw(datagram.clone()));
}
