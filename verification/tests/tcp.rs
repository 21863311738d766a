use whisperer::tcp::{
    ack_response, is_readable, message_frame, null_response, parse_incoming, received_key,
    request_frame, resend_frame, Incoming, Protocol, ResponseError, MAX_CONTENT_LENGTH,
};

fn padded(mut frame: Vec<u8>) -> Vec<u8> {
    frame.resize(MAX_CONTENT_LENGTH, 0);
    frame
}

#[test]
fn request_frame_layout() {
    let f = request_frame(Protocol::PublicKey, &vec![1, 2, 3]);
    let mut expected = b"PUBLICKEY\0".to_vec();
    expected.extend_from_slice(&[1, 2, 3, 255]);
    assert_eq!(f, expected);
    let f = request_frame(Protocol::CombineKey, &vec![7]);
    assert_eq!(f, b"COMBINEKEY\0\x07\xff".to_vec());
}

#[test]
fn message_frame_layout() {
    let f = message_frame("abc", vec![1, 2]);
    let mut expected = b"MESSAGE\0".to_vec();
    expected.extend_from_slice(&[98, 99, 1, 96, 255]);
    assert_eq!(f, expected);
}

#[test]
fn protocol_from_names() {
    assert_eq!(Protocol::from(String::from("PUBLICKEY")), Protocol::PublicKey);
    assert_eq!(Protocol::from(String::from("COMBINEKEY")), Protocol::CombineKey);
    assert_eq!(Protocol::from(String::from("MESSAGE")), Protocol::Message);
    assert_eq!(Protocol::from(String::from("RESEND")), Protocol::Resend);
    assert_eq!(Protocol::from(String::from("message")), Protocol::Unknown);
    assert_eq!(Protocol::from(String::new()), Protocol::Unknown);
}

#[test]
fn parse_ping() {
    let mut data = vec![0u8; MAX_CONTENT_LENGTH];
    data[0] = 22;
    assert!(is_readable(&data));
    assert!(matches!(parse_incoming(data), Incoming::Ping));
}

#[test]
fn parse_request_roundtrip() {
    for p in [Protocol::PublicKey, Protocol::CombineKey, Protocol::Message, Protocol::Resend] {
        let payload = vec![0, 255, 10, 22, 3];
        let data = padded(request_frame(p, &payload));
        assert!(is_readable(&data));
        match parse_incoming(data) {
            Incoming::Request(q, d) => {
                assert_eq!(q, p);
                assert_eq!(d, payload);
            }
            Incoming::Ping => panic!("not a ping"),
        }
    }
}

#[test]
fn parse_request_with_empty_payload_gives_zero_byte() {
    let data = padded(request_frame(Protocol::Message, &Vec::new()));
    match parse_incoming(data) {
        Incoming::Request(q, d) => {
            assert_eq!(q, Protocol::Message);
            assert_eq!(d, vec![0]);
        }
        Incoming::Ping => panic!("not a ping"),
    }
}

#[test]
fn parse_unknown_request() {
    let data = padded(b"HELLO\0\x01\x02\xff".to_vec());
    match parse_incoming(data) {
        Incoming::Request(q, d) => {
            assert_eq!(q, Protocol::Unknown);
            assert_eq!(d, vec![1, 2]);
        }
        Incoming::Ping => panic!("not a ping"),
    }
}

#[test]
fn unreadable_data() {
    assert!(!is_readable(&vec![]));
    assert!(!is_readable(&vec![1, 2, 3]));
    assert!(!is_readable(&vec![255, 0, 0]));
    assert!(is_readable(&vec![1, 255]));
}

#[test]
fn received_key_before_last_terminator() {
    let mut buf = vec![4, 255, 5, 255];
    buf.resize(MAX_CONTENT_LENGTH, 0);
    assert_eq!(received_key(buf), Some(vec![4, 255, 5]));
    assert_eq!(received_key(vec![0; MAX_CONTENT_LENGTH]), None);
}

#[test]
fn responses() {
    assert_eq!(null_response([0]), Ok(()));
    assert_eq!(null_response([1]), Err(ResponseError::InvalidData));
    assert_eq!(null_response([255]), Err(ResponseError::InvalidData));
    assert_eq!(ack_response([6]), Ok(()));
    assert_eq!(ack_response([0]), Err(ResponseError::NotAcknowledged));
}

#[test]
fn resend_frame_layout_and_reading() {
    let f = resend_frame();
    assert_eq!(f, b"RESEND\0\0\xff".to_vec());
    match parse_incoming(padded(f)) {
        Incoming::Request(q, d) => {
            assert_eq!(q, Protocol::Resend);
            assert_eq!(d, vec![0]);
        }
        Incoming::Ping => panic!("not a ping"),
    }
}
