use whisperer::comms::{make_keypair, store_private_key, trim_port, Action, Responder, KEY_SIZE};
use whisperer::kem::decrypt;
use whisperer::msg::Recipient;
use whisperer::tcp::vector::{and_vector, bytes_to_string, rand_byte_vector};
use whisperer::tcp::{
    message_frame, parse_incoming, received_key, request_frame, resend_frame, Incoming, Protocol,
    MAX_CONTENT_LENGTH,
};

fn padded(mut frame: Vec<u8>) -> Vec<u8> {
    frame.resize(MAX_CONTENT_LENGTH, 0);
    frame
}

fn request(data: Vec<u8>) -> (Protocol, Vec<u8>) {
    match parse_incoming(padded(data)) {
        Incoming::Request(p, d) => (p, d),
        Incoming::Ping => panic!("unexpected ping"),
    }
}

#[test]
fn trim_port_keeps_address() {
    assert_eq!(trim_port(String::from("192.168.1.2:9998")), "192.168.1.2");
    assert_eq!(trim_port(String::from("10.0.0.1")), "10.0.0.1");
    assert_eq!(trim_port(String::from(":80")), "");
}

#[test]
fn keys_have_key_size() {
    let kx = make_keypair();
    assert_eq!(kx.public_key().len(), KEY_SIZE);
    assert_eq!(kx.combined_key().len(), KEY_SIZE);
}

#[test]
fn shared_key_matches_on_both_ends() {
    let kx = make_keypair();
    let responder = Responder::new();
    let mut peers: Vec<Recipient> = Vec::new();
    let author = String::from("10.0.0.7");

    let (p, public) = request(request_frame(Protocol::PublicKey, &kx.public_key()));
    assert_eq!(p, Protocol::PublicKey);
    let reply = match responder.handle_request(&mut peers, &author, p, public) {
        Action::Reply(r) => r,
        _ => panic!("expected a reply"),
    };
    let initiator_key = kx.finish(received_key(padded(reply)).unwrap());

    let (p, combined) = request(request_frame(Protocol::CombineKey, &kx.combined_key()));
    match responder.handle_request(&mut peers, &author, p, combined) {
        Action::Reply(r) => assert_eq!(r, vec![0]),
        _ => panic!("expected a reply"),
    }
    assert_eq!(peers.len(), 1);
    assert_eq!(peers[0].private_key(), Some(initiator_key));
}

#[test]
fn sending_receiving() {
    let kx = make_keypair();
    let responder = Responder::new();
    let mut peers: Vec<Recipient> = Vec::new();
    let author = String::from("192.168.40.126");

    let (p, public) = request(request_frame(Protocol::PublicKey, &kx.public_key()));
    let reply = match responder.handle_request(&mut peers, &author, p, public) {
        Action::Reply(r) => r,
        _ => panic!("expected a reply"),
    };
    let private_key = kx.finish(received_key(padded(reply)).unwrap());
    let (p, combined) = request(request_frame(Protocol::CombineKey, &kx.combined_key()));
    let _ = responder.handle_request(&mut peers, &author, p, combined);

    let message = "you will be forever alone";
    let sent = message.to_string();
    let (p, data) = request(message_frame(message, private_key));
    let received = match responder.handle_request(&mut peers, &author, p, data) {
        Action::Show(m) => {
            assert_eq!(m.author(), author);
            m.content()
        }
        _ => panic!("expected a message"),
    };
    assert_eq!(sent, received);
}

#[test]
fn message_from_unknown_author_asks_for_keys() {
    let responder = Responder::new();
    let mut peers: Vec<Recipient> = Vec::new();
    let author = String::from("1.2.3.4");
    let (p, data) = request(message_frame("hi", vec![1; 16]));
    assert!(matches!(
        responder.handle_request(&mut peers, &author, p, data),
        Action::Rebuild
    ));
    assert!(peers.is_empty());
}

#[test]
fn message_that_fills_no_block_is_dropped() {
    let responder = Responder::new();
    let mut peers = vec![Recipient::new(String::from("1.2.3.4"), None, Some(vec![1; 16]))];
    let author = String::from("1.2.3.4");
    assert!(matches!(
        responder.handle_request(&mut peers, &author, Protocol::Message, vec![1, 2, 3]),
        Action::Undecryptable
    ));
}

#[test]
fn unknown_request_is_refused() {
    let responder = Responder::new();
    let mut peers: Vec<Recipient> = Vec::new();
    let author = String::from("1.2.3.4");
    match responder.handle_request(&mut peers, &author, Protocol::Unknown, vec![1]) {
        Action::Reply(r) => assert_eq!(r, vec![1]),
        _ => panic!("expected a reply"),
    }
}

#[test]
fn store_key_overwrites_first_or_adds() {
    let mut peers = vec![Recipient::from(String::from("1.1.1.1"))];
    assert!(store_private_key(&mut peers, &String::from("1.1.1.1"), vec![5]));
    assert_eq!(peers[0].private_key(), Some(vec![5]));
    assert!(!store_private_key(&mut peers, &String::from("2.2.2.2"), vec![6]));
    assert_eq!(peers.len(), 2);
    assert_eq!(peers[1].ip(), "2.2.2.2");
    assert_eq!(peers[1].private_key(), Some(vec![6]));
}

#[test]
fn padded_message_decrypts_with_trailing_zeros() {
    let key = rand_byte_vector(16);
    let (_, data) = request(message_frame("hello", key.clone()));
    let text = bytes_to_string(decrypt(data, key));
    assert_eq!(text, "hello\0\0\0\0");
}

#[test]
fn and_vector_agreement_by_hand() {
    let a = vec![0xf0, 0x0f];
    let p = vec![0xff, 0x3c];
    let b = vec![0xaa, 0xff];
    let mixed = and_vector(b.clone(), p.clone());
    let combined = and_vector(a.clone(), p);
    assert_eq!(and_vector(mixed, a), and_vector(b, combined));
}

#[test]
fn resend_request_is_answered() {
    let responder = Responder::new();
    let mut peers: Vec<Recipient> = Vec::new();
    let author = String::from("1.2.3.4");
    let (p, data) = request(resend_frame());
    assert_eq!(p, Protocol::Resend);
    assert!(matches!(
        responder.handle_request(&mut peers, &author, p, data),
        Action::Resend
    ));
    assert!(peers.is_empty());
}
