use whisperer::msg::{ChatHistory, Message, Recipient};
use whisperer::save::{decode_histories, decode_recipients, encode_histories, encode_recipients};

fn key16() -> Vec<u8> {
    (20..36u8).collect()
}

#[test]
fn recipients_file_layout() {
    let list = vec![
        Recipient::new(String::from("1.2.3.4"), Some(String::from("al")), Some(vec![7, 8])),
        Recipient::new(String::from("None"), None, None),
        Recipient::new(String::from("5.6.7.8"), None, None),
    ];
    let bytes = encode_recipients(&list);
    let mut expected = b"1.2.3.4\0al\0".to_vec();
    expected.extend_from_slice(&[7, 8, 10]);
    expected.extend_from_slice(b"5.6.7.8\0\0\n");
    assert_eq!(bytes, expected);
}

#[test]
fn recipients_roundtrip() {
    let list = vec![
        Recipient::new(String::from("1.2.3.4"), Some(String::from("alice")), Some(key16())),
        Recipient::new(String::from("5.6.7.8"), None, None),
        Recipient::new(String::from("9.9.9.9"), Some(String::from("z")), None),
    ];
    let back = decode_recipients(&encode_recipients(&list));
    assert_eq!(back.len(), 3);
    for (a, b) in list.iter().zip(back.iter()) {
        assert_eq!(a.ip(), b.ip());
        assert_eq!(a.alias(), b.alias());
        assert_eq!(a.private_key(), b.private_key());
    }
}

#[test]
fn recipients_short_key_is_dropped() {
    let back = decode_recipients(&b"1.1.1.1\0\0\x01\x02\n2.2.2.2\0".to_vec());
    assert_eq!(back.len(), 1);
    assert_eq!(back[0].ip(), "1.1.1.1");
    assert_eq!(back[0].private_key(), None);
    assert_eq!(back[0].alias(), None);
}

#[test]
fn recipients_key_with_newline_breaks_record() {
    let mut key = key16();
    key[3] = 10;
    let list = vec![Recipient::new(String::from("1.1.1.1"), None, Some(key))];
    let back = decode_recipients(&encode_recipients(&list));
    assert_eq!(back[0].private_key(), None);
}

#[test]
fn history_file_layout() {
    let peer = Recipient::from(String::from("1.2.3.4"));
    let mut h = ChatHistory::new(peer);
    h.push_msg(Message::new(String::from("You"), String::from("hi")));
    h.push_msg(Message::new(String::from("1.2.3.4"), String::from("yo")));
    let bytes = encode_histories(&vec![h]);
    assert_eq!(bytes, b"1.2.3.4\n\0hi\nyo\n\n".to_vec());
}

#[test]
fn histories_roundtrip() {
    let recipients = vec![
        Recipient::new(String::from("1.2.3.4"), Some(String::from("al")), None),
        Recipient::from(String::from("5.6.7.8")),
    ];
    let mut h1 = ChatHistory::new(recipients[0].clone());
    h1.push_msg(Message::new(String::from("You"), String::from("hello there")));
    h1.push_msg(Message::new(String::from("1.2.3.4"), String::from("hi")));
    h1.push_msg(Message::new(String::from("You"), String::new()));
    let mut h2 = ChatHistory::new(recipients[1].clone());
    h2.push_msg(Message::new(String::from("5.6.7.8"), String::from("x")));
    let list = vec![h1, h2];
    let back = decode_histories(&recipients, &encode_histories(&list)).unwrap();
    assert_eq!(back.len(), 2);
    for (a, b) in list.iter().zip(back.iter()) {
        assert_eq!(a.peer().ip(), b.peer().ip());
        assert_eq!(a.peer().alias(), b.peer().alias());
        let (ma, mb) = (a.history(), b.history());
        assert_eq!(ma.len(), mb.len());
        for (x, y) in ma.iter().zip(mb.iter()) {
            assert_eq!(x.author(), y.author());
            assert_eq!(x.content(), y.content());
        }
    }
}

#[test]
fn histories_unknown_address_fails() {
    let recipients = vec![Recipient::from(String::from("1.1.1.1"))];
    assert!(decode_histories(&recipients, &b"2.2.2.2\nhey\n\n".to_vec()).is_none());
}

#[test]
fn histories_unfinished_is_dropped() {
    let recipients = vec![Recipient::from(String::from("1.1.1.1"))];
    let back = decode_histories(&recipients, &b"1.1.1.1\nhey\n".to_vec()).unwrap();
    assert_eq!(back.len(), 0);
}
