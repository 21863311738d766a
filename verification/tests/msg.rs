use whisperer::msg::{
    alias_fits, message_fits, new_peer_fits, ChatHistory, Message, Recipient, _is_valid_ip,
};

fn rec(ip: &str) -> Recipient {
    Recipient::from(String::from(ip))
}

fn ips(list: &Vec<Recipient>) -> Vec<String> {
    list.iter().map(|r| r.ip()).collect()
}

#[test]
fn full_string_with_and_without_alias() {
    let r = rec("10.0.0.1");
    assert_eq!(r.full_string(), "10.0.0.1");
    assert_eq!(r.alias(), None);
    let r = Recipient::new(String::from("10.0.0.1"), Some(String::from("bob")), None);
    assert_eq!(r.full_string(), "bob (10.0.0.1)");
    assert_eq!(r.alias(), Some(String::from("bob")));
}

#[test]
fn add_skips_known_address() {
    let mut list = Vec::new();
    Recipient::add(&mut list, rec("1.1.1.1"));
    Recipient::add(&mut list, rec("2.2.2.2"));
    Recipient::add(&mut list, rec("1.1.1.1"));
    assert_eq!(ips(&list), vec!["1.1.1.1", "2.2.2.2"]);
    assert_eq!(ips(&Recipient::get(&list)), vec!["1.1.1.1", "2.2.2.2"]);
}

#[test]
fn set_alias_and_remove() {
    let mut list = vec![rec("1.1.1.1"), rec("2.2.2.2")];
    let named = Recipient::new(String::from("2.2.2.2"), Some(String::from("al")), None);
    Recipient::set_alias(&mut list, named);
    assert_eq!(list[1].alias(), Some(String::from("al")));
    assert_eq!(list[0].alias(), None);
    Recipient::remove(&mut list, rec("1.1.1.1"));
    assert_eq!(ips(&list), vec!["2.2.2.2"]);
    Recipient::remove(&mut list, rec("9.9.9.9"));
    assert_eq!(ips(&list), vec!["2.2.2.2"]);
}

#[test]
fn private_key_set_and_get() {
    let mut r = rec("3.3.3.3");
    assert_eq!(r.private_key(), None);
    r.set_private_key(vec![1, 2, 3]);
    assert_eq!(r.private_key(), Some(vec![1, 2, 3]));
    r.change_alias(Some(String::from("x")));
    assert_eq!(r.full_string(), "x (3.3.3.3)");
}

#[test]
fn find_first_match() {
    let list = vec![
        Recipient::new(String::from("1.1.1.1"), Some(String::from("a")), None),
        Recipient::new(String::from("1.1.1.1"), Some(String::from("b")), None),
    ];
    let found = Recipient::find(&list, &String::from("1.1.1.1")).unwrap();
    assert_eq!(found.alias(), Some(String::from("a")));
    assert!(Recipient::find(&list, &String::from("2.2.2.2")).is_none());
}

#[test]
fn message_accessors() {
    let m = Message::new(String::from("You"), String::from("hello"));
    assert_eq!(m.author(), "You");
    assert_eq!(m.content(), "hello");
}

#[test]
fn chat_history_keeps_order() {
    let mut h = ChatHistory::new(rec("4.4.4.4"));
    h.push_msg(Message::new(String::from("You"), String::from("a")));
    h.push_msg(Message::new(String::from("4.4.4.4"), String::from("b")));
    let msgs = h.history();
    assert_eq!(msgs.len(), 2);
    assert_eq!(msgs[0].content(), "a");
    assert_eq!(msgs[1].author(), "4.4.4.4");
    assert_eq!(h.peer().ip(), "4.4.4.4");
}

#[test]
fn valid_ip_addresses() {
    assert!(_is_valid_ip("192.168.0.1"));
    assert!(_is_valid_ip("255.255.255.255"));
    assert!(_is_valid_ip("0.0.0.0"));
    assert!(_is_valid_ip("1.2.3.4."));
    assert!(_is_valid_ip("+1.002.3.4"));
}

#[test]
fn invalid_ip_addresses() {
    assert!(!_is_valid_ip("256.1.1.1"));
    assert!(!_is_valid_ip("1.2.3"));
    assert!(!_is_valid_ip("1.2.3.4.5"));
    assert!(!_is_valid_ip("1..3.4"));
    assert!(!_is_valid_ip("a.b.c.d"));
    assert!(!_is_valid_ip(""));
    assert!(!_is_valid_ip("1.2.3.-4"));
    assert!(!_is_valid_ip("1.2.3.+"));
    assert!(!_is_valid_ip("1.2.3.4.."));
}

#[test]
fn valid_ip_agrees_with_std() {
    for s in ["1.2.3.4", "01.2.3.4", "1.2.3.4 ", " 1.2.3.4", "999.1.1.1", "1.2.3.4.", "1.2.3.4..", "+.1.1.1"] {
        let pieces: Vec<&str> = s.split_terminator('.').collect();
        let expected = pieces.len() == 4 && pieces.iter().all(|p| p.parse::<u8>().is_ok());
        assert_eq!(_is_valid_ip(s), expected, "{}", s);
    }
}

#[test]
fn length_limits() {
    assert!(!alias_fits(""));
    assert!(alias_fits("AAAAAAAAAAAAAAAAAAAAAAAAAAAA"));
    assert!(!alias_fits("AAAAAAAAAAAAAAAAAAAAAAAAAAAAA"));
    assert!(!message_fits(""));
    assert!(message_fits(&"x".repeat(2000)));
    assert!(!message_fits(&"x".repeat(2001)));
    assert!(new_peer_fits("192.168.0.1"));
    assert!(!new_peer_fits("192.168.0"));
    assert!(!new_peer_fits(""));
    assert!(alias_fits(&"\u{e9}".repeat(28)));
    assert!(!alias_fits(&"\u{e9}".repeat(29)));
    assert!(message_fits(&"\u{e9}".repeat(2000)));
    assert!(!message_fits(&"\u{e9}".repeat(2001)));
}

#[test]
fn recipient_from_str() {
    let r = Recipient::from("7.7.7.7");
    assert_eq!(r.ip(), "7.7.7.7");
    assert_eq!(r.alias(), None);
    assert_eq!(r.private_key(), None);
}
