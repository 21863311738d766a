//! The decisions of both ends of a connection: the key exchange and what
//! the receiving end does with each request. The connections themselves are
//! made by the caller.
//!
//! The key exchange: the initiator picks a base key and a public key and
//! sends the public key; the responder answers with its own base key ANDed
//! with it (the mixed key). The initiator then sends its base key ANDed
//! with the public key (the combined key). Each end ANDs what it received
//! with its own base key, and both arrive at the same private key.
use vstd::prelude::*;
use crate::kem::{decrypt, spec_decrypt, spec_encrypt, is_square, fills_block, block_side,
    pad, lemma_decrypt_encrypt};
use crate::msg::{Recipient, RecipientView, Message, MessageView, views, find_recipient};
use crate::tcp::{Protocol, frame, protocol_name, spec_request, readable, frame_body, PING, NULL,
    REFUSED, lemma_request_roundtrip, lemma_reply_body};
use crate::tcp::vector::{and_vector, and_seq, rand_byte_vector, bytes_to_string, byte_chars,
    low_bytes};

verus! {

/// The length of the keys of the exchange, and of the private keys kept
/// for recipients.
pub const KEY_SIZE: usize = 16;

/// The characters of `s` before its first `c` (all of them where there is
/// none).
pub open spec fn before_char(s: Seq<char>, c: char) -> Seq<char>
    decreases s.len(),
{
    if s.len() == 0 {
        s
    } else if s[0] == c {
        seq![]
    } else {
        seq![s[0]] + before_char(s.drop_first(), c)
    }
}

/// The address part of "address:port": what stands before the first colon.
pub fn trim_port(ip: String) -> (trimmed: String)
    requires
        ip@.len() > 0,
    ensures
        trimmed@ == before_char(ip@, ':'),
{
    let n = ip.as_str().unicode_len();
    let mut trimmed = String::new();
    let mut i: usize = 0;
    assert(ip@.skip(0) =~= ip@);
    assert(trimmed@ + before_char(ip@, ':') =~= before_char(ip@, ':'));
    assert(ip@.take(0) =~= trimmed@);
    while i < n
        invariant
            n == ip@.len(),
            i <= n,
            forall|k: int| 0 <= k < i ==> ip@[k] != ':',
            trimmed@ == ip@.take(i as int),
            before_char(ip@, ':') == trimmed@ + before_char(ip@.skip(i as int), ':'),
        decreases n - i,
    {
        let c = ip.as_str().get_char(i);
        let ghost rest = ip@.skip(i as int);
        assert(rest[0] == c);
        if c == ':' {
            assert(before_char(rest, ':') =~= Seq::<char>::empty());
            assert(trimmed@ + Seq::<char>::empty() =~= trimmed@);
            return trimmed;
        }
        assert(rest.drop_first() =~= ip@.skip(i as int + 1));
        crate::tcp::vector::push_char(&mut trimmed, c);
        assert(trimmed@ =~= ip@.take(i as int + 1));
        i = i + 1;
    }
    assert(ip@.skip(n as int) =~= Seq::<char>::empty());
    assert(trimmed@ + Seq::<char>::empty() =~= trimmed@);
    trimmed
}

/// The initiator's side of a key exchange.
pub struct KeyExchange {
    base_key: Vec<u8>,
    public_key: Vec<u8>,
}

/// A key exchange as the specifications see it.
pub struct KeyExchangeView {
    pub base_key: Seq<u8>,
    pub public_key: Seq<u8>,
}

impl View for KeyExchange {
    type V = KeyExchangeView;

    closed spec fn view(&self) -> KeyExchangeView {
        KeyExchangeView { base_key: self.base_key@, public_key: self.public_key@ }
    }
}

/// Starts a key exchange: a random base key and a random public key.
pub fn make_keypair() -> (exchange: KeyExchange)
    ensures
        exchange@.base_key.len() == KEY_SIZE,
        exchange@.public_key.len() == KEY_SIZE,
{
    let base_key = rand_byte_vector(KEY_SIZE);
    let public_key = rand_byte_vector(KEY_SIZE);
    KeyExchange { base_key, public_key }
}

impl KeyExchange {
    /// The public key, to send to the other end.
    pub fn public_key(&self) -> (key: Vec<u8>)
        ensures
            key@ == self@.public_key,
    {
        let key = self.public_key.clone();
        assert(key@ =~= self@.public_key);
        key
    }

    /// The combined key, to send to the other end once its mixed key came
    /// back: the base key ANDed with the public key.
    pub fn combined_key(&self) -> (key: Vec<u8>)
        ensures
            key@ == and_seq(self@.base_key, self@.public_key),
    {
        let base = self.base_key.clone();
        let public = self.public_key.clone();
        assert(base@ =~= self@.base_key);
        assert(public@ =~= self@.public_key);
        and_vector(base, public)
    }

    /// The private key: the mixed key from the other end ANDed with the
    /// base key.
    pub fn finish(&self, mixed_key: Vec<u8>) -> (key: Vec<u8>)
        ensures
            key@ == and_seq(mixed_key@, self@.base_key),
    {
        let base = self.base_key.clone();
        assert(base@ =~= self@.base_key);
        and_vector(mixed_key, base)
    }
}

/// The receiving end: its base key, picked once when it starts listening.
pub struct Responder {
    base_key: Vec<u8>,
}

impl View for Responder {
    type V = Seq<u8>;

    closed spec fn view(&self) -> Seq<u8> {
        self.base_key@
    }
}

/// What the receiving end does after a request.
pub enum Action {
    /// Send these bytes back.
    Reply(Vec<u8>),
    /// Send `NULL` back and show this message.
    Show(Message),
    /// Send `NULL` back; no key is known for the author, so agree on a new
    /// one with it, store it for the author, and then ask the author to send
    /// the message again (a `Resend` request, see `resend_frame`).
    Rebuild,
    /// Send `NULL` back; the author asks for the last message sent to it
    /// to be sent again.
    Resend,
    /// Send `NULL` back; the message does not decrypt (its length fills no
    /// square block, or the key is empty) and is dropped.
    Undecryptable,
}

/// The index of the first recipient in `list` at address `ip`, or -1.
pub open spec fn ip_index(list: Seq<RecipientView>, ip: Seq<char>) -> int
    decreases list.len(),
{
    if list.len() == 0 {
        -1
    } else if list[0].ip == ip {
        0
    } else {
        let r = ip_index(list.drop_first(), ip);
        if r < 0 {
            -1
        } else {
            r + 1
        }
    }
}

proof fn lemma_ip_index(list: Seq<RecipientView>, ip: Seq<char>)
    ensures
        -1 <= ip_index(list, ip) < list.len(),
        ip_index(list, ip) >= 0 ==> list[ip_index(list, ip)].ip == ip && find_recipient(list, ip)
            == Some(list[ip_index(list, ip)]),
        ip_index(list, ip) < 0 ==> find_recipient(list, ip) is None,
        forall|k: int| 0 <= k < list.len() && (ip_index(list, ip) < 0 || k < ip_index(list, ip))
            ==> #[trigger] list[k].ip != ip,
    decreases list.len(),
{
    if list.len() > 0 && list[0].ip != ip {
        let rest = list.drop_first();
        lemma_ip_index(rest, ip);
        assert forall|k: int|
            0 <= k < list.len() && (ip_index(list, ip) < 0 || k < ip_index(list, ip)) implies #[trigger] list[k].ip
            != ip by {
            if k > 0 {
                assert(list[k] == rest[k - 1]);
            }
        }
    }
}

/// `list` after storing `key` for the recipient at `ip`: the first
/// recipient there gets the key, or a new recipient at `ip` with that key
/// and no alias is added.
pub open spec fn stored(list: Seq<RecipientView>, ip: Seq<char>, key: Seq<u8>) -> Seq<RecipientView> {
    let i = ip_index(list, ip);
    if i >= 0 {
        list.update(i, RecipientView { key: Some(key), ..list[i] })
    } else {
        list.push(RecipientView { ip, alias: None, key: Some(key) })
    }
}

/// Storing a key for an address already in the list changes only the key
/// of the first recipient there: the list keeps its length, every
/// recipient keeps its address and alias, the first recipient at the
/// address gets the key, and every other recipient is left as it was. For
/// an address not in the list, one recipient is added at the end: at that
/// address, with no alias and that key.
pub proof fn lemma_stored(list: Seq<RecipientView>, ip: Seq<char>, key: Seq<u8>)
    ensures
        (exists|i: int| 0 <= i < list.len() && #[trigger] list[i].ip == ip) ==> {
            let out = stored(list, ip, key);
            &&& out.len() == list.len()
            &&& forall|j: int|
                0 <= j < list.len() ==> (#[trigger] out[j]).ip == list[j].ip && out[j].alias
                    == list[j].alias
            &&& forall|j: int|
                0 <= j < list.len() ==> (#[trigger] out[j]) == list[j] || (list[j].ip == ip
                    && out[j].key == Some(key) && forall|k: int|
                    0 <= k < j ==> list[k].ip != ip)
            &&& exists|j: int| 0 <= j < list.len() && list[j].ip == ip && (#[trigger] out[j]).key
                == Some(key)
        },
        (forall|i: int| 0 <= i < list.len() ==> (#[trigger] list[i]).ip != ip) ==> stored(
            list,
            ip,
            key,
        ) == list.push(RecipientView { ip, alias: None, key: Some(key) }),
{
    lemma_ip_index(list, ip);
    let i = ip_index(list, ip);
    if exists|m: int| 0 <= m < list.len() && #[trigger] list[m].ip == ip {
        let m = choose|m: int| 0 <= m < list.len() && #[trigger] list[m].ip == ip;
        assert(i >= 0);
        let out = stored(list, ip, key);
        assert forall|j: int| 0 <= j < list.len() implies (#[trigger] out[j]) == list[j] || (
        list[j].ip == ip && out[j].key == Some(key) && forall|k: int|
            0 <= k < j ==> list[k].ip != ip) by {
            if j == i {
                assert forall|k: int| 0 <= k < j implies list[k].ip != ip by {
                    assert(list[k].ip != ip);
                }
            }
        }
        assert(out[i].key == Some(key));
    } else {
        if i >= 0 {
            assert(list[i].ip == ip);
        }
    }
}

/// The key known for the recipient at `ip`: that of the first recipient
/// there.
pub open spec fn key_for(list: Seq<RecipientView>, ip: Seq<char>) -> Option<Seq<u8>> {
    match find_recipient(list, ip) {
        Some(r) => r.key,
        None => None,
    }
}

/// Stores `key` as the private key of the recipient at `author`, adding the
/// recipient where it is not known. Returns whether it was known.
pub fn store_private_key(peers: &mut Vec<Recipient>, author: &String, key: Vec<u8>) -> (existing: bool)
    ensures
        existing == (ip_index(views(old(peers)@), author@) >= 0),
        views(final(peers)@) == stored(views(old(peers)@), author@, key@),
        key_for(views(final(peers)@), author@) == Some(key@),
{
    let ghost l = views(peers@);
    let ghost k = key@;
    proof {
        lemma_ip_index(l, author@);
    }
    let mut i: usize = 0;
    while i < peers.len()
        invariant
            i <= peers.len(),
            peers@ == old(peers)@,
            l == views(peers@),
            k == key@,
            ip_index(l, author@) < 0 || i <= ip_index(l, author@),
            -1 <= ip_index(l, author@) < l.len(),
            ip_index(l, author@) >= 0 ==> l[ip_index(l, author@)].ip == author@,
            forall|j: int|
                0 <= j < l.len() && (ip_index(l, author@) < 0 || j < ip_index(l, author@)) ==> #[trigger] l[j].ip
                    != author@,
        decreases peers.len() - i,
    {
        if peers[i].ip() == *author {
            assert(l[i as int] == peers@[i as int]@);
            assert(ip_index(l, author@) == i);
            let mut r = peers[i].clone();
            r.set_private_key(key);
            peers.set(i, r);
            proof {
                assert(views(peers@) =~= stored(l, author@, k));
                lemma_ip_index(views(peers@), author@);
                let m = views(peers@);
                if ip_index(m, author@) != i {
                    if ip_index(m, author@) < 0 || ip_index(m, author@) > i {
                        assert(m[i as int].ip == author@);
                    } else {
                        let j = ip_index(m, author@);
                        assert(m[j] == l[j]);
                    }
                }
            }
            return true;
        }
        assert(l[i as int] == peers@[i as int]@);
        i = i + 1;
    }
    proof {
        if ip_index(l, author@) >= 0 {
            assert(l[ip_index(l, author@)].ip == author@);
        }
    }
    let ghost before = peers@;
    let rec = Recipient::new(author.clone(), None, Some(key));
    peers.push(rec);
    proof {
        assert(views(peers@) =~= views(before).push(rec@));
        assert(views(peers@) =~= stored(l, author@, k));
        let m = views(peers@);
        lemma_ip_index(m, author@);
        if ip_index(m, author@) != l.len() {
            if ip_index(m, author@) < 0 {
                assert(m[l.len() as int].ip == author@);
            } else {
                let j = ip_index(m, author@);
                assert(m[j] == l[j]);
            }
        }
    }
    false
}

impl Responder {
    /// A receiving end with a random base key.
    pub fn new() -> (r: Self)
        ensures
            r@.len() == KEY_SIZE,
    {
        Responder { base_key: rand_byte_vector(KEY_SIZE) }
    }

    /// The answer to a public key: the mixed key (the base key ANDed with
    /// the public key) and a closing byte.
    pub fn mixed_key_reply(&self, public_key: Vec<u8>) -> (reply: Vec<u8>)
        ensures
            reply@ == and_seq(self@, public_key@).push(255u8),
    {
        let base = self.base_key.clone();
        assert(base@ =~= self@);
        let mut reply = and_vector(base, public_key);
        reply.push(255u8);
        reply
    }

    /// The private key from a combined key: the base key ANDed with it.
    pub fn private_key_from(&self, combined_key: Vec<u8>) -> (key: Vec<u8>)
        ensures
            key@ == and_seq(self@, combined_key@),
    {
        let base = self.base_key.clone();
        assert(base@ =~= self@);
        and_vector(base, combined_key)
    }

    /// Handles a request of kind `protocol` with payload `data` from the
    /// end at address `author`, updating the known recipients `peers`.
    pub fn handle_request(
        &self,
        peers: &mut Vec<Recipient>,
        author: &String,
        protocol: Protocol,
        data: Vec<u8>,
    ) -> (action: Action)
        ensures
            protocol == Protocol::CombineKey ==> views(final(peers)@) == stored(
                views(old(peers)@),
                author@,
                and_seq(self@, data@),
            ),
            protocol != Protocol::CombineKey ==> views(final(peers)@) == views(old(peers)@),
            match protocol {
                Protocol::PublicKey => action matches Action::Reply(r) && r@ == and_seq(
                    self@,
                    data@,
                ).push(255u8),
                Protocol::CombineKey => action matches Action::Reply(r) && r@ == seq![NULL],
                Protocol::Message => match key_for(views(old(peers)@), author@) {
                    None => action is Rebuild,
                    Some(k) => if is_square(data@.len()) && (data@.len() > 0 ==> k.len() > 0) {
                        action matches Action::Show(m) && m@ == (MessageView {
                            author: author@,
                            content: byte_chars(spec_decrypt(data@, k)),
                        })
                    } else {
                        action is Undecryptable
                    },
                },
                Protocol::Resend => action is Resend,
                Protocol::Unknown => action matches Action::Reply(r) && r@ == seq![REFUSED],
            },
    {
        match protocol {
            Protocol::PublicKey => Action::Reply(self.mixed_key_reply(data)),
            Protocol::CombineKey => {
                let key = self.private_key_from(data);
                let _ = store_private_key(peers, author, key);
                let mut reply: Vec<u8> = Vec::new();
                reply.push(NULL);
                assert(reply@ =~= seq![NULL]);
                Action::Reply(reply)
            },
            Protocol::Message => {
                let key = match Recipient::find(peers, author) {
                    Some(peer) => peer.private_key(),
                    None => None,
                };
                match key {
                    None => Action::Rebuild,
                    Some(key) => {
                        if fills_block(data.len()) && (data.len() == 0 || key.len() > 0) {
                            let text = bytes_to_string(decrypt(data, key));
                            Action::Show(Message::new(author.clone(), text))
                        } else {
                            Action::Undecryptable
                        }
                    },
                }
            },
            Protocol::Resend => Action::Resend,
            Protocol::Unknown => {
                let mut reply: Vec<u8> = Vec::new();
                reply.push(REFUSED);
                assert(reply@ =~= seq![REFUSED]);
                Action::Reply(reply)
            },
        }
    }
}

proof fn lemma_and_commutes(x: u8, y: u8, z: u8)
    ensures
        (x & y) & z == x & (z & y),
{
    assert((x & y) & z == x & (z & y)) by (bit_vector);
}

proof fn lemma_latin1_byte(ch: char)
    requires
        (ch as int) < 256,
    ensures
        ((ch as u8) as char) == ch,
{
}

/// ANDing with the other end's base key in either order gives the same
/// key: the mixed key ANDed with the initiator's base key equals the
/// responder's base key ANDed with the combined key.
pub proof fn lemma_shared_key(a: Seq<u8>, p: Seq<u8>, b: Seq<u8>)
    ensures
        and_seq(and_seq(b, p), a) == and_seq(b, and_seq(a, p)),
{
    let l = and_seq(and_seq(b, p), a);
    let r = and_seq(b, and_seq(a, p));
    assert forall|i: int| 0 <= i < l.len() implies l[i] == r[i] by {
        lemma_and_commutes(b[i], p[i], a[i]);
    }
    assert(l =~= r);
}

/// A whole key exchange over the wire gives both ends the same private
/// key: the public key and the combined key travel as framed requests and
/// the mixed key as a reply closed by 255, each followed by anything free of
/// 255 (the zeros of the receive buffers).
pub proof fn lemma_key_agreement(
    initiator: KeyExchangeView,
    responder: Seq<u8>,
    t1: Seq<u8>,
    t2: Seq<u8>,
    t3: Seq<u8>,
)
    requires
        initiator.base_key.len() > 0,
        initiator.public_key.len() > 0,
        !t1.contains(255),
        !t2.contains(255),
        !t3.contains(255),
    ensures
        ({
            let a = initiator.base_key;
            let p = initiator.public_key;
            let received_public = spec_request(frame(protocol_name(Protocol::PublicKey), p) + t1);
            let mixed = frame_body(and_seq(responder, received_public.1).push(255u8) + t2);
            let received_combined = spec_request(
                frame(protocol_name(Protocol::CombineKey), and_seq(a, p)) + t3,
            );
            &&& received_public.0 == Protocol::PublicKey
            &&& received_combined.0 == Protocol::CombineKey
            &&& and_seq(mixed, a) == and_seq(responder, received_combined.1)
        }),
{
    let a = initiator.base_key;
    let p = initiator.public_key;
    lemma_request_roundtrip(Protocol::PublicKey, p, t1);
    lemma_reply_body(and_seq(responder, p), t2);
    assert(and_seq(a, p).len() > 0);
    lemma_request_roundtrip(Protocol::CombineKey, and_seq(a, p), t3);
    lemma_shared_key(a, p, responder);
}

/// A message sent with the agreed key reads back at the other end: the
/// frame parses as a message whose payload decrypts with the same key to
/// the low bytes of the message, padded with zeros to fill its block; a
/// message of Latin-1 characters whose length fills a square block comes
/// back unchanged.
pub proof fn lemma_message_delivered(m: Seq<char>, key: Seq<u8>, tail: Seq<u8>)
    requires
        m.len() > 0,
        key.len() > 0,
        !tail.contains(255),
    ensures
        ({
            let data = frame(protocol_name(Protocol::Message), spec_encrypt(low_bytes(m), key))
                + tail;
            let (p, payload) = spec_request(data);
            &&& readable(data)
            &&& data[0] != PING
            &&& p == Protocol::Message
            &&& is_square(payload.len())
            &&& byte_chars(spec_decrypt(payload, key)) == byte_chars(
                pad(low_bytes(m), block_side(m.len())),
            )
            &&& (is_square(m.len()) && (forall|i: int| 0 <= i < m.len() ==> (m[i] as int) < 256))
                ==> byte_chars(spec_decrypt(payload, key)) == m
        }),
{
    let plain = low_bytes(m);
    let c = spec_encrypt(plain, key);
    lemma_decrypt_encrypt(plain, key);
    crate::kem::lemma_block_side_positive(plain.len());
    lemma_request_roundtrip(Protocol::Message, c, tail);
    if is_square(m.len()) && (forall|i: int| 0 <= i < m.len() ==> (m[i] as int) < 256) {
        assert forall|i: int| 0 <= i < m.len() implies byte_chars(plain)[i] == m[i] by {
            let ch = m[i];
            assert((ch as int) < 256);
            lemma_latin1_byte(ch);
            assert(plain[i] == ch as u8);
            assert(byte_chars(plain)[i] == (plain[i] as char));
        }
        assert(byte_chars(plain) =~= m);
    }
}

} // verus!
