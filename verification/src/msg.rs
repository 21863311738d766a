//! Recipients, messages and chat histories, and the list of known
//! recipients.
use vstd::prelude::*;
use vstd::std_specs::convert::FromSpec;

verus! {

/// A recipient as the specifications see it.
pub struct RecipientView {
    pub ip: Seq<char>,
    pub alias: Option<Seq<char>>,
    pub key: Option<Seq<u8>>,
}

/// Someone to send messages to: an address, an optional alias, and the
/// private key agreed with that end, once there is one.
pub struct Recipient {
    ip: String,
    alias: Option<String>,
    private_key: Option<Vec<u8>>,
}

/// The characters of an optional string.
pub open spec fn opt_chars(s: Option<String>) -> Option<Seq<char>> {
    match s {
        Some(t) => Some(t@),
        None => None,
    }
}

/// The bytes of an optional key.
pub open spec fn opt_bytes(k: Option<Vec<u8>>) -> Option<Seq<u8>> {
    match k {
        Some(v) => Some(v@),
        None => None,
    }
}

impl View for Recipient {
    type V = RecipientView;

    closed spec fn view(&self) -> RecipientView {
        RecipientView { ip: self.ip@, alias: opt_chars(self.alias), key: opt_bytes(self.private_key) }
    }
}

fn clone_opt_string(s: &Option<String>) -> (r: Option<String>)
    ensures
        opt_chars(r) == opt_chars(*s),
{
    match s {
        Some(t) => Some(t.clone()),
        None => None,
    }
}

fn clone_bytes(v: &Vec<u8>) -> (r: Vec<u8>)
    ensures
        r@ == v@,
{
    let r = v.clone();
    assert(r@ =~= v@);
    r
}

fn clone_opt_bytes(k: &Option<Vec<u8>>) -> (r: Option<Vec<u8>>)
    ensures
        opt_bytes(r) == opt_bytes(*k),
{
    match k {
        Some(v) => Some(clone_bytes(v)),
        None => None,
    }
}

impl Clone for Recipient {
    fn clone(&self) -> (r: Self)
        ensures
            r@ == self@,
    {
        Recipient {
            ip: self.ip.clone(),
            alias: clone_opt_string(&self.alias),
            private_key: clone_opt_bytes(&self.private_key),
        }
    }
}

impl From<String> for Recipient {
    fn from(ip: String) -> (r: Self) {
        Recipient { ip, alias: None, private_key: None }
    }
}

impl vstd::std_specs::convert::FromSpecImpl<String> for Recipient {
    open spec fn obeys_from_spec() -> bool {
        true
    }

    closed spec fn from_spec(ip: String) -> Recipient {
        Recipient { ip, alias: None, private_key: None }
    }
}

impl<'a> From<&'a str> for Recipient {
    fn from(ip: &'a str) -> (r: Self)
        ensures
            r@ == (RecipientView { ip: ip@, alias: None, key: None }),
    {
        Recipient { ip: ip.to_owned(), alias: None, private_key: None }
    }
}

/// What a recipient made from a `&str` holds is stated on `from` itself: a
/// `String` cannot be built from a `&str` in a specification, so no
/// `from_spec` is claimed.
impl<'a> vstd::std_specs::convert::FromSpecImpl<&'a str> for Recipient {
    open spec fn obeys_from_spec() -> bool {
        false
    }

    closed spec fn from_spec(ip: &'a str) -> Recipient {
        Recipient { ip: arbitrary(), alias: None, private_key: None }
    }
}

/// A recipient made from an address has that address, no alias and no key.
pub broadcast proof fn lemma_recipient_from(ip: String)
    ensures
        (#[trigger] Recipient::from_spec(ip))@ == (RecipientView {
            ip: ip@,
            alias: None,
            key: None,
        }),
{
}

/// The first recipient in `list` at address `ip`.
pub open spec fn find_recipient(list: Seq<RecipientView>, ip: Seq<char>) -> Option<RecipientView>
    decreases list.len(),
{
    if list.len() == 0 {
        None
    } else if list[0].ip == ip {
        Some(list[0])
    } else {
        find_recipient(list.drop_first(), ip)
    }
}

/// The views of a list of recipients.
pub open spec fn views(list: Seq<Recipient>) -> Seq<RecipientView> {
    list.map_values(|r: Recipient| r@)
}

/// Some recipient in `list` has address `ip`.
pub open spec fn has_ip(list: Seq<RecipientView>, ip: Seq<char>) -> bool {
    exists|i: int| 0 <= i < list.len() && #[trigger] list[i].ip == ip
}

/// No address occurs twice in `list`.
pub open spec fn unique_ips(list: Seq<RecipientView>) -> bool {
    forall|i: int, j: int| 0 <= i < j < list.len() ==> #[trigger] list[i].ip != #[trigger] list[j].ip
}

/// `r` with its alias replaced by `alias`.
pub open spec fn with_alias(r: RecipientView, alias: Option<Seq<char>>) -> RecipientView {
    RecipientView { ip: r.ip, alias, key: r.key }
}

/// `list` with the alias of every recipient at address `ip` replaced.
pub open spec fn aliased(list: Seq<RecipientView>, ip: Seq<char>, alias: Option<Seq<char>>) -> Seq<
    RecipientView,
> {
    list.map_values(
        |r: RecipientView|
            if r.ip == ip {
                with_alias(r, alias)
            } else {
                r
            },
    )
}

/// `list` without the recipients at address `ip`.
pub open spec fn without_ip(list: Seq<RecipientView>, ip: Seq<char>) -> Seq<RecipientView> {
    list.filter(|r: RecipientView| r.ip != ip)
}

proof fn lemma_without_ip_push(list: Seq<RecipientView>, ip: Seq<char>, x: RecipientView)
    ensures
        without_ip(list.push(x), ip) == without_ip(list, ip) + (if x.ip == ip {
            Seq::<RecipientView>::empty()
        } else {
            seq![x]
        }),
{
    reveal_with_fuel(Seq::<_>::filter, 1);
    assert(list.push(x).drop_last() =~= list);
    assert(list.push(x).last() == x);
    if x.ip == ip {
        assert(without_ip(list, ip) + Seq::<RecipientView>::empty() =~= without_ip(list, ip));
    } else {
        assert(without_ip(list, ip) + seq![x] =~= without_ip(list, ip).push(x));
    }
}

proof fn lemma_without_ip_absent(list: Seq<RecipientView>, ip: Seq<char>)
    requires
        forall|i: int| 0 <= i < list.len() ==> (#[trigger] list[i]).ip != ip,
    ensures
        without_ip(list, ip) == list,
    decreases list.len(),
{
    if list.len() == 0 {
        reveal_with_fuel(Seq::<_>::filter, 1);
        assert(without_ip(list, ip) =~= list);
    } else {
        let rest = list.drop_last();
        assert forall|i: int| 0 <= i < rest.len() implies (#[trigger] rest[i]).ip != ip by {
            assert(rest[i] == list[i]);
        }
        lemma_without_ip_absent(rest, ip);
        lemma_without_ip_push(rest, ip, list.last());
        assert(list[list.len() - 1].ip != ip);
        assert(rest.push(list.last()) =~= list);
        assert(rest + seq![list.last()] =~= list);
    }
}

/// Removing the recipients at `ip` keeps every other recipient, in order,
/// and nothing else: no recipient left is at `ip`, every recipient left was
/// in the list, every recipient at another address (even one that begins
/// with `ip`) stays, a list without `ip` is left as it is, and removing
/// from a list with one more recipient at its end removes from the list
/// and keeps that recipient unless it is at `ip`.
pub proof fn lemma_without_ip(list: Seq<RecipientView>, ip: Seq<char>, x: RecipientView)
    ensures
        forall|j: int|
            0 <= j < without_ip(list, ip).len() ==> (#[trigger] without_ip(list, ip)[j]).ip != ip
                && list.contains(without_ip(list, ip)[j]),
        forall|i: int|
            0 <= i < list.len() && (#[trigger] list[i]).ip != ip ==> without_ip(list, ip).contains(
                list[i],
            ),
        (forall|i: int| 0 <= i < list.len() ==> (#[trigger] list[i]).ip != ip) ==> without_ip(
            list,
            ip,
        ) == list,
        without_ip(list.push(x), ip) == without_ip(list, ip) + (if x.ip == ip {
            Seq::<RecipientView>::empty()
        } else {
            seq![x]
        }),
{
    let pred = |r: RecipientView| r.ip != ip;
    let out = without_ip(list, ip);
    assert forall|j: int| 0 <= j < out.len() implies (#[trigger] out[j]).ip != ip && list.contains(
        out[j],
    ) by {
        list.lemma_filter_pred(pred, j);
        list.lemma_filter_contains_rev(pred, out[j]);
    }
    assert forall|i: int| 0 <= i < list.len() && (#[trigger] list[i]).ip != ip implies out.contains(
        list[i],
    ) by {
        list.lemma_filter_contains(pred, i);
    }
    if forall|i: int| 0 <= i < list.len() ==> (#[trigger] list[i]).ip != ip {
        lemma_without_ip_absent(list, ip);
    }
    lemma_without_ip_push(list, ip, x);
}

/// A piece reads as a byte exactly when, after an optional `+`, it is a
/// non-empty run of decimal digits whose whole value is at most 255: every
/// digit counts, so a longer run of digits never reads as its first few,
/// and a run of digits worth 26 or more with one more digit does not read.
pub proof fn lemma_parses_as_u8(s: Seq<char>)
    ensures
        parses_as_u8(s) <==> ({
            &&& unsigned_digits(s).len() > 0
            &&& forall|i: int|
                0 <= i < unsigned_digits(s).len() ==> '0' <= #[trigger] unsigned_digits(s)[i]
                    <= '9'
            &&& digits_value(unsigned_digits(s)) <= 255
        }),
        forall|c: char|
            '0' <= c <= '9' && (forall|i: int| 0 <= i < s.len() ==> '0' <= #[trigger] s[i] <= '9')
                && digits_value(s) >= 26 ==> !parses_as_u8(#[trigger] s.push(c)),
{
    let d = unsigned_digits(s);
    assert((forall|i: int| 0 <= i < d.len() ==> is_digit(#[trigger] d[i])) <==> (forall|i: int|
        0 <= i < d.len() ==> '0' <= #[trigger] d[i] <= '9'));
    assert forall|c: char|
        '0' <= c <= '9' && (forall|i: int| 0 <= i < s.len() ==> '0' <= #[trigger] s[i] <= '9')
            && digits_value(s) >= 26 implies !parses_as_u8(#[trigger] s.push(c)) by {
        let t = s.push(c);
        assert(t.drop_last() =~= s);
        if s.len() > 0 {
            assert('0' <= s[0] <= '9');
            assert(t[0] == s[0]);
        } else {
            assert(digits_value(s) == 0);
        }
        assert(unsigned_digits(t) == t);
        assert(digits_value(t) == digits_value(s) * 10 + ((c as int - '0' as int) as nat));
    }
}

/// An address is valid only if each of its four dot-separated pieces, after
/// an optional `+`, is wholly decimal digits with a whole value of at most
/// 255.
pub proof fn lemma_valid_ip_pieces(ip: Seq<char>)
    ensures
        spec_is_valid_ip(ip) ==> split_terminator_pieces(ip, '.').len() == 4 && forall|i: int|
            0 <= i < 4 ==> {
                let d = unsigned_digits(#[trigger] split_terminator_pieces(ip, '.')[i]);
                &&& d.len() > 0
                &&& forall|k: int| 0 <= k < d.len() ==> '0' <= #[trigger] d[k] <= '9'
                &&& digits_value(d) <= 255
            },
{
    if spec_is_valid_ip(ip) {
        let p = split_terminator_pieces(ip, '.');
        assert forall|i: int| 0 <= i < 4 implies {
            let d = unsigned_digits(#[trigger] p[i]);
            &&& d.len() > 0
            &&& forall|k: int| 0 <= k < d.len() ==> '0' <= #[trigger] d[k] <= '9'
            &&& digits_value(d) <= 255
        } by {
            assert(parses_as_u8(p[i]));
            let d = unsigned_digits(p[i]);
            assert forall|k: int| 0 <= k < d.len() implies '0' <= #[trigger] d[k] <= '9' by {
                assert(is_digit(d[k]));
            }
        }
    }
}

/// The characters of `full_string`: the address, or the alias followed by
/// the address in parentheses.
pub open spec fn spec_full_string(r: RecipientView) -> Seq<char> {
    match r.alias {
        None => r.ip,
        Some(a) => a + " ("@ + r.ip + ")"@,
    }
}

impl Recipient {
    /// A recipient at `ip` with the given alias and key.
    pub fn new(ip: String, alias: Option<String>, private_key: Option<Vec<u8>>) -> (r: Self)
        ensures
            r@ == (RecipientView { ip: ip@, alias: opt_chars(alias), key: opt_bytes(private_key) }),
    {
        Recipient { ip, alias, private_key }
    }

    /// The address.
    pub fn ip(&self) -> (ip: String)
        ensures
            ip@ == self@.ip,
    {
        self.ip.clone()
    }

    /// The alias, if one is set.
    pub fn alias(&self) -> (alias: Option<String>)
        ensures
            opt_chars(alias) == self@.alias,
    {
        clone_opt_string(&self.alias)
    }

    /// The private key, once one is agreed.
    pub fn private_key(&self) -> (key: Option<Vec<u8>>)
        ensures
            opt_bytes(key) == self@.key,
    {
        clone_opt_bytes(&self.private_key)
    }

    /// Replaces the private key.
    pub fn set_private_key(&mut self, key: Vec<u8>)
        ensures
            final(self)@ == (RecipientView { key: Some(key@), ..old(self)@ }),
    {
        self.private_key = Some(key);
    }

    /// Replaces the alias of this recipient.
    pub fn change_alias(&mut self, alias: Option<String>)
        ensures
            final(self)@ == with_alias(old(self)@, opt_chars(alias)),
    {
        self.alias = alias;
    }

    /// The alias followed by the address in parentheses, or the address
    /// alone where no alias is set.
    pub fn full_string(&self) -> (s: String)
        ensures
            s@ == spec_full_string(self@),
    {
        match &self.alias {
            None => self.ip.clone(),
            Some(a) => {
                let mut s = a.clone();
                s.append(" (");
                s.append(self.ip.as_str());
                s.append(")");
                s
            },
        }
    }

    /// The first recipient in `recipients` at address `ip`.
    pub fn find(recipients: &Vec<Recipient>, ip: &String) -> (found: Option<Recipient>)
        ensures
            match found {
                Some(r) => find_recipient(views(recipients@), ip@) == Some(r@),
                None => find_recipient(views(recipients@), ip@) is None,
            },
    {
        let mut i: usize = 0;
        assert(views(recipients@).skip(0) =~= views(recipients@));
        while i < recipients.len()
            invariant
                i <= recipients.len(),
                find_recipient(views(recipients@), ip@) == find_recipient(
                    views(recipients@).skip(i as int),
                    ip@,
                ),
            decreases recipients.len() - i,
        {
            let ghost rest = views(recipients@).skip(i as int);
            assert(rest[0] == recipients@[i as int]@);
            assert(rest.drop_first() =~= views(recipients@).skip(i as int + 1));
            let rec_ip = recipients[i].ip();
            if rec_ip == *ip {
                return Some(recipients[i].clone());
            }
            i = i + 1;
        }
        None
    }

    /// A copy of the list of recipients.
    pub fn get(list: &Vec<Recipient>) -> (all: Vec<Recipient>)
        ensures
            views(all@) == views(list@),
    {
        let mut all: Vec<Recipient> = Vec::new();
        let mut i: usize = 0;
        while i < list.len()
            invariant
                i <= list.len(),
                all.len() == i,
                views(all@) == views(list@.take(i as int)),
            decreases list.len() - i,
        {
            let ghost before = all@;
            all.push(list[i].clone());
            assert(all@ =~= before.push(all@[i as int]));
            assert(views(all@) =~= views(before).push(list@[i as int]@));
            assert(list@.take(i as int + 1) =~= list@.take(i as int).push(list@[i as int]));
            assert(views(list@.take(i as int + 1)) =~= views(list@.take(i as int)).push(
                list@[i as int]@,
            ));
            i = i + 1;
        }
        assert(list@.take(list.len() as int) =~= list@);
        all
    }

    /// Index of the recipient at `ip` in `list`, if there is one.
    fn position(list: &Vec<Recipient>, ip: &String) -> (pos: Option<usize>)
        ensures
            pos matches Some(i) ==> i < list.len() && list@[i as int]@.ip == ip@,
            pos is None ==> !has_ip(views(list@), ip@),
    {
        let mut i: usize = 0;
        while i < list.len()
            invariant
                i <= list.len(),
                forall|k: int| 0 <= k < i ==> list@[k]@.ip != ip@,
            decreases list.len() - i,
        {
            if list[i].ip == *ip {
                return Some(i);
            }
            i = i + 1;
        }
        assert forall|k: int| 0 <= k < views(list@).len() implies #[trigger] views(list@)[k].ip
            != ip@ by {
            assert(views(list@)[k] == list@[k]@);
        }
        None
    }

    /// Adds `addition` to `list`, unless a recipient at the same address is
    /// already there.
    pub fn add(list: &mut Vec<Recipient>, addition: Recipient)
        ensures
            has_ip(views(old(list)@), addition@.ip) ==> views(final(list)@) == views(old(list)@),
            !has_ip(views(old(list)@), addition@.ip) ==> views(final(list)@) == views(
                old(list)@,
            ).push(addition@),
            has_ip(views(final(list)@), addition@.ip),
            unique_ips(views(old(list)@)) ==> unique_ips(views(final(list)@)),
    {
        let ghost a = addition@;
        match Self::position(list, &addition.ip) {
            Some(i) => {
                assert(views(list@)[i as int].ip == a.ip);
            },
            None => {
                list.push(addition);
                assert(views(list@) =~= views(old(list)@).push(a));
                assert(views(list@)[views(list@).len() - 1].ip == a.ip);
            },
        }
    }

    /// Gives the recipient at the address of `addition` the alias of
    /// `addition`.
    pub fn set_alias(list: &mut Vec<Recipient>, addition: Recipient)
        ensures
            views(final(list)@) == aliased(views(old(list)@), addition@.ip, addition@.alias),
            unique_ips(views(old(list)@)) ==> unique_ips(views(final(list)@)),
    {
        let mut i: usize = 0;
        while i < list.len()
            invariant
                i <= list.len(),
                list.len() == old(list).len(),
                forall|k: int|
                    0 <= k < i ==> #[trigger] list@[k]@ == aliased(
                        views(old(list)@),
                        addition@.ip,
                        addition@.alias,
                    )[k],
                forall|k: int| i <= k < list.len() ==> #[trigger] list@[k] == old(list)@[k],
            decreases list.len() - i,
        {
            if list[i].ip == addition.ip {
                let alias = clone_opt_string(&addition.alias);
                let mut r = list[i].clone();
                r.change_alias(alias);
                list.set(i, r);
            }
            i = i + 1;
        }
        assert(views(list@) =~= aliased(views(old(list)@), addition@.ip, addition@.alias));
    }

    /// Removes the recipient at the address of `removal`, with its alias
    /// and key.
    pub fn remove(list: &mut Vec<Recipient>, removal: Recipient)
        ensures
            views(final(list)@) == without_ip(views(old(list)@), removal@.ip),
            !has_ip(views(final(list)@), removal@.ip),
            unique_ips(views(old(list)@)) ==> unique_ips(views(final(list)@)),
    {
        let ghost ip = removal@.ip;
        let ghost l = views(list@);
        let mut kept: Vec<Recipient> = Vec::new();
        let mut i: usize = 0;
        while i < list.len()
            invariant
                i <= list.len(),
                l == views(list@),
                views(kept@) == without_ip(views(list@.take(i as int)), ip),
                ip == removal@.ip,
                forall|k: int| 0 <= k < kept.len() ==> (#[trigger] kept@[k])@.ip != ip,
                forall|k: int|
                    0 <= k < kept.len() ==> exists|m: int|
                        0 <= m < i && (#[trigger] kept@[k])@.ip == l[m].ip,
                unique_ips(l) ==> unique_ips(views(kept@)),
            decreases list.len() - i,
        {
            reveal_with_fuel(Seq::<_>::filter, 1);
            assert(views(list@.take(i as int + 1)).drop_last() =~= views(list@.take(i as int)));
            assert(views(list@.take(i as int + 1)).last() == l[i as int]);
            if list[i].ip != removal.ip {
                let ghost before = views(kept@);
                kept.push(list[i].clone());
                assert(views(kept@) =~= before.push(l[i as int]));
                proof {
                    if unique_ips(l) {
                        let kv = views(kept@);
                        assert forall|a: int, b: int| 0 <= a < b < kv.len() implies #[trigger] kv[a].ip
                            != #[trigger] kv[b].ip by {
                            if b == kv.len() - 1 {
                                assert(kv[a] == kept@[a]@);
                                let m = choose|m: int| 0 <= m < i && kept@[a]@.ip == l[m].ip;
                                assert(l[m].ip != l[i as int].ip);
                            } else {
                                assert(kv[a] == before[a]);
                                assert(kv[b] == before[b]);
                            }
                        }
                    }
                }
            }
            i = i + 1;
        }
        assert(list@.take(list.len() as int) =~= list@);
        proof {
            let kv = views(kept@);
            assert forall|k: int| 0 <= k < kv.len() implies #[trigger] kv[k].ip != ip by {
                assert(kv[k] == kept@[k]@);
            }
        }
        *list = kept;
    }
}

/// The longest alias, in characters: the longest address with an alias
/// this long still fits the window.
pub const MAX_ALIAS_LENGTH: usize = 28;

/// The longest message, in characters.
pub const MAX_MESSAGE_LENGTH: usize = 2000;

/// Whether `alias` may be set: between 1 and `MAX_ALIAS_LENGTH` characters.
pub fn alias_fits(alias: &str) -> (fits: bool)
    ensures
        fits == (0 < alias@.len() <= MAX_ALIAS_LENGTH),
{
    let l = alias.unicode_len();
    l > 0 && l <= MAX_ALIAS_LENGTH
}

/// Whether `draft` may be sent: between 1 and `MAX_MESSAGE_LENGTH`
/// characters.
pub fn message_fits(draft: &str) -> (fits: bool)
    ensures
        fits == (0 < draft@.len() <= MAX_MESSAGE_LENGTH),
{
    let l = draft.unicode_len();
    l > 0 && l <= MAX_MESSAGE_LENGTH
}

/// Whether `ip` may be added as a recipient: a valid address of at most
/// `MAX_ALIAS_LENGTH` characters.
pub fn new_peer_fits(ip: &str) -> (fits: bool)
    ensures
        fits == (0 < ip@.len() <= MAX_ALIAS_LENGTH && spec_is_valid_ip(ip@)),
{
    let l = ip.unicode_len();
    l > 0 && l <= MAX_ALIAS_LENGTH && _is_valid_ip(ip)
}

/// A message as the specifications see it.
pub struct MessageView {
    pub author: Seq<char>,
    pub content: Seq<char>,
}

/// A chat message and who wrote it ("You" for messages sent from here).
pub struct Message {
    author: String,
    content: String,
}

impl View for Message {
    type V = MessageView;

    closed spec fn view(&self) -> MessageView {
        MessageView { author: self.author@, content: self.content@ }
    }
}

impl Clone for Message {
    fn clone(&self) -> (m: Self)
        ensures
            m@ == self@,
    {
        Message { author: self.author.clone(), content: self.content.clone() }
    }
}

impl Message {
    /// A message written by `author`.
    pub fn new(author: String, content: String) -> (m: Self)
        ensures
            m@ == (MessageView { author: author@, content: content@ }),
    {
        Self { author, content }
    }

    /// Who wrote the message.
    pub fn author(&self) -> (author: String)
        ensures
            author@ == self@.author,
    {
        self.author.clone()
    }

    /// What the message says.
    pub fn content(&self) -> (content: String)
        ensures
            content@ == self@.content,
    {
        self.content.clone()
    }
}

/// The views of a list of messages.
pub open spec fn message_views(list: Seq<Message>) -> Seq<MessageView> {
    list.map_values(|m: Message| m@)
}

/// A chat history as the specifications see it.
pub struct ChatHistoryView {
    pub peer: RecipientView,
    pub history: Seq<MessageView>,
}

/// The messages exchanged with one recipient, oldest first.
pub struct ChatHistory {
    peer: Recipient,
    history: Vec<Message>,
}

impl View for ChatHistory {
    type V = ChatHistoryView;

    closed spec fn view(&self) -> ChatHistoryView {
        ChatHistoryView { peer: self.peer@, history: message_views(self.history@) }
    }
}

/// A copy of a list of messages.
fn clone_messages(list: &Vec<Message>) -> (all: Vec<Message>)
    ensures
        message_views(all@) == message_views(list@),
{
    let mut all: Vec<Message> = Vec::new();
    let mut i: usize = 0;
    while i < list.len()
        invariant
            i <= list.len(),
            all.len() == i,
            forall|k: int| 0 <= k < i ==> (#[trigger] all@[k])@ == list@[k]@,
        decreases list.len() - i,
    {
        all.push(list[i].clone());
        i = i + 1;
    }
    assert(message_views(all@) =~= message_views(list@));
    all
}

impl ChatHistory {
    /// An empty history with `peer`.
    pub fn new(peer: Recipient) -> (h: Self)
        ensures
            h@ == (ChatHistoryView { peer: peer@, history: Seq::empty() }),
    {
        let h = ChatHistory { peer, history: Vec::new() };
        assert(message_views(h.history@) =~= Seq::<MessageView>::empty());
        h
    }

    /// Appends a message.
    pub fn push_msg(&mut self, message: Message)
        ensures
            final(self)@ == (ChatHistoryView {
                peer: old(self)@.peer,
                history: old(self)@.history.push(message@),
            }),
    {
        let ghost m = message@;
        self.history.push(message);
        assert(message_views(self.history@) =~= message_views(old(self).history@).push(m));
    }

    /// The recipient of this history.
    pub fn peer(&self) -> (peer: Recipient)
        ensures
            peer@ == self@.peer,
    {
        self.peer.clone()
    }

    /// The messages, oldest first.
    pub fn history(&self) -> (history: Vec<Message>)
        ensures
            message_views(history@) == self@.history,
    {
        clone_messages(&self.history)
    }
}

/// The pieces of `s` between separators `sep`, as `str::split` gives them.
pub open spec fn split_pieces(s: Seq<char>, sep: char) -> Seq<Seq<char>>
    decreases s.len(),
{
    if s.len() == 0 {
        seq![Seq::empty()]
    } else {
        let rest = split_pieces(s.drop_last(), sep);
        if s.last() == sep {
            rest.push(Seq::empty())
        } else {
            rest.update(rest.len() - 1, rest.last().push(s.last()))
        }
    }
}

/// The pieces of `s` between separators `sep`, as `str::split_terminator`
/// gives them: those of `split`, without a last piece that is empty.
pub open spec fn split_terminator_pieces(s: Seq<char>, sep: char) -> Seq<Seq<char>> {
    let p = split_pieces(s, sep);
    if p.last().len() == 0 {
        p.drop_last()
    } else {
        p
    }
}

proof fn lemma_split_pieces_len(s: Seq<char>, sep: char)
    ensures
        split_pieces(s, sep).len() >= 1,
    decreases s.len(),
{
    if s.len() > 0 {
        lemma_split_pieces_len(s.drop_last(), sep);
    }
}

/// A decimal digit.
pub open spec fn is_digit(c: char) -> bool {
    '0' <= c <= '9'
}

/// The value of a string of decimal digits.
pub open spec fn digits_value(d: Seq<char>) -> nat
    decreases d.len(),
{
    if d.len() == 0 {
        0
    } else {
        digits_value(d.drop_last()) * 10 + ((d.last() as int - '0' as int) as nat)
    }
}

/// `s` without a leading `+`.
pub open spec fn unsigned_digits(s: Seq<char>) -> Seq<char> {
    if s.len() > 0 && s[0] == '+' {
        s.drop_first()
    } else {
        s
    }
}

/// `s` reads as a byte the way `str::parse::<u8>` reads it: an optional
/// `+`, then at least one decimal digit, with a value of at most 255.
pub open spec fn parses_as_u8(s: Seq<char>) -> bool {
    let d = unsigned_digits(s);
    &&& d.len() > 0
    &&& forall|i: int| 0 <= i < d.len() ==> is_digit(#[trigger] d[i])
    &&& digits_value(d) <= 255
}

proof fn lemma_digits_value_grows(d: Seq<char>, i: int)
    requires
        0 <= i <= d.len(),
        forall|k: int| 0 <= k < d.len() ==> is_digit(#[trigger] d[k]),
    ensures
        digits_value(d.take(i)) <= digits_value(d),
    decreases d.len() - i,
{
    if i < d.len() {
        lemma_digits_value_grows(d, i + 1);
        assert(d.take(i + 1).drop_last() =~= d.take(i));
        assert(is_digit(d[i]));
    } else {
        assert(d.take(i) =~= d);
    }
}

/// Whether `piece` reads as a byte, as `str::parse::<u8>` decides it.
fn parses_u8(piece: &Vec<char>) -> (r: bool)
    ensures
        r == parses_as_u8(piece@),
{
    let n = piece.len();
    let start: usize = if n > 0 && piece[0] == '+' {
        1
    } else {
        0
    };
    let ghost d = unsigned_digits(piece@);
    assert(d =~= piece@.skip(start as int));
    if start >= n {
        return false;
    }
    let mut value: u32 = 0;
    let mut i: usize = start;
    while i < n
        invariant
            n == piece.len(),
            start <= i <= n,
            start < n,
            d == piece@.skip(start as int),
            d == unsigned_digits(piece@),
            forall|k: int| start <= k < i ==> is_digit(#[trigger] piece@[k]),
            value == digits_value(d.take(i - start)),
            value <= 255,
        decreases n - i,
    {
        let c = piece[i];
        if !('0' <= c && c <= '9') {
            assert(d[i - start] == piece@[i as int]);
            assert(!is_digit(d[i - start]));
            return false;
        }
        assert(d.take(i - start + 1).drop_last() =~= d.take(i - start));
        assert(d.take(i - start + 1).last() == c);
        let digit = (c as u32) - ('0' as u32);
        let next = value * 10 + digit;
        if next > 255 {
            proof {
                let j = i + 1;
                if forall|k: int| 0 <= k < d.len() ==> is_digit(#[trigger] d[k]) {
                    lemma_digits_value_grows(d, j - start);
                }
            }
            return false;
        }
        value = next;
        i = i + 1;
    }
    assert(d.take(n - start) =~= d);
    true
}

/// The characters of a list of character vectors.
pub open spec fn piece_views(p: Seq<Vec<char>>) -> Seq<Seq<char>> {
    p.map_values(|v: Vec<char>| v@)
}

/// Splits `s` at each `sep`, dropping an empty last piece, as
/// `str::split_terminator` does.
fn split_terminator(s: &str, sep: char) -> (pieces: Vec<Vec<char>>)
    ensures
        piece_views(pieces@) == split_terminator_pieces(s@, sep),
{
    broadcast use vstd::string::group_string_axioms;

    let ghost total = s@;
    let mut pieces: Vec<Vec<char>> = Vec::new();
    pieces.push(Vec::new());
    assert(piece_views(pieces@) =~= split_pieces(total.take(0), sep));
    for c in it: s.chars()
        invariant
            it.seq() == total,
            piece_views(pieces@) == split_pieces(total.take(it.index() as int), sep),
    {
        let ghost i = it.index() as int;
        let ghost prefix = total.take(i + 1);
        assert(prefix.drop_last() =~= total.take(i));
        assert(prefix.last() == c);
        proof {
            lemma_split_pieces_len(total.take(i), sep);
        }
        if c == sep {
            pieces.push(Vec::new());
            assert(piece_views(pieces@) =~= split_pieces(prefix, sep));
        } else {
            let ghost before = pieces@;
            let mut last = pieces.pop().unwrap();
            last.push(c);
            pieces.push(last);
            assert(piece_views(pieces@) =~= split_pieces(prefix, sep));
        }
    }
    assert(total.take(total.len() as int) =~= total);
    proof {
        lemma_split_pieces_len(total, sep);
    }
    let n = pieces.len();
    if pieces[n - 1].len() == 0 {
        let _ = pieces.pop();
        assert(piece_views(pieces@) =~= split_terminator_pieces(total, sep));
    }
    pieces
}

/// `ip` is four pieces separated by dots, each of which reads as a byte.
pub open spec fn spec_is_valid_ip(ip: Seq<char>) -> bool {
    let p = split_terminator_pieces(ip, '.');
    p.len() == 4 && forall|i: int| 0 <= i < 4 ==> parses_as_u8(#[trigger] p[i])
}

/// Whether `ip` is a dotted IPv4 address: four pieces separated by dots,
/// each of which reads as a byte.
pub fn _is_valid_ip(ip: &str) -> (valid: bool)
    ensures
        valid == spec_is_valid_ip(ip@),
{
    let pieces = split_terminator(ip, '.');
    let ghost p = split_terminator_pieces(ip@, '.');
    if pieces.len() != 4 {
        return false;
    }
    let mut i: usize = 0;
    while i < 4
        invariant
            pieces.len() == 4,
            piece_views(pieces@) == p,
            p == split_terminator_pieces(ip@, '.'),
            i <= 4,
            forall|k: int| 0 <= k < i ==> parses_as_u8(#[trigger] p[k]),
        decreases 4 - i,
    {
        assert(p[i as int] == pieces@[i as int]@);
        if !parses_u8(&pieces[i]) {
            return false;
        }
        i = i + 1;
    }
    true
}

} // verus!
