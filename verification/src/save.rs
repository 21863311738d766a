//! The on-disk format of the recipient list and the chat histories.
//!
//! The recipients file holds one record per recipient: the address, a zero
//! byte, the alias (empty where there is none), a zero byte, the private key
//! (empty where there is none) and a newline. The history file holds, per
//! history, the address and a newline, then each message (a zero byte first
//! where it was sent from here) followed by a newline, and one more newline
//! to close the history. Text is written as UTF-8 and read back one byte per
//! character.
use vstd::prelude::*;
use vstd::utf8::{encode_utf8, is_ascii_chars, is_ascii_chars_encode_utf8};
use crate::msg::{Recipient, RecipientView, Message, MessageView, ChatHistory, ChatHistoryView,
    views, message_views, find_recipient};
use crate::tcp::vector::{same_text, push_char};
use crate::comms::KEY_SIZE;

verus! {

/// The UTF-8 bytes of an optional text, nothing where there is none.
pub open spec fn opt_utf8(s: Option<Seq<char>>) -> Seq<u8> {
    match s {
        Some(t) => encode_utf8(t),
        None => seq![],
    }
}

/// The bytes of an optional key, nothing where there is none.
pub open spec fn opt_key(k: Option<Seq<u8>>) -> Seq<u8> {
    match k {
        Some(b) => b,
        None => seq![],
    }
}

/// The record of one recipient in the recipients file.
pub open spec fn recipient_record(r: RecipientView) -> Seq<u8> {
    encode_utf8(r.ip) + seq![0u8] + opt_utf8(r.alias) + seq![0u8] + opt_key(r.key) + seq![10u8]
}

/// The recipients file for `list`; recipients at address "None" are left
/// out.
pub open spec fn spec_encode_recipients(list: Seq<RecipientView>) -> Seq<u8>
    decreases list.len(),
{
    if list.len() == 0 {
        seq![]
    } else {
        spec_encode_recipients(list.drop_last()) + if list.last().ip == "None"@ {
            seq![]
        } else {
            recipient_record(list.last())
        }
    }
}

/// Appends `bytes` to `buf`.
fn append_bytes(buf: &mut Vec<u8>, bytes: &[u8])
    ensures
        final(buf)@ == old(buf)@ + bytes@,
{
    let mut i: usize = 0;
    while i < bytes.len()
        invariant
            i <= bytes.len(),
            buf@ == old(buf)@ + bytes@.take(i as int),
        decreases bytes.len() - i,
    {
        buf.push(bytes[i]);
        assert(bytes@.take(i as int + 1) =~= bytes@.take(i as int).push(bytes@[i as int]));
        i = i + 1;
    }
    assert(bytes@.take(bytes.len() as int) =~= bytes@);
}

/// Appends the UTF-8 bytes of `s` to `buf`.
fn append_text(buf: &mut Vec<u8>, s: &String)
    ensures
        final(buf)@ == old(buf)@ + encode_utf8(s@),
{
    append_bytes(buf, s.as_str().as_bytes());
}

/// The bytes of the recipients file for `recipient_list`.
pub fn encode_recipients(recipient_list: &Vec<Recipient>) -> (buf: Vec<u8>)
    ensures
        buf@ == spec_encode_recipients(views(recipient_list@)),
{
    let mut buf: Vec<u8> = Vec::new();
    let mut i: usize = 0;
    while i < recipient_list.len()
        invariant
            i <= recipient_list.len(),
            buf@ == spec_encode_recipients(views(recipient_list@.take(i as int))),
        decreases recipient_list.len() - i,
    {
        let rec = &recipient_list[i];
        let ghost r = rec@;
        assert(views(recipient_list@.take(i as int + 1)).drop_last() =~= views(
            recipient_list@.take(i as int),
        ));
        assert(views(recipient_list@.take(i as int + 1)).last() == r);
        let ip = rec.ip();
        if !same_text(ip.as_str(), "None") {
            append_text(&mut buf, &ip);
            buf.push(0u8);
            if let Some(alias) = rec.alias() {
                append_text(&mut buf, &alias);
            }
            buf.push(0u8);
            if let Some(key) = rec.private_key() {
                append_bytes(&mut buf, key.as_slice());
            }
            buf.push(10u8);
            assert(buf@ =~= spec_encode_recipients(views(recipient_list@.take(i as int)))
                + recipient_record(r));
        } else {
            assert(buf@ =~= spec_encode_recipients(views(recipient_list@.take(i as int + 1))));
        }
        i = i + 1;
    }
    assert(recipient_list@.take(recipient_list.len() as int) =~= recipient_list@);
    buf
}

/// Where a reader of the recipients file stands: in which field of a record
/// (0 address, 1 alias, 2 key), what it has read of the record so far, and
/// the recipients it has finished.
pub struct RecipientReader {
    pub mode: int,
    pub ip: Seq<char>,
    pub alias: Seq<char>,
    pub key: Seq<u8>,
    pub done: Seq<RecipientView>,
}

/// The reader at the start of the file.
pub open spec fn recipient_reader_start() -> RecipientReader {
    RecipientReader { mode: 0, ip: seq![], alias: seq![], key: seq![], done: seq![] }
}

/// The recipient that a finished record stands for: an empty alias is no
/// alias, and a key of the wrong length is no key.
pub open spec fn finished_recipient(st: RecipientReader) -> RecipientView {
    RecipientView {
        ip: st.ip,
        alias: if st.alias.len() > 0 {
            Some(st.alias)
        } else {
            None
        },
        key: if st.key.len() == KEY_SIZE {
            Some(st.key)
        } else {
            None
        },
    }
}

/// The reader after one more byte.
pub open spec fn read_recipient_byte(st: RecipientReader, b: u8) -> RecipientReader {
    if st.mode == 0 {
        if b == 0 {
            RecipientReader { mode: 1, ..st }
        } else {
            RecipientReader { ip: st.ip.push(b as char), ..st }
        }
    } else if st.mode == 1 {
        if b == 0 {
            RecipientReader { mode: 2, ..st }
        } else {
            RecipientReader { alias: st.alias.push(b as char), ..st }
        }
    } else {
        if b == 10 {
            RecipientReader {
                mode: 0,
                ip: seq![],
                alias: seq![],
                key: seq![],
                done: st.done.push(finished_recipient(st)),
            }
        } else {
            RecipientReader { key: st.key.push(b), ..st }
        }
    }
}

/// The reader after `bytes`, starting from `st`.
pub open spec fn read_recipients_from(st: RecipientReader, bytes: Seq<u8>) -> RecipientReader
    decreases bytes.len(),
{
    if bytes.len() == 0 {
        st
    } else {
        read_recipient_byte(read_recipients_from(st, bytes.drop_last()), bytes.last())
    }
}

/// The recipients read from the recipients file `bytes`; an unfinished last
/// record is dropped.
pub open spec fn spec_decode_recipients(bytes: Seq<u8>) -> Seq<RecipientView> {
    read_recipients_from(recipient_reader_start(), bytes).done
}

/// Reads the recipients file.
pub fn decode_recipients(recipient_data: &Vec<u8>) -> (recipients: Vec<Recipient>)
    ensures
        views(recipients@) == spec_decode_recipients(recipient_data@),
{
    let mut ip = String::new();
    let mut alias = String::new();
    let mut key: Vec<u8> = Vec::new();
    let mut mode: u8 = 0;
    let mut recipients: Vec<Recipient> = Vec::new();
    let mut i: usize = 0;
    while i < recipient_data.len()
        invariant
            i <= recipient_data.len(),
            mode <= 2,
            ({
                let st = read_recipients_from(recipient_reader_start(), recipient_data@.take(i as int));
                &&& st.mode == mode as int
                &&& st.ip == ip@
                &&& st.alias == alias@
                &&& st.key == key@
                &&& st.done == views(recipients@)
            }),
        decreases recipient_data.len() - i,
    {
        let byte = recipient_data[i];
        assert(recipient_data@.take(i as int + 1).drop_last() =~= recipient_data@.take(i as int));
        assert(recipient_data@.take(i as int + 1).last() == byte);
        if mode == 0 {
            if byte == 0 {
                mode = 1;
            } else {
                push_char(&mut ip, byte as char);
            }
        } else if mode == 1 {
            if byte == 0 {
                mode = 2;
            } else {
                push_char(&mut alias, byte as char);
            }
        } else {
            if byte == 10 {
                let rec_alias = if alias.as_str().is_empty() {
                    None
                } else {
                    Some(alias.clone())
                };
                let rec_key = if key.len() == KEY_SIZE {
                    Some(key.clone())
                } else {
                    None
                };
                let ghost before = recipients@;
                let rec = Recipient::new(ip.clone(), rec_alias, rec_key);
                recipients.push(rec);
                assert(views(recipients@) =~= views(before).push(rec@));
                ip = String::new();
                alias = String::new();
                key = Vec::new();
                mode = 0;
            } else {
                key.push(byte);
            }
        }
        i = i + 1;
    }
    assert(recipient_data@.take(recipient_data.len() as int) =~= recipient_data@);
    recipients
}

/// The bytes of an ASCII text, one per character.
pub open spec fn ascii_bytes(s: Seq<char>) -> Seq<u8> {
    Seq::new(s.len(), |i: int| s[i] as u8)
}

/// Text that reads back from the files as it was written: ASCII, without
/// zero characters.
pub open spec fn plain_text(s: Seq<char>) -> bool {
    &&& is_ascii_chars(s)
    &&& forall|i: int| 0 <= i < s.len() ==> s[i] != '\0'
}

proof fn lemma_plain_text_bytes(s: Seq<char>)
    requires
        plain_text(s),
    ensures
        encode_utf8(s) == ascii_bytes(s),
        forall|i: int| 0 <= i < s.len() ==> (#[trigger] ascii_bytes(s)[i]) != 0 && ascii_bytes(s)[i]
            as char == s[i],
{
    is_ascii_chars_encode_utf8(s);
    assert(encode_utf8(s) =~= ascii_bytes(s));
    assert forall|i: int| 0 <= i < s.len() implies (#[trigger] ascii_bytes(s)[i]) != 0
        && ascii_bytes(s)[i] as char == s[i] by {
        assert('\0' <= s[i] <= '\u{7f}');
    }
}

proof fn lemma_recipients_concat(st: RecipientReader, a: Seq<u8>, b: Seq<u8>)
    ensures
        read_recipients_from(st, a + b) == read_recipients_from(read_recipients_from(st, a), b),
    decreases b.len(),
{
    if b.len() == 0 {
        assert(a + b =~= a);
    } else {
        lemma_recipients_concat(st, a, b.drop_last());
        assert((a + b).drop_last() =~= a + b.drop_last());
    }
}

proof fn lemma_read_recipient_text(st: RecipientReader, s: Seq<char>)
    requires
        st.mode == 0 || st.mode == 1,
        plain_text(s),
    ensures
        read_recipients_from(st, ascii_bytes(s)) == (if st.mode == 0 {
            RecipientReader { ip: st.ip + s, ..st }
        } else {
            RecipientReader { alias: st.alias + s, ..st }
        }),
    decreases s.len(),
{
    lemma_plain_text_bytes(s);
    if s.len() == 0 {
        assert(st.ip + s =~= st.ip);
        assert(st.alias + s =~= st.alias);
    } else {
        let t = s.drop_last();
        assert(plain_text(t));
        lemma_read_recipient_text(st, t);
        assert(ascii_bytes(s).drop_last() =~= ascii_bytes(t));
        assert(st.ip + s =~= (st.ip + t).push(s.last()));
        assert(st.alias + s =~= (st.alias + t).push(s.last()));
    }
}

proof fn lemma_read_one_recipient_byte(st: RecipientReader, b: u8)
    ensures
        read_recipients_from(st, seq![b]) == read_recipient_byte(st, b),
{
    assert(seq![b].drop_last() =~= Seq::<u8>::empty());
    assert(read_recipients_from(st, Seq::<u8>::empty()) == st);
}

proof fn lemma_read_recipient_key(st: RecipientReader, k: Seq<u8>)
    requires
        st.mode == 2,
        forall|i: int| 0 <= i < k.len() ==> k[i] != 10,
    ensures
        read_recipients_from(st, k) == (RecipientReader { key: st.key + k, ..st }),
    decreases k.len(),
{
    if k.len() == 0 {
        assert(st.key + k =~= st.key);
    } else {
        lemma_read_recipient_key(st, k.drop_last());
        assert(st.key + k =~= (st.key + k.drop_last()).push(k.last()));
    }
}

/// A recipient that the recipients file gives back as it was: plain
/// address other than "None", a plain non-empty alias if any, and a key of
/// `KEY_SIZE` bytes without a newline byte if any.
pub open spec fn storable_recipient(r: RecipientView) -> bool {
    &&& plain_text(r.ip)
    &&& r.ip != "None"@
    &&& (r.alias matches Some(a) ==> a.len() > 0 && plain_text(a))
    &&& (r.key matches Some(k) ==> k.len() == KEY_SIZE && forall|i: int|
        0 <= i < k.len() ==> k[i] != 10)
}

proof fn lemma_read_record(d: Seq<RecipientView>, r: RecipientView)
    requires
        storable_recipient(r),
    ensures
        read_recipients_from(
            RecipientReader { mode: 0, ip: seq![], alias: seq![], key: seq![], done: d },
            recipient_record(r),
        ) == (RecipientReader { mode: 0, ip: seq![], alias: seq![], key: seq![], done: d.push(r) }),
{
    let st0 = RecipientReader { mode: 0, ip: seq![], alias: seq![], key: seq![], done: d };
    let alias = match r.alias {
        Some(a) => a,
        None => seq![],
    };
    lemma_plain_text_bytes(r.ip);
    assert(plain_text(alias));
    lemma_plain_text_bytes(alias);
    assert(opt_utf8(r.alias) == ascii_bytes(alias));
    let k = opt_key(r.key);
    let p1 = encode_utf8(r.ip);
    let p2 = p1 + seq![0u8];
    let p3 = p2 + opt_utf8(r.alias);
    let p4 = p3 + seq![0u8];
    let p5 = p4 + k;
    assert(recipient_record(r) == p5 + seq![10u8]);
    lemma_recipients_concat(st0, p1, seq![0u8]);
    lemma_recipients_concat(st0, p2, opt_utf8(r.alias));
    lemma_recipients_concat(st0, p3, seq![0u8]);
    lemma_recipients_concat(st0, p4, k);
    lemma_recipients_concat(st0, p5, seq![10u8]);
    lemma_read_recipient_text(st0, r.ip);
    assert(seq![] + r.ip =~= r.ip);
    let st1 = RecipientReader { ip: r.ip, ..st0 };
    lemma_read_one_recipient_byte(st1, 0u8);
    let st2 = RecipientReader { mode: 1, ..st1 };
    lemma_read_recipient_text(st2, alias);
    assert(seq![] + alias =~= alias);
    let st3 = RecipientReader { alias, ..st2 };
    lemma_read_one_recipient_byte(st3, 0u8);
    let st4 = RecipientReader { mode: 2, ..st3 };
    lemma_read_recipient_key(st4, k);
    assert(seq![] + k =~= k);
    let st5 = RecipientReader { key: k, ..st4 };
    lemma_read_one_recipient_byte(st5, 10u8);
    assert(finished_recipient(st5) == r);
}

/// The recipients file gives back the list it was written from, as long as
/// every recipient in it is storable.
pub proof fn lemma_recipients_roundtrip(list: Seq<RecipientView>)
    requires
        forall|i: int| 0 <= i < list.len() ==> storable_recipient(#[trigger] list[i]),
    ensures
        spec_decode_recipients(spec_encode_recipients(list)) == list,
{
    lemma_recipients_whole(list);
}

proof fn lemma_recipients_whole(list: Seq<RecipientView>)
    requires
        forall|i: int| 0 <= i < list.len() ==> storable_recipient(#[trigger] list[i]),
    ensures
        read_recipients_from(recipient_reader_start(), spec_encode_recipients(list)) == (RecipientReader {
            mode: 0,
            ip: seq![],
            alias: seq![],
            key: seq![],
            done: list,
        }),
    decreases list.len(),
{
    let st0 = recipient_reader_start();
    if list.len() == 0 {
        assert(spec_encode_recipients(list) =~= Seq::<u8>::empty());
        assert(read_recipients_from(st0, Seq::<u8>::empty()) == st0);
        assert(list =~= Seq::<RecipientView>::empty());
    } else {
        let rest = list.drop_last();
        assert forall|i: int| 0 <= i < rest.len() implies storable_recipient(#[trigger] rest[i]) by {
            assert(rest[i] == list[i]);
        }
        lemma_recipients_whole(rest);
        assert(storable_recipient(list[list.len() - 1]));
        assert(spec_encode_recipients(list) == spec_encode_recipients(rest) + recipient_record(
            list.last(),
        ));
        lemma_recipients_concat(st0, spec_encode_recipients(rest), recipient_record(list.last()));
        lemma_read_record(rest, list.last());
        assert(rest.push(list.last()) =~= list);
    }
}

/// The record of one message in the history file.
pub open spec fn message_record(m: MessageView) -> Seq<u8> {
    (if m.author == "You"@ {
        seq![0u8]
    } else {
        seq![]
    }) + encode_utf8(m.content) + seq![10u8]
}

/// The records of a list of messages.
pub open spec fn messages_bytes(ms: Seq<MessageView>) -> Seq<u8>
    decreases ms.len(),
{
    if ms.len() == 0 {
        seq![]
    } else {
        messages_bytes(ms.drop_last()) + message_record(ms.last())
    }
}

/// The record of one chat history in the history file.
pub open spec fn history_record(h: ChatHistoryView) -> Seq<u8> {
    encode_utf8(h.peer.ip) + seq![10u8] + messages_bytes(h.history) + seq![10u8]
}

/// The views of a list of chat histories.
pub open spec fn history_views(list: Seq<ChatHistory>) -> Seq<ChatHistoryView> {
    list.map_values(|h: ChatHistory| h@)
}

/// The history file for `list`; histories with a recipient at address
/// "None" are left out.
pub open spec fn spec_encode_histories(list: Seq<ChatHistoryView>) -> Seq<u8>
    decreases list.len(),
{
    if list.len() == 0 {
        seq![]
    } else {
        spec_encode_histories(list.drop_last()) + if list.last().peer.ip == "None"@ {
            seq![]
        } else {
            history_record(list.last())
        }
    }
}

/// The bytes of the history file for `chat_history`.
pub fn encode_histories(chat_history: &Vec<ChatHistory>) -> (buf: Vec<u8>)
    ensures
        buf@ == spec_encode_histories(history_views(chat_history@)),
{
    let mut buf: Vec<u8> = Vec::new();
    let mut i: usize = 0;
    while i < chat_history.len()
        invariant
            i <= chat_history.len(),
            buf@ == spec_encode_histories(history_views(chat_history@.take(i as int))),
        decreases chat_history.len() - i,
    {
        let history = &chat_history[i];
        let ghost h = history@;
        assert(history_views(chat_history@.take(i as int + 1)).drop_last() =~= history_views(
            chat_history@.take(i as int),
        ));
        assert(history_views(chat_history@.take(i as int + 1)).last() == h);
        let ip = history.peer().ip();
        if !same_text(ip.as_str(), "None") {
            let ghost start = buf@;
            append_text(&mut buf, &ip);
            buf.push(10u8);
            let ghost head = buf@;
            let messages = history.history();
            let mut j: usize = 0;
            while j < messages.len()
                invariant
                    j <= messages.len(),
                    message_views(messages@) == h.history,
                    buf@ == head + messages_bytes(h.history.take(j as int)),
                decreases messages.len() - j,
            {
                let msg = &messages[j];
                assert(message_views(messages@)[j as int] == msg@);
                assert(h.history.take(j as int + 1).drop_last() =~= h.history.take(j as int));
                let ghost before = buf@;
                let author = msg.author();
                if same_text(author.as_str(), "You") {
                    buf.push(0u8);
                }
                let content = msg.content();
                append_text(&mut buf, &content);
                buf.push(10u8);
                assert(buf@ =~= before + message_record(msg@));
                j = j + 1;
            }
            assert(h.history.take(messages.len() as int) =~= h.history);
            buf.push(10u8);
            assert(buf@ =~= start + history_record(h));
        }
        i = i + 1;
    }
    assert(chat_history@.take(chat_history.len() as int) =~= chat_history@);
    buf
}

/// Where a reader of the history file stands: reading an address (mode 0)
/// or messages (mode 1), the address, message and messages read so far, how
/// many newlines in a row it has just read, whether the message being read
/// was sent from here, the histories it has finished, and whether it met a
/// history whose address is not among the recipients.
pub struct HistoryReader {
    pub mode: int,
    pub ip: Seq<char>,
    pub message: Seq<char>,
    pub messages: Seq<MessageView>,
    pub newlines: int,
    pub you: bool,
    pub done: Seq<ChatHistoryView>,
    pub failed: bool,
}

/// The reader at the start of the file.
pub open spec fn history_reader_start() -> HistoryReader {
    HistoryReader {
        mode: 0,
        ip: seq![],
        message: seq![],
        messages: seq![],
        newlines: 0,
        you: false,
        done: seq![],
        failed: false,
    }
}

/// The reader after one more byte; `recipients` are those read from the
/// recipients file.
pub open spec fn read_history_byte(recipients: Seq<RecipientView>, st: HistoryReader, b: u8) -> HistoryReader {
    if st.failed {
        st
    } else if st.mode == 0 {
        if b == 10 {
            HistoryReader { mode: 1, ..st }
        } else {
            HistoryReader { ip: st.ip.push(b as char), ..st }
        }
    } else if b == 10 {
        if st.newlines + 1 == 2 {
            match find_recipient(recipients, st.ip) {
                None => HistoryReader { failed: true, ..st },
                Some(r) => HistoryReader {
                    mode: 0,
                    ip: seq![],
                    message: seq![],
                    messages: seq![],
                    newlines: 0,
                    you: false,
                    done: st.done.push(ChatHistoryView { peer: r, history: st.messages }),
                    failed: false,
                },
            }
        } else {
            HistoryReader {
                message: seq![],
                messages: st.messages.push(
                    MessageView {
                        author: if st.you {
                            "You"@
                        } else {
                            st.ip
                        },
                        content: st.message,
                    },
                ),
                newlines: st.newlines + 1,
                you: false,
                ..st
            }
        }
    } else if b == 0 {
        HistoryReader { newlines: 0, you: true, ..st }
    } else {
        HistoryReader { newlines: 0, message: st.message.push(b as char), ..st }
    }
}

/// The reader after `bytes`, starting from `st`.
pub open spec fn read_histories_from(recipients: Seq<RecipientView>, st: HistoryReader, bytes: Seq<u8>) -> HistoryReader
    decreases bytes.len(),
{
    if bytes.len() == 0 {
        st
    } else {
        read_history_byte(recipients, read_histories_from(recipients, st, bytes.drop_last()), bytes.last())
    }
}

/// The chat histories read from the history file `bytes`, each with the
/// first recipient at its address; none where a history's address is not
/// among the recipients. An unfinished last history is dropped.
pub open spec fn spec_decode_histories(recipients: Seq<RecipientView>, bytes: Seq<u8>) -> Option<
    Seq<ChatHistoryView>,
> {
    let st = read_histories_from(recipients, history_reader_start(), bytes);
    if st.failed {
        None
    } else {
        Some(st.done)
    }
}

/// Reads the history file, looking up each history's recipient in
/// `recipients`. Returns `None` where a history's address is not among
/// them.
pub fn decode_histories(recipients: &Vec<Recipient>, history_data: &Vec<u8>) -> (histories: Option<Vec<ChatHistory>>)
    ensures
        match histories {
            Some(h) => spec_decode_histories(views(recipients@), history_data@) == Some(history_views(h@)),
            None => spec_decode_histories(views(recipients@), history_data@) is None,
        },
{
    let ghost rs = views(recipients@);
    let mut ip = String::new();
    let mut message_read = String::new();
    let mut messages: Vec<Message> = Vec::new();
    let mut newline_count: u8 = 0;
    let mut mode: u8 = 0;
    let mut you = false;
    let mut histories: Vec<ChatHistory> = Vec::new();
    let mut i: usize = 0;
    while i < history_data.len()
        invariant
            i <= history_data.len(),
            rs == views(recipients@),
            mode <= 1,
            newline_count <= 1,
            ({
                let st = read_histories_from(rs, history_reader_start(), history_data@.take(i as int));
                &&& !st.failed
                &&& st.mode == mode as int
                &&& st.ip == ip@
                &&& st.message == message_read@
                &&& st.messages == message_views(messages@)
                &&& st.newlines == newline_count as int
                &&& st.you == you
                &&& st.done == history_views(histories@)
            }),
        decreases history_data.len() - i,
    {
        let byte = history_data[i];
        assert(history_data@.take(i as int + 1).drop_last() =~= history_data@.take(i as int));
        assert(history_data@.take(i as int + 1).last() == byte);
        if mode == 0 {
            if byte == 10 {
                mode = 1;
            } else {
                push_char(&mut ip, byte as char);
            }
        } else {
            if byte == 10 {
                newline_count = newline_count + 1;
                if newline_count == 2 {
                    let rec = match Recipient::find(recipients, &ip) {
                        Some(r) => r,
                        None => {
                            proof {
                                assert(history_data@.take(history_data.len() as int)
                                    =~= history_data@);
                                lemma_failed_stays(
                                    rs,
                                    history_reader_start(),
                                    history_data@.take(i as int + 1),
                                    history_data@.skip(i as int + 1),
                                );
                                assert(history_data@.take(i as int + 1) + history_data@.skip(
                                    i as int + 1,
                                ) =~= history_data@);
                            }
                            return None;
                        },
                    };
                    let mut chathistory = ChatHistory::new(rec);
                    let mut j: usize = 0;
                    while j < messages.len()
                        invariant
                            j <= messages.len(),
                            chathistory@.peer == rec@,
                            chathistory@.history == message_views(messages@.take(j as int)),
                        decreases messages.len() - j,
                    {
                        assert(message_views(messages@.take(j as int + 1)) =~= message_views(
                            messages@.take(j as int),
                        ).push(messages@[j as int]@));
                        chathistory.push_msg(messages[j].clone());
                        j = j + 1;
                    }
                    assert(messages@.take(messages.len() as int) =~= messages@);
                    let ghost before = histories@;
                    histories.push(chathistory);
                    assert(history_views(histories@) =~= history_views(before).push(
                        chathistory@,
                    ));
                    ip = String::new();
                    message_read = String::new();
                    messages = Vec::new();
                    assert(message_views(messages@) =~= Seq::<MessageView>::empty());
                    newline_count = 0;
                    mode = 0;
                } else {
                    let author = if you {
                        String::from_str("You")
                    } else {
                        ip.clone()
                    };
                    let ghost before = messages@;
                    let m = Message::new(author, message_read.clone());
                    messages.push(m);
                    assert(message_views(messages@) =~= message_views(before).push(m@));
                    message_read = String::new();
                }
                you = false;
            } else {
                newline_count = 0;
                if byte == 0 {
                    you = true;
                } else {
                    push_char(&mut message_read, byte as char);
                }
            }
        }
        i = i + 1;
    }
    assert(history_data@.take(history_data.len() as int) =~= history_data@);
    Some(histories)
}

proof fn lemma_failed_stays(rs: Seq<RecipientView>, st: HistoryReader, a: Seq<u8>, b: Seq<u8>)
    requires
        read_histories_from(rs, st, a).failed,
    ensures
        read_histories_from(rs, st, a + b).failed,
    decreases b.len(),
{
    if b.len() == 0 {
        assert(a + b =~= a);
    } else {
        lemma_failed_stays(rs, st, a, b.drop_last());
        assert((a + b).drop_last() =~= a + b.drop_last());
    }
}

proof fn lemma_histories_concat(rs: Seq<RecipientView>, st: HistoryReader, a: Seq<u8>, b: Seq<u8>)
    ensures
        read_histories_from(rs, st, a + b) == read_histories_from(
            rs,
            read_histories_from(rs, st, a),
            b,
        ),
    decreases b.len(),
{
    if b.len() == 0 {
        assert(a + b =~= a);
    } else {
        lemma_histories_concat(rs, st, a, b.drop_last());
        assert((a + b).drop_last() =~= a + b.drop_last());
    }
}

proof fn lemma_read_one_history_byte(rs: Seq<RecipientView>, st: HistoryReader, b: u8)
    ensures
        read_histories_from(rs, st, seq![b]) == read_history_byte(rs, st, b),
{
    assert(seq![b].drop_last() =~= Seq::<u8>::empty());
    assert(read_histories_from(rs, st, Seq::<u8>::empty()) == st);
}

/// Text that reads back from the history file as it was written: plain,
/// and without newlines.
pub open spec fn plain_line(s: Seq<char>) -> bool {
    &&& plain_text(s)
    &&& forall|i: int| 0 <= i < s.len() ==> s[i] != '\n'
}

proof fn lemma_plain_line_bytes(s: Seq<char>)
    requires
        plain_line(s),
    ensures
        encode_utf8(s) == ascii_bytes(s),
        forall|i: int|
            0 <= i < s.len() ==> (#[trigger] ascii_bytes(s)[i]) != 0 && ascii_bytes(s)[i] != 10
                && ascii_bytes(s)[i] as char == s[i],
{
    lemma_plain_text_bytes(s);
    assert forall|i: int| 0 <= i < s.len() implies (#[trigger] ascii_bytes(s)[i]) != 10 by {
        assert(s[i] != '\n');
        assert('\0' <= s[i] <= '\u{7f}');
    }
}

proof fn lemma_read_history_ip(rs: Seq<RecipientView>, st: HistoryReader, s: Seq<char>)
    requires
        !st.failed,
        st.mode == 0,
        plain_line(s),
    ensures
        read_histories_from(rs, st, ascii_bytes(s)) == (HistoryReader { ip: st.ip + s, ..st }),
    decreases s.len(),
{
    lemma_plain_line_bytes(s);
    if s.len() == 0 {
        assert(st.ip + s =~= st.ip);
    } else {
        let t = s.drop_last();
        assert(plain_line(t));
        lemma_read_history_ip(rs, st, t);
        assert(ascii_bytes(s).drop_last() =~= ascii_bytes(t));
        assert(st.ip + s =~= (st.ip + t).push(s.last()));
    }
}

proof fn lemma_read_history_content(rs: Seq<RecipientView>, st: HistoryReader, s: Seq<char>)
    requires
        !st.failed,
        st.mode == 1,
        plain_line(s),
    ensures
        read_histories_from(rs, st, ascii_bytes(s)) == (if s.len() == 0 {
            st
        } else {
            HistoryReader { message: st.message + s, newlines: 0, ..st }
        }),
    decreases s.len(),
{
    lemma_plain_line_bytes(s);
    if s.len() == 0 {
        assert(ascii_bytes(s) =~= Seq::<u8>::empty());
    } else {
        let t = s.drop_last();
        assert(plain_line(t));
        lemma_read_history_content(rs, st, t);
        assert(ascii_bytes(s).drop_last() =~= ascii_bytes(t));
        assert(st.message + s =~= (st.message + t).push(s.last()));
        if t.len() == 0 {
            assert(st.message + t =~= st.message);
        }
    }
}

/// A message that the history file gives back as it was, in a history with
/// the recipient at `ip`: plain text without newlines, sent from here
/// ("You") or by `ip` with some content.
pub open spec fn storable_message(ip: Seq<char>, m: MessageView) -> bool {
    &&& plain_line(m.content)
    &&& (m.author == "You"@ || (m.author == ip && m.content.len() > 0))
}

proof fn lemma_read_message(rs: Seq<RecipientView>, st: HistoryReader, m: MessageView)
    requires
        !st.failed,
        st.mode == 1,
        st.message.len() == 0,
        !st.you,
        st.newlines == 0 || st.newlines == 1,
        storable_message(st.ip, m),
    ensures
        read_histories_from(rs, st, message_record(m)) == (HistoryReader {
            messages: st.messages.push(m),
            newlines: 1,
            ..st
        }),
{
    lemma_plain_line_bytes(m.content);
    let c = ascii_bytes(m.content);
    assert(st.message =~= Seq::<char>::empty());
    if m.content.len() == 0 {
        assert(m.content =~= Seq::<char>::empty());
    }
    if m.author == "You"@ {
        assert(message_record(m) =~= seq![0u8] + c + seq![10u8]);
        lemma_histories_concat(rs, st, seq![0u8] + c, seq![10u8]);
        lemma_histories_concat(rs, st, seq![0u8], c);
        lemma_read_one_history_byte(rs, st, 0u8);
        let st1 = HistoryReader { newlines: 0, you: true, ..st };
        lemma_read_history_content(rs, st1, m.content);
        let st2 = HistoryReader { message: m.content, ..st1 };
        assert(st.message + m.content =~= m.content);
        lemma_read_one_history_byte(rs, st2, 10u8);
    } else {
        assert(message_record(m) =~= c + seq![10u8]);
        lemma_histories_concat(rs, st, c, seq![10u8]);
        lemma_read_history_content(rs, st, m.content);
        let st2 = HistoryReader { message: m.content, newlines: 0, ..st };
        assert(st.message + m.content =~= m.content);
        lemma_read_one_history_byte(rs, st2, 10u8);
    }
}

proof fn lemma_read_messages(rs: Seq<RecipientView>, st: HistoryReader, ms: Seq<MessageView>)
    requires
        !st.failed,
        st.mode == 1,
        st.message.len() == 0,
        !st.you,
        st.newlines == 0,
        forall|i: int| 0 <= i < ms.len() ==> storable_message(st.ip, #[trigger] ms[i]),
    ensures
        read_histories_from(rs, st, messages_bytes(ms)) == (HistoryReader {
            messages: st.messages + ms,
            newlines: if ms.len() > 0 {
                1
            } else {
                0
            },
            ..st
        }),
    decreases ms.len(),
{
    if ms.len() == 0 {
        assert(messages_bytes(ms) =~= Seq::<u8>::empty());
        assert(st.messages + ms =~= st.messages);
    } else {
        let rest = ms.drop_last();
        assert forall|i: int| 0 <= i < rest.len() implies storable_message(
            st.ip,
            #[trigger] rest[i],
        ) by {
            assert(rest[i] == ms[i]);
        }
        lemma_read_messages(rs, st, rest);
        lemma_histories_concat(rs, st, messages_bytes(rest), message_record(ms.last()));
        let mid = read_histories_from(rs, st, messages_bytes(rest));
        assert(storable_message(st.ip, ms[ms.len() - 1]));
        lemma_read_message(rs, mid, ms.last());
        assert((st.messages + rest).push(ms.last()) =~= st.messages + ms);
    }
}

/// The reader between histories, having finished `done`.
pub open spec fn history_reader_between(done: Seq<ChatHistoryView>) -> HistoryReader {
    HistoryReader {
        mode: 0,
        ip: seq![],
        message: seq![],
        messages: seq![],
        newlines: 0,
        you: false,
        done,
        failed: false,
    }
}

/// A chat history that the history file gives back as it was, given the
/// recipients read back with it: a plain address other than "None" without
/// newlines, at which `recipients` first hold its recipient, and at least one
/// message, each storable.
pub open spec fn storable_history(recipients: Seq<RecipientView>, h: ChatHistoryView) -> bool {
    &&& plain_line(h.peer.ip)
    &&& h.peer.ip != "None"@
    &&& find_recipient(recipients, h.peer.ip) == Some(h.peer)
    &&& h.history.len() > 0
    &&& forall|i: int| 0 <= i < h.history.len() ==> storable_message(h.peer.ip, #[trigger] h.history[i])
}

proof fn lemma_read_history(rs: Seq<RecipientView>, done: Seq<ChatHistoryView>, h: ChatHistoryView)
    requires
        storable_history(rs, h),
    ensures
        read_histories_from(rs, history_reader_between(done), history_record(h))
            == history_reader_between(done.push(h)),
{
    let st0 = history_reader_between(done);
    lemma_plain_line_bytes(h.peer.ip);
    let a = ascii_bytes(h.peer.ip);
    let p1 = a + seq![10u8];
    let p2 = p1 + messages_bytes(h.history);
    assert(history_record(h) == p2 + seq![10u8]);
    lemma_histories_concat(rs, st0, a, seq![10u8]);
    lemma_histories_concat(rs, st0, p1, messages_bytes(h.history));
    lemma_histories_concat(rs, st0, p2, seq![10u8]);
    lemma_read_history_ip(rs, st0, h.peer.ip);
    assert(st0.ip + h.peer.ip =~= h.peer.ip);
    let st1 = HistoryReader { ip: h.peer.ip, ..st0 };
    lemma_read_one_history_byte(rs, st1, 10u8);
    let st2 = HistoryReader { mode: 1, ..st1 };
    lemma_read_messages(rs, st2, h.history);
    assert(st2.messages + h.history =~= h.history);
    let st3 = HistoryReader { messages: h.history, newlines: 1, ..st2 };
    lemma_read_one_history_byte(rs, st3, 10u8);
}

proof fn lemma_histories_whole(rs: Seq<RecipientView>, list: Seq<ChatHistoryView>)
    requires
        forall|i: int| 0 <= i < list.len() ==> storable_history(rs, #[trigger] list[i]),
    ensures
        read_histories_from(rs, history_reader_start(), spec_encode_histories(list))
            == history_reader_between(list),
    decreases list.len(),
{
    let st0 = history_reader_start();
    if list.len() == 0 {
        assert(spec_encode_histories(list) =~= Seq::<u8>::empty());
        assert(read_histories_from(rs, st0, Seq::<u8>::empty()) == st0);
        assert(list =~= Seq::<ChatHistoryView>::empty());
    } else {
        let rest = list.drop_last();
        assert forall|i: int| 0 <= i < rest.len() implies storable_history(rs, #[trigger] rest[i]) by {
            assert(rest[i] == list[i]);
        }
        lemma_histories_whole(rs, rest);
        assert(storable_history(rs, list[list.len() - 1]));
        assert(spec_encode_histories(list) == spec_encode_histories(rest) + history_record(
            list.last(),
        ));
        lemma_histories_concat(rs, st0, spec_encode_histories(rest), history_record(list.last()));
        lemma_read_history(rs, rest, list.last());
        assert(rest.push(list.last()) =~= list);
    }
}

/// The history file gives back the histories it was written from, as long
/// as every history in it is storable with the recipients it is read with.
pub proof fn lemma_histories_roundtrip(recipients: Seq<RecipientView>, list: Seq<ChatHistoryView>)
    requires
        forall|i: int| 0 <= i < list.len() ==> storable_history(recipients, #[trigger] list[i]),
    ensures
        spec_decode_histories(recipients, spec_encode_histories(list)) == Some(list),
{
    lemma_histories_whole(recipients, list);
}

/// A history whose recipient is at address "None" adds nothing to the
/// history file: the file for a list is the file for that list without
/// such histories, and one more such history at the end changes nothing.
pub proof fn lemma_histories_skip_none(list: Seq<ChatHistoryView>, h: ChatHistoryView)
    ensures
        h.peer.ip == "None"@ ==> spec_encode_histories(list.push(h)) == spec_encode_histories(
            list,
        ),
        h.peer.ip != "None"@ ==> spec_encode_histories(list.push(h)) == spec_encode_histories(list)
            + encode_utf8(h.peer.ip) + seq![10u8] + messages_bytes(h.history) + seq![10u8],
        spec_encode_histories(list) == spec_encode_histories(
            list.filter(|g: ChatHistoryView| g.peer.ip != "None"@),
        ),
    decreases list.len(),
{
    let t = list.push(h);
    assert(t.drop_last() =~= list);
    assert(t.last() == h);
    if h.peer.ip == "None"@ {
        assert(spec_encode_histories(list) + Seq::<u8>::empty() =~= spec_encode_histories(list));
    } else {
        assert(history_record(h) =~= encode_utf8(h.peer.ip) + seq![10u8] + messages_bytes(
            h.history,
        ) + seq![10u8]);
        assert(spec_encode_histories(list) + history_record(h) =~= spec_encode_histories(list)
            + encode_utf8(h.peer.ip) + seq![10u8] + messages_bytes(h.history) + seq![10u8]);
    }
    let pred = |g: ChatHistoryView| g.peer.ip != "None"@;
    reveal_with_fuel(Seq::<_>::filter, 1);
    if list.len() == 0 {
        assert(list.filter(pred) =~= list);
    } else {
        let rest = list.drop_last();
        let last = list.last();
        lemma_histories_skip_none(rest, last);
        assert(rest.push(last) =~= list);
        let fr = rest.filter(pred);
        if last.peer.ip == "None"@ {
            assert(list.filter(pred) == fr);
        } else {
            assert(list.filter(pred) == fr.push(last));
            lemma_histories_skip_none(fr, last);
            assert(history_record(last) =~= encode_utf8(last.peer.ip) + seq![10u8]
                + messages_bytes(last.history) + seq![10u8]);
            assert(spec_encode_histories(fr.push(last)) =~= spec_encode_histories(fr)
                + history_record(last));
            assert(spec_encode_histories(list) =~= spec_encode_histories(rest) + history_record(
                last,
            ));
        }
    }
}

/// A recipient at address "None" adds nothing to the recipients file: the
/// file for a list is the file for that list without such recipients.
pub proof fn lemma_recipients_skip_none(list: Seq<RecipientView>, r: RecipientView)
    ensures
        r.ip == "None"@ ==> spec_encode_recipients(list.push(r)) == spec_encode_recipients(list),
        r.ip != "None"@ ==> spec_encode_recipients(list.push(r)) == spec_encode_recipients(list)
            + encode_utf8(r.ip) + seq![0u8] + opt_utf8(r.alias) + seq![0u8] + opt_key(r.key)
            + seq![10u8],
        spec_encode_recipients(list) == spec_encode_recipients(
            list.filter(|g: RecipientView| g.ip != "None"@),
        ),
    decreases list.len(),
{
    let t = list.push(r);
    assert(t.drop_last() =~= list);
    assert(t.last() == r);
    if r.ip == "None"@ {
        assert(spec_encode_recipients(list) + Seq::<u8>::empty() =~= spec_encode_recipients(list));
    } else {
        assert(spec_encode_recipients(list) + recipient_record(r) =~= spec_encode_recipients(list)
            + encode_utf8(r.ip) + seq![0u8] + opt_utf8(r.alias) + seq![0u8] + opt_key(r.key)
            + seq![10u8]);
    }
    let pred = |g: RecipientView| g.ip != "None"@;
    reveal_with_fuel(Seq::<_>::filter, 1);
    if list.len() == 0 {
        assert(list.filter(pred) =~= list);
    } else {
        let rest = list.drop_last();
        let last = list.last();
        lemma_recipients_skip_none(rest, last);
        assert(rest.push(last) =~= list);
        let fr = rest.filter(pred);
        if last.ip == "None"@ {
            assert(list.filter(pred) == fr);
        } else {
            assert(list.filter(pred) == fr.push(last));
            lemma_recipients_skip_none(fr, last);
            assert(spec_encode_recipients(fr.push(last)) =~= spec_encode_recipients(fr)
                + recipient_record(last));
            assert(spec_encode_recipients(list) =~= spec_encode_recipients(rest)
                + recipient_record(last));
        }
    }
}

} // verus!
