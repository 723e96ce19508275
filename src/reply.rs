//! Replies and their wire encoding, and the answer to each command.
use vstd::prelude::*;
use vstd::utf8::encode_utf8;
use vstd::string::StringExecFns;
use crate::command::{Command, CommandView};
use crate::store::{expiry_of, lookup, Store};
use crate::text::{crlf, decimal_of, push_all, push_decimal};

verus! {

/// One reply frame.
#[derive(Debug, Clone, PartialEq, Eq)]
pub enum Reply {
    /// A simple status line, `+<text>`.
    Status(String),
    /// A bulk string, `$<byte length>` and the bytes.
    Bulk(String),
    /// The null bulk string, `$-1`.
    Null,
    /// An error line, `-<message>`.
    Error(String),
}

/// The mathematical form of a [`Reply`].
pub enum ReplyView {
    Status(Seq<char>),
    Bulk(Seq<char>),
    Null,
    Error(Seq<char>),
}

impl View for Reply {
    type V = ReplyView;

    open spec fn view(&self) -> ReplyView {
        match self {
            Reply::Status(t) => ReplyView::Status(t@),
            Reply::Bulk(v) => ReplyView::Bulk(v@),
            Reply::Null => ReplyView::Null,
            Reply::Error(m) => ReplyView::Error(m@),
        }
    }
}

/// The bytes of a reply frame.
pub open spec fn reply_bytes(r: ReplyView) -> Seq<u8> {
    match r {
        ReplyView::Status(t) => seq![43u8] + encode_utf8(t) + crlf(),
        ReplyView::Bulk(v) => seq![36u8] + decimal_of(encode_utf8(v).len()) + crlf()
            + encode_utf8(v) + crlf(),
        ReplyView::Null => seq![36u8, 45u8, 49u8] + crlf(),
        ReplyView::Error(m) => seq![45u8] + encode_utf8(m) + crlf(),
    }
}

/// Encodes a reply as the bytes of one frame.
pub fn encode_reply(r: &Reply) -> (out: Vec<u8>)
    ensures
        out@ == reply_bytes(r@),
{
    let mut out: Vec<u8> = Vec::new();
    match r {
        Reply::Status(t) => {
            out.push(43);
            push_all(&mut out, t.as_str().as_bytes());
        },
        Reply::Bulk(v) => {
            out.push(36);
            let b = v.as_str().as_bytes();
            push_decimal(&mut out, b.len() as u64);
            out.push(13);
            out.push(10);
            push_all(&mut out, b);
        },
        Reply::Null => {
            out.push(36);
            out.push(45);
            out.push(49);
        },
        Reply::Error(m) => {
            out.push(45);
            push_all(&mut out, m.as_str().as_bytes());
        },
    }
    out.push(13);
    out.push(10);
    assert(out@ =~= reply_bytes(r@));
    out
}

/// The reply to a command that does not write, or `None` for one that does.
pub open spec fn shared_reply(m: Map<Seq<char>, crate::store::EntryView>, c: CommandView, now: u64) -> Option<ReplyView> {
    match c {
        CommandView::Ping => Some(ReplyView::Status("PONG"@)),
        CommandView::Echo(v) => Some(ReplyView::Bulk(v)),
        CommandView::Get(k) => match lookup(m, k, now) {
            Some(v) => Some(ReplyView::Bulk(v)),
            None => Some(ReplyView::Null),
        },
        CommandView::SetValue(..) => None,
    }
}

/// Answers a command that only reads the store at instant `now`; returns
/// `None` for a write, which needs [`respond`].
pub fn respond_shared(store: &Store, cmd: &Command, now: u64) -> (r: Option<Reply>)
    requires
        store.wf(),
    ensures
        match r {
            Some(rep) => shared_reply(store@, cmd@, now) == Some(rep@),
            None => shared_reply(store@, cmd@, now) is None,
        },
{
    match cmd {
        Command::Ping => Some(Reply::Status(String::from_str("PONG"))),
        Command::Echo(v) => Some(Reply::Bulk(v.clone())),
        Command::Get(k) => match store.get(k.as_str(), now) {
            Some(v) => Some(Reply::Bulk(v)),
            None => Some(Reply::Null),
        },
        Command::SetValue(..) => None,
    }
}

/// Carries out a command against the store at instant `now` and gives its
/// reply. Only a write changes the store.
pub fn respond(store: &mut Store, cmd: Command, now: u64) -> (r: Reply)
    requires
        old(store).wf(),
    ensures
        final(store).wf(),
        match cmd@ {
            CommandView::SetValue(k, v, ttl) => {
                &&& final(store)@ == old(store)@.insert(k, (v, expiry_of(now, ttl)))
                &&& r@ == ReplyView::Status("OK"@)
            },
            _ => {
                &&& final(store)@ == old(store)@
                &&& shared_reply(old(store)@, cmd@, now) == Some(r@)
            },
        },
{
    match cmd {
        Command::SetValue(k, v, ttl) => {
            store.set(k, v, ttl, now);
            Reply::Status(String::from_str("OK"))
        },
        other => respond_shared(store, &other, now).unwrap(),
    }
}

} // verus!
