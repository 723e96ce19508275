use minikv::command::{Command, ParseError};
use minikv::parse::parse_command;
use minikv::reply::{encode_reply, respond, respond_shared, Reply};
use minikv::request::encode_request;
use minikv::store::Store;

fn s(x: &str) -> String {
    x.to_string()
}

fn exchange(st: &mut Store, c: Command, now: u64) -> Vec<u8> {
    let parsed = parse_command(&encode_request(&c)).unwrap();
    encode_reply(&respond(st, parsed, now))
}

#[test]
fn reply_encodings() {
    assert_eq!(encode_reply(&Reply::Status(s("PONG"))), b"+PONG\r\n".to_vec());
    assert_eq!(encode_reply(&Reply::Bulk(s("hello"))), b"$5\r\nhello\r\n".to_vec());
    assert_eq!(encode_reply(&Reply::Bulk(s(""))), b"$0\r\n\r\n".to_vec());
    assert_eq!(encode_reply(&Reply::Null), b"$-1\r\n".to_vec());
    assert_eq!(encode_reply(&Reply::Error(s("ERR syntax error"))), b"-ERR syntax error\r\n".to_vec());
}

#[test]
fn bulk_length_counts_bytes() {
    assert_eq!(encode_reply(&Reply::Bulk(s("h\u{e9}llo"))), "$6\r\nh\u{e9}llo\r\n".as_bytes().to_vec());
    let long = "x".repeat(1234);
    let mut want = b"$1234\r\n".to_vec();
    want.extend_from_slice(long.as_bytes());
    want.extend_from_slice(b"\r\n");
    assert_eq!(encode_reply(&Reply::Bulk(long)), want);
}

#[test]
fn end_to_end_session() {
    let mut st = Store::new();
    assert_eq!(exchange(&mut st, Command::Ping, 0), b"+PONG\r\n".to_vec());
    assert_eq!(exchange(&mut st, Command::Echo(s("hello")), 0), b"$5\r\nhello\r\n".to_vec());
    assert_eq!(exchange(&mut st, Command::SetValue(s("foo"), s("bar"), None), 0), b"+OK\r\n".to_vec());
    assert_eq!(exchange(&mut st, Command::Get(s("foo")), 0), b"$3\r\nbar\r\n".to_vec());
    assert_eq!(exchange(&mut st, Command::SetValue(s("foo"), s("bar"), Some(1)), 10), b"+OK\r\n".to_vec());
    assert_eq!(exchange(&mut st, Command::Get(s("foo")), 15), b"$-1\r\n".to_vec());
}

#[test]
fn error_reply_for_arity() {
    let e = parse_command(b"*1\r\n$3\r\nGET\r\n").unwrap_err();
    assert_eq!(e, ParseError::WrongArity(s("get")));
    assert_eq!(
        encode_reply(&Reply::Error(e.message())),
        b"-ERR wrong number of arguments for 'get' command\r\n".to_vec()
    );
}

#[test]
fn shared_answers_leave_writes_out() {
    let mut st = Store::new();
    st.set(s("k"), s("v"), None, 0);
    assert_eq!(respond_shared(&st, &Command::Get(s("k")), 0), Some(Reply::Bulk(s("v"))));
    assert_eq!(respond_shared(&st, &Command::Get(s("z")), 0), Some(Reply::Null));
    assert_eq!(respond_shared(&st, &Command::Ping, 0), Some(Reply::Status(s("PONG"))));
    assert_eq!(respond_shared(&st, &Command::SetValue(s("k"), s("w"), None), 0), None);
}
