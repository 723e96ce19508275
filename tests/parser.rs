use minikv::command::{dispatch, Command, ParseError};
use minikv::parse::{parse_command, tokenize};
use minikv::request::encode_request;
use minikv::text::{lowercase, parse_u64};

fn s(x: &str) -> String {
    x.to_string()
}

fn frame(words: &[&str]) -> Vec<u8> {
    let mut f = format!("*{}\r\n", words.len());
    for w in words {
        f.push_str(&format!("${}\r\n{}\r\n", w.len(), w));
    }
    f.into_bytes()
}

#[test]
fn ping_frame() {
    assert_eq!(parse_command(b"*1\r\n$4\r\nPING\r\n"), Ok(Command::Ping));
}

#[test]
fn command_name_is_case_insensitive() {
    assert_eq!(parse_command(&frame(&["pInG"])), Ok(Command::Ping));
    assert_eq!(parse_command(&frame(&["Echo", "hi"])), Ok(Command::Echo(s("hi"))));
}

#[test]
fn set_with_px() {
    assert_eq!(
        parse_command(&frame(&["SET", "k", "v", "px", "100"])),
        Ok(Command::SetValue(s("k"), s("v"), Some(100)))
    );
}

#[test]
fn set_px_is_case_sensitive() {
    assert_eq!(parse_command(&frame(&["SET", "k", "v", "PX", "100"])), Err(ParseError::Syntax));
}

#[test]
fn set_ignores_tokens_after_ttl() {
    assert_eq!(
        parse_command(&frame(&["set", "k", "v", "px", "7", "extra"])),
        Ok(Command::SetValue(s("k"), s("v"), Some(7)))
    );
}

#[test]
fn round_trip_of_each_form() {
    let cases = vec![
        Command::Ping,
        Command::Echo(s("x")),
        Command::Get(s("k")),
        Command::SetValue(s("k"), s("v"), None),
        Command::SetValue(s("k"), s("v"), Some(100)),
    ];
    for c in cases {
        assert_eq!(parse_command(&encode_request(&c)), Ok(c.clone()));
    }
}

#[test]
fn encoded_request_bytes() {
    let c = Command::SetValue(s("k"), s("v"), Some(100));
    assert_eq!(
        encode_request(&c),
        b"*5\r\n$3\r\nset\r\n$1\r\nk\r\n$1\r\nv\r\n$2\r\npx\r\n$3\r\n100\r\n".to_vec()
    );
}

#[test]
fn echo_and_get_arity() {
    for name in ["echo", "get"] {
        assert_eq!(parse_command(&frame(&[name])), Err(ParseError::WrongArity(s(name))));
        assert_eq!(parse_command(&frame(&[name, "a", "b"])), Err(ParseError::WrongArity(s(name))));
    }
}

#[test]
fn set_arity_and_syntax() {
    assert_eq!(parse_command(&frame(&["set"])), Err(ParseError::WrongArity(s("set"))));
    assert_eq!(parse_command(&frame(&["set", "k"])), Err(ParseError::WrongArity(s("set"))));
    assert_eq!(parse_command(&frame(&["set", "k", "v", "bogus"])), Err(ParseError::Syntax));
    assert_eq!(parse_command(&frame(&["set", "k", "v", "px", "bogus"])), Err(ParseError::Syntax));
    assert_eq!(parse_command(&frame(&["set", "k", "v", "px"])), Err(ParseError::Syntax));
}

#[test]
fn unknown_command_is_lower_cased() {
    assert_eq!(parse_command(&frame(&["FLUSHALL"])), Err(ParseError::UnknownCommand(s("flushall"))));
}

#[test]
fn non_ascii_name_uses_unicode_lowering() {
    assert_eq!(
        parse_command(&frame(&["\u{c9}CHO", "x"])),
        Err(ParseError::UnknownCommand(s("\u{e9}cho")))
    );
}

#[test]
fn invalid_utf8_is_reported() {
    assert_eq!(parse_command(&[0x2a, 0x31, 0x0d, 0x0a, 0xff, 0xfe]), Err(ParseError::NotUtf8));
}

#[test]
fn short_frames_hold_no_command() {
    assert_eq!(parse_command(b""), Err(ParseError::NoCommand));
    assert_eq!(parse_command(b"*1\r\n$4"), Err(ParseError::NoCommand));
    assert_eq!(parse_command(b"*1\r\n$1\r\n \r\n"), Err(ParseError::NoCommand));
}

#[test]
fn tokens_are_every_second_line_trimmed() {
    let t = tokenize("*3\r\n$4\r\nECHO \t\r\n$0\r\n\r\n$5\r\nhello\u{a0}\r\n");
    assert_eq!(t, vec![s("ECHO"), s("hello")]);
}

#[test]
fn tokens_keep_leading_space() {
    assert_eq!(tokenize("a\r\nb\r\n  x  \r\nc\r\ny"), vec![s("  x"), s("y")]);
}

#[test]
fn numerals() {
    assert_eq!(parse_u64(b"0"), Some(0));
    assert_eq!(parse_u64(b"+5"), Some(5));
    assert_eq!(parse_u64(b"18446744073709551615"), Some(u64::MAX));
    assert_eq!(parse_u64(b"18446744073709551616"), None);
    assert_eq!(parse_u64(b"-5"), None);
    assert_eq!(parse_u64(b"+"), None);
    assert_eq!(parse_u64(b""), None);
    assert_eq!(parse_u64(b"1a"), None);
}

#[test]
fn lowercase_of_names() {
    assert_eq!(lowercase("SeT"), s("set"));
    assert_eq!(lowercase("\u{130}X"), s("i\u{307}x"));
}

#[test]
fn dispatch_from_tokens() {
    assert_eq!(dispatch("ping", &vec![s("extra")]), Ok(Command::Ping));
    assert_eq!(dispatch("get", &vec![s("k")]), Ok(Command::Get(s("k"))));
    assert_eq!(dispatch("nope", &vec![]), Err(ParseError::UnknownCommand(s("nope"))));
}

#[test]
fn error_messages() {
    assert_eq!(
        ParseError::WrongArity(s("get")).message(),
        s("ERR wrong number of arguments for 'get' command")
    );
    assert_eq!(ParseError::Syntax.message(), s("ERR syntax error"));
    assert_eq!(ParseError::UnknownCommand(s("foo")).message(), s("Invalid command: foo"));
    assert!(ParseError::NotUtf8.is_fatal());
    assert!(ParseError::NoCommand.is_fatal());
    assert!(!ParseError::Syntax.is_fatal());
}
