//! Encoding a command as a request frame, the form that clients send, and
//! the round trip of such frames through the parser.
use vstd::prelude::*;
use vstd::utf8::{encode_utf8, valid_utf8};
use crate::command::{Command, CommandView};
use crate::parse::{data_lines, frame_command, frame_tokens, lines_from, lines_of, tokens_of};
use crate::text::{
    ascii_lowered, ascii_text, crlf, decimal_of, digits_value, is_digit, is_white_space,
    lemma_ascii_bytes, lowered, numeral_digits, push_all, push_decimal, trimmed_end,
    u64_of_numeral,
};

verus! {

broadcast use vstd::utf8::group_utf8_lib;

/// Whether no CR in `b` is directly followed by LF.
pub open spec fn no_crlf(b: Seq<u8>) -> bool {
    forall|i: int| 0 <= i < b.len() - 1 ==> !(#[trigger] b[i] == 13 && b[i + 1] == 10)
}

/// The words of the request for a command: its name, then its arguments; a
/// time to live is written as `px` and its decimal numeral.
pub open spec fn request_words(c: CommandView) -> Seq<Seq<char>> {
    match c {
        CommandView::Ping => seq!["ping"@],
        CommandView::Echo(m) => seq!["echo"@, m],
        CommandView::Get(k) => seq!["get"@, k],
        CommandView::SetValue(k, v, None) => seq!["set"@, k, v],
        CommandView::SetValue(k, v, Some(t)) => seq![
            "set"@,
            k,
            v,
            "px"@,
            ascii_text(decimal_of(t as nat)),
        ],
    }
}

/// The length line of a bulk string: `$` and the byte length of the word.
pub open spec fn bulk_header(w: Seq<char>) -> Seq<u8> {
    seq![36u8] + decimal_of(encode_utf8(w).len())
}

/// One bulk string: its length line, then the word's bytes on a line.
pub open spec fn bulk_piece(w: Seq<char>) -> Seq<u8> {
    bulk_header(w) + crlf() + encode_utf8(w) + crlf()
}

/// The bulk strings of some words, in order.
pub open spec fn bulk_body(ws: Seq<Seq<char>>) -> Seq<u8>
    decreases ws.len(),
{
    if ws.len() == 0 {
        seq![]
    } else {
        bulk_body(ws.drop_last()) + bulk_piece(ws.last())
    }
}

/// The count line of a request: `*` and the number of words.
pub open spec fn count_header(n: nat) -> Seq<u8> {
    seq![42u8] + decimal_of(n)
}

/// A request frame: the count line, then one bulk string per word.
pub open spec fn request_frame(ws: Seq<Seq<char>>) -> Seq<u8> {
    count_header(ws.len()) + crlf() + bulk_body(ws)
}

/// A word that tokenization keeps as it is: not empty, not ending in white
/// space, and with no CR LF in its bytes.
pub open spec fn plain_word(w: Seq<char>) -> bool {
    w.len() > 0 && !is_white_space(w.last()) && no_crlf(encode_utf8(w))
}

/// Whether every string that a command carries is a plain word.
pub open spec fn plain_command(c: CommandView) -> bool {
    match c {
        CommandView::Ping => true,
        CommandView::Echo(m) => plain_word(m),
        CommandView::Get(k) => plain_word(k),
        CommandView::SetValue(k, v, _) => plain_word(k) && plain_word(v),
    }
}

proof fn lemma_decimal(n: nat)
    ensures
        decimal_of(n).len() > 0,
        forall|i: int| 0 <= i < decimal_of(n).len() ==> is_digit(#[trigger] decimal_of(n)[i]),
        digits_value(decimal_of(n)) == n,
    decreases n,
{
    let d = decimal_of(n);
    if n < 10 {
        assert(d.drop_last() =~= Seq::<u8>::empty());
        assert(d.last() == (48 + n) as u8);
        assert(digits_value(d.drop_last()) == 0);
        assert(digits_value(d) == digits_value(d.drop_last()) * 10 + (d.last() - 48) as nat);
    } else {
        lemma_decimal(n / 10);
        assert(d.drop_last() =~= decimal_of(n / 10));
        assert(d.last() == (48 + n % 10) as u8);
        assert(n == (n / 10) * 10 + n % 10);
        assert(digits_value(d) == digits_value(d.drop_last()) * 10 + (d.last() - 48) as nat);
        assert forall|i: int| 0 <= i < d.len() implies is_digit(#[trigger] d[i]) by {
            if i < d.len() - 1 {
                assert(d[i] == decimal_of(n / 10)[i]);
            }
        }
    }
}

proof fn lemma_printable_no_crlf(b: Seq<u8>)
    requires
        forall|i: int| 0 <= i < b.len() ==> #[trigger] b[i] != 13,
    ensures
        no_crlf(b),
{
    assert forall|i: int| 0 <= i < b.len() - 1 implies !(#[trigger] b[i] == 13 && b[i + 1] == 10) by {
        assert(b[i] != 13);
    }
}

proof fn lemma_header_ascii(tag: u8, n: nat)
    requires
        tag == 36 || tag == 42,
    ensures
        forall|i: int| 0 <= i < (seq![tag] + decimal_of(n)).len()
            ==> #[trigger] (seq![tag] + decimal_of(n))[i] < 128 && (seq![tag] + decimal_of(n))[i] != 13,
        no_crlf(seq![tag] + decimal_of(n)),
        valid_utf8(seq![tag] + decimal_of(n)),
{
    lemma_decimal(n);
    let h = seq![tag] + decimal_of(n);
    assert forall|i: int| 0 <= i < h.len() implies #[trigger] h[i] < 128 && h[i] != 13 by {
        if i > 0 {
            assert(h[i] == decimal_of(n)[i - 1]);
        }
    }
    lemma_printable_no_crlf(h);
    lemma_ascii_bytes(h);
}

proof fn lemma_crlf_valid()
    ensures
        valid_utf8(crlf()),
{
    let c = crlf();
    assert forall|i: int| 0 <= i < c.len() implies #[trigger] c[i] < 128 by {}
    lemma_ascii_bytes(c);
}

proof fn lemma_lines_shift(p: Seq<u8>, y: Seq<u8>, s: int, i: int)
    requires
        0 <= s <= i <= y.len(),
    ensures
        lines_from(p + y, p.len() as int + s, p.len() as int + i) == lines_from(y, s, i),
    decreases y.len() - i,
{
    let b = p + y;
    if i + 1 >= y.len() {
        assert(b.subrange(p.len() + s, b.len() as int) =~= y.subrange(s, y.len() as int));
    } else {
        assert(b[p.len() + i] == y[i]);
        assert(b[p.len() + i + 1] == y[i + 1]);
        if y[i] == 13 && y[i + 1] == 10 {
            lemma_lines_shift(p, y, i + 2, i + 2);
            assert(b.subrange(p.len() + s, p.len() + i) =~= y.subrange(s, i));
        } else {
            lemma_lines_shift(p, y, s, i + 1);
        }
    }
}

proof fn lemma_scan_to_crlf(x: Seq<u8>, y: Seq<u8>, i: int)
    requires
        no_crlf(x),
        0 <= i <= x.len(),
    ensures
        lines_from(x + crlf() + y, 0, i) == seq![x] + lines_from(
            x + crlf() + y,
            x.len() + 2 as int,
            x.len() + 2 as int,
        ),
    decreases x.len() - i,
{
    let b = x + crlf() + y;
    if i == x.len() {
        assert(b[i] == 13 && b[i + 1] == 10);
        assert(b.subrange(0, i) =~= x);
    } else {
        assert(b[i] == x[i]);
        if i + 1 < x.len() {
            assert(b[i + 1] == x[i + 1]);
        } else {
            assert(b[i + 1] == 13);
        }
        lemma_scan_to_crlf(x, y, i + 1);
    }
}

proof fn lemma_first_line(x: Seq<u8>, y: Seq<u8>)
    requires
        no_crlf(x),
    ensures
        lines_of(x + crlf() + y) == seq![x] + lines_of(y),
{
    lemma_scan_to_crlf(x, y, 0);
    lemma_lines_shift(x + crlf(), y, 0, 0);
    assert((x + crlf()).len() == x.len() + 2);
}

proof fn lemma_bulk_body_front(ws: Seq<Seq<char>>)
    requires
        ws.len() > 0,
    ensures
        bulk_body(ws) == bulk_piece(ws[0]) + bulk_body(ws.drop_first()),
    decreases ws.len(),
{
    if ws.len() == 1 {
        assert(ws.drop_last().len() == 0);
        assert(ws.drop_first().len() == 0);
        assert(bulk_body(ws.drop_last()) == Seq::<u8>::empty());
        assert(bulk_body(ws.drop_first()) == Seq::<u8>::empty());
        assert(bulk_body(ws) == bulk_body(ws.drop_last()) + bulk_piece(ws.last()));
        assert(bulk_body(ws) =~= bulk_piece(ws[0]) + bulk_body(ws.drop_first()));
    } else {
        lemma_bulk_body_front(ws.drop_last());
        assert(ws.drop_first().drop_last() =~= ws.drop_last().drop_first());
        assert(ws.drop_first().last() == ws.last());
        assert(ws.drop_last()[0] == ws[0]);
        let a = bulk_piece(ws[0]);
        let mid = bulk_body(ws.drop_last().drop_first());
        let z = bulk_piece(ws.last());
        assert(bulk_body(ws) == bulk_body(ws.drop_last()) + z);
        assert(bulk_body(ws.drop_last()) == a + mid);
        assert(bulk_body(ws.drop_first()) == bulk_body(ws.drop_first().drop_last()) + bulk_piece(
            ws.drop_first().last(),
        ));
        assert(bulk_body(ws.drop_first()) == mid + z);
        assert((a + mid) + z =~= a + (mid + z));
    }
}

/// The lines of the bulk strings of `ws`: length line and word for each,
/// then the empty rest after the last CR LF.
pub open spec fn body_lines(ws: Seq<Seq<char>>) -> Seq<Seq<u8>> {
    Seq::new(
        (2 * ws.len() + 1) as nat,
        |i: int|
            if i == 2 * ws.len() {
                Seq::<u8>::empty()
            } else if i % 2 == 0 {
                bulk_header(ws[i / 2])
            } else {
                encode_utf8(ws[i / 2])
            },
    )
}

proof fn lemma_body_lines(ws: Seq<Seq<char>>)
    requires
        forall|j: int| 0 <= j < ws.len() ==> plain_word(#[trigger] ws[j]),
    ensures
        lines_of(bulk_body(ws)) == body_lines(ws),
    decreases ws.len(),
{
    if ws.len() == 0 {
        let e = Seq::<u8>::empty();
        assert(bulk_body(ws) == e);
        assert(e.subrange(0, 0) =~= e);
        assert(lines_of(e) == seq![e]);
        assert(lines_of(bulk_body(ws)) =~= body_lines(ws));
    } else {
        let w = ws[0];
        let rest = ws.drop_first();
        assert forall|j: int| 0 <= j < rest.len() implies plain_word(#[trigger] rest[j]) by {
            assert(rest[j] == ws[j + 1]);
        }
        assert(plain_word(ws[0]));
        lemma_body_lines(rest);
        lemma_bulk_body_front(ws);
        lemma_header_ascii(36, encode_utf8(w).len());
        let tail = encode_utf8(w) + crlf() + bulk_body(rest);
        assert(bulk_body(ws) =~= bulk_header(w) + crlf() + tail);
        lemma_first_line(bulk_header(w), tail);
        lemma_first_line(encode_utf8(w), bulk_body(rest));
        let l = lines_of(bulk_body(ws));
        let r = body_lines(rest);
        assert(l == seq![bulk_header(w), encode_utf8(w)] + r);
        let e = body_lines(ws);
        assert forall|i: int| 0 <= i < e.len() implies #[trigger] l[i] == e[i] by {
            if i >= 2 {
                assert(l[i] == r[i - 2]);
                if i < 2 * ws.len() {
                    assert((i - 2) / 2 == i / 2 - 1);
                    assert(rest[(i - 2) / 2] == ws[i / 2]);
                }
            }
        }
        assert(l =~= e);
    }
}

/// How many data lines `n` lines hold.
pub open spec fn data_count(n: nat) -> nat {
    if n >= 3 {
        ((n - 1) / 2) as nat
    } else {
        0
    }
}

proof fn lemma_data_lines(ls: Seq<Seq<u8>>)
    ensures
        data_lines(ls) == Seq::new(data_count(ls.len()), |j: int| ls[2 + 2 * j]),
    decreases ls.len(),
{
    if ls.len() > 0 {
        lemma_data_lines(ls.drop_last());
        assert(data_lines(ls) =~= Seq::new(data_count(ls.len()), |j: int| ls[2 + 2 * j]));
    } else {
        assert(data_lines(ls) =~= Seq::new(data_count(ls.len()), |j: int| ls[2 + 2 * j]));
    }
}

proof fn lemma_plain_tokens(ws: Seq<Seq<char>>)
    requires
        forall|j: int| 0 <= j < ws.len() ==> plain_word(#[trigger] ws[j]),
    ensures
        tokens_of(ws.map_values(|w: Seq<char>| encode_utf8(w))) == ws,
    decreases ws.len(),
{
    if ws.len() > 0 {
        let rest = ws.drop_last();
        assert forall|j: int| 0 <= j < rest.len() implies plain_word(#[trigger] rest[j]) by {
            assert(rest[j] == ws[j]);
        }
        lemma_plain_tokens(rest);
        let m = ws.map_values(|w: Seq<char>| encode_utf8(w));
        assert(m.drop_last() =~= rest.map_values(|w: Seq<char>| encode_utf8(w)));
        let w = ws.last();
        assert(plain_word(ws[ws.len() - 1]));
        assert(trimmed_end(w) == w);
        assert(tokens_of(m) =~= ws);
    } else {
        assert(ws.map_values(|w: Seq<char>| encode_utf8(w)).len() == 0);
        assert(tokens_of(ws.map_values(|w: Seq<char>| encode_utf8(w))) =~= ws);
    }
}

proof fn lemma_valid_body(ws: Seq<Seq<char>>)
    ensures
        valid_utf8(bulk_body(ws)),
    decreases ws.len(),
{
    if ws.len() > 0 {
        lemma_valid_body(ws.drop_last());
        let w = ws.last();
        lemma_header_ascii(36, encode_utf8(w).len());
        lemma_crlf_valid();
        let h = bulk_header(w) + crlf();
        assert(valid_utf8(h));
        assert(valid_utf8(encode_utf8(w)));
        assert(valid_utf8(h + encode_utf8(w)));
        assert(valid_utf8(h + encode_utf8(w) + crlf()));
        assert(valid_utf8(bulk_body(ws.drop_last()) + bulk_piece(w)));
    } else {
        assert(valid_utf8(bulk_body(ws)));
    }
}

/// The tokens of a request frame are its words, when they are plain.
pub proof fn lemma_request_tokens(ws: Seq<Seq<char>>)
    requires
        forall|j: int| 0 <= j < ws.len() ==> plain_word(#[trigger] ws[j]),
    ensures
        valid_utf8(request_frame(ws)),
        frame_tokens(request_frame(ws)) == ws,
{
    let n = ws.len();
    lemma_header_ascii(42, n);
    lemma_valid_body(ws);
    lemma_crlf_valid();
    assert(valid_utf8(count_header(n) + crlf()));
    assert(valid_utf8(count_header(n) + crlf() + bulk_body(ws)));
    lemma_first_line(count_header(n), bulk_body(ws));
    lemma_body_lines(ws);
    let ls = seq![count_header(n)] + body_lines(ws);
    assert(lines_of(request_frame(ws)) == ls);
    lemma_data_lines(ls);
    assert(data_lines(ls) =~= ws.map_values(|w: Seq<char>| encode_utf8(w)));
    lemma_plain_tokens(ws);
}

proof fn lemma_literal_words()
    ensures
        plain_word("ping"@),
        plain_word("echo"@),
        plain_word("get"@),
        plain_word("set"@),
        plain_word("px"@),
        lowered("ping"@) == "ping"@,
        lowered("echo"@) == "echo"@,
        lowered("get"@) == "get"@,
        lowered("set"@) == "set"@,
{
    reveal_strlit("ping");
    reveal_strlit("echo");
    reveal_strlit("get");
    reveal_strlit("set");
    reveal_strlit("px");
    let ping = seq![112u8, 105u8, 110u8, 103u8];
    let echo = seq![101u8, 99u8, 104u8, 111u8];
    let get = seq![103u8, 101u8, 116u8];
    let set = seq![115u8, 101u8, 116u8];
    let px = seq![112u8, 120u8];
    assert("ping"@ =~= ascii_text(ping));
    assert("echo"@ =~= ascii_text(echo));
    assert("get"@ =~= ascii_text(get));
    assert("set"@ =~= ascii_text(set));
    assert("px"@ =~= ascii_text(px));
    lemma_small_word(ping);
    lemma_small_word(echo);
    lemma_small_word(get);
    lemma_small_word(set);
    lemma_small_word(px);
}

proof fn lemma_small_word(b: Seq<u8>)
    requires
        b.len() > 0,
        forall|i: int| 0 <= i < b.len() ==> 97 <= #[trigger] b[i] <= 122,
    ensures
        plain_word(ascii_text(b)),
        lowered(ascii_text(b)) == ascii_text(b),
{
    let w = ascii_text(b);
    assert forall|i: int| 0 <= i < b.len() implies #[trigger] b[i] < 128 && b[i] != 13 by {}
    lemma_ascii_bytes(b);
    lemma_printable_no_crlf(b);
    assert(ascii_lowered(w) =~= w);
}

proof fn lemma_numeral_word(t: u64)
    ensures
        plain_word(ascii_text(decimal_of(t as nat))),
        encode_utf8(ascii_text(decimal_of(t as nat))) == decimal_of(t as nat),
        u64_of_numeral(decimal_of(t as nat)) == Some(t),
{
    let d = decimal_of(t as nat);
    lemma_decimal(t as nat);
    assert forall|i: int| 0 <= i < d.len() implies #[trigger] d[i] < 128 && d[i] != 13 by {
        assert(is_digit(d[i]));
    }
    lemma_ascii_bytes(d);
    lemma_printable_no_crlf(d);
    assert(is_digit(d[d.len() - 1]));
    assert(numeral_digits(d) == d);
}

/// Encoding a command as a request frame and parsing the frame gives the
/// command back, when the strings it carries survive tokenization unchanged.
pub proof fn lemma_request_round_trip(c: CommandView)
    requires
        plain_command(c),
    ensures
        frame_command(request_frame(request_words(c))) == Ok::<CommandView, crate::command::ParseErrorView>(c),
{
    let ws = request_words(c);
    lemma_literal_words();
    if let CommandView::SetValue(_, _, Some(t)) = c {
        lemma_numeral_word(t);
    }
    assert forall|j: int| 0 <= j < ws.len() implies plain_word(#[trigger] ws[j]) by {}
    lemma_request_tokens(ws);
    crate::command::lemma_names_differ();
    assert(ws.drop_first().len() == ws.len() - 1);
}


proof fn lemma_bulk_body_push(ws: Seq<Seq<char>>, w: Seq<char>)
    ensures
        bulk_body(ws.push(w)) == bulk_body(ws) + bulk_piece(w),
{
    assert(ws.push(w).drop_last() =~= ws);
}

/// Appends the bulk string of `word`, whose bytes are `b`.
fn push_word(out: &mut Vec<u8>, b: &[u8], Ghost(word): Ghost<Seq<char>>)
    requires
        b@ == encode_utf8(word),
    ensures
        final(out)@ == old(out)@ + bulk_piece(word),
{
    out.push(36);
    push_decimal(out, b.len() as u64);
    out.push(13);
    out.push(10);
    push_all(out, b);
    out.push(13);
    out.push(10);
    assert(final(out)@ =~= old(out)@ + bulk_piece(word));
}

/// Encodes a command as the request frame that a client sends for it.
pub fn encode_request(cmd: &Command) -> (r: Vec<u8>)
    ensures
        r@ == request_frame(request_words(cmd@)),
{
    let ghost ws = request_words(cmd@);
    let n: u64 = match cmd {
        Command::Ping => 1,
        Command::Echo(_) | Command::Get(_) => 2,
        Command::SetValue(_, _, None) => 3,
        Command::SetValue(_, _, Some(_)) => 5,
    };
    let mut out: Vec<u8> = Vec::new();
    out.push(42);
    push_decimal(&mut out, n);
    out.push(13);
    out.push(10);
    let ghost head = out@;
    assert(head =~= count_header(ws.len()) + crlf());
    let ghost mut done: Seq<Seq<char>> = seq![];
    assert(bulk_body(done) == Seq::<u8>::empty());
    assert(out@ =~= head + bulk_body(done));
    match cmd {
        Command::Ping => {
            push_word(&mut out, "ping".as_bytes(), Ghost("ping"@));
            proof {
                lemma_bulk_body_push(done, "ping"@);
                done = done.push("ping"@);
            }
        },
        Command::Echo(m) => {
            push_word(&mut out, "echo".as_bytes(), Ghost("echo"@));
            proof {
                lemma_bulk_body_push(done, "echo"@);
                done = done.push("echo"@);
            }
            push_word(&mut out, m.as_str().as_bytes(), Ghost(m@));
            proof {
                lemma_bulk_body_push(done, m@);
                done = done.push(m@);
            }
        },
        Command::Get(k) => {
            push_word(&mut out, "get".as_bytes(), Ghost("get"@));
            proof {
                lemma_bulk_body_push(done, "get"@);
                done = done.push("get"@);
            }
            push_word(&mut out, k.as_str().as_bytes(), Ghost(k@));
            proof {
                lemma_bulk_body_push(done, k@);
                done = done.push(k@);
            }
        },
        Command::SetValue(k, v, ttl) => {
            push_word(&mut out, "set".as_bytes(), Ghost("set"@));
            proof {
                lemma_bulk_body_push(done, "set"@);
                done = done.push("set"@);
            }
            push_word(&mut out, k.as_str().as_bytes(), Ghost(k@));
            proof {
                lemma_bulk_body_push(done, k@);
                done = done.push(k@);
            }
            push_word(&mut out, v.as_str().as_bytes(), Ghost(v@));
            proof {
                lemma_bulk_body_push(done, v@);
                done = done.push(v@);
            }
            if let Some(t) = ttl {
                push_word(&mut out, "px".as_bytes(), Ghost("px"@));
                proof {
                    lemma_bulk_body_push(done, "px"@);
                    done = done.push("px"@);
                }
                let mut digits: Vec<u8> = Vec::new();
                push_decimal(&mut digits, *t);
                let ghost tw = ascii_text(decimal_of(*t as nat));
                proof {
                    lemma_numeral_word(*t);
                    assert(digits@ =~= decimal_of(*t as nat));
                }
                push_word(&mut out, digits.as_slice(), Ghost(tw));
                proof {
                    lemma_bulk_body_push(done, tw);
                    done = done.push(tw);
                }
            }
        },
    }
    assert(done =~= ws);
    out
}

} // verus!
