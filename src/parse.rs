//! Decoding a request frame: CR LF separated lines, of which the first two are
//! headers and after that every second one holds data.
use vstd::prelude::*;
use vstd::utf8::{decode_utf8, encode_utf8, valid_utf8};
use crate::command::{command_of, dispatch, outcome_view, texts, Command, ParseError, ParseErrorView, CommandView};
use crate::text::{lowered, lowercase, trim_end, trimmed_end, utf8_text};

verus! {

broadcast use vstd::utf8::group_utf8_lib;

/// The lines of `b[start..]` as `split("\r\n")` gives them, where the scan for
/// the next separator has reached `i`.
pub open spec fn lines_from(b: Seq<u8>, start: int, i: int) -> Seq<Seq<u8>>
    decreases b.len() - i,
{
    if i < 0 || i + 1 >= b.len() {
        seq![b.subrange(start, b.len() as int)]
    } else if b[i] == 13 && b[i + 1] == 10 {
        seq![b.subrange(start, i)] + lines_from(b, i + 2, i + 2)
    } else {
        lines_from(b, start, i + 1)
    }
}

/// The pieces of `b` between the CR LF separators.
pub open spec fn lines_of(b: Seq<u8>) -> Seq<Seq<u8>> {
    lines_from(b, 0, 0)
}

/// The data lines: after the first two lines, every second one.
pub open spec fn data_lines(ls: Seq<Seq<u8>>) -> Seq<Seq<u8>>
    decreases ls.len(),
{
    if ls.len() == 0 {
        seq![]
    } else {
        let k = ls.len() - 1;
        if k >= 2 && k % 2 == 0 {
            data_lines(ls.drop_last()).push(ls.last())
        } else {
            data_lines(ls.drop_last())
        }
    }
}

/// The tokens of some data lines: each decoded and trimmed at its end, the
/// empty ones left out.
pub open spec fn tokens_of(ls: Seq<Seq<u8>>) -> Seq<Seq<char>>
    decreases ls.len(),
{
    if ls.len() == 0 {
        seq![]
    } else {
        let t = trimmed_end(decode_utf8(ls.last()));
        if t.len() > 0 {
            tokens_of(ls.drop_last()).push(t)
        } else {
            tokens_of(ls.drop_last())
        }
    }
}

/// The tokens of a frame given as its UTF-8 bytes.
pub open spec fn frame_tokens(b: Seq<u8>) -> Seq<Seq<char>> {
    tokens_of(data_lines(lines_of(b)))
}

/// What a frame denotes: the first token, lower-cased, names the command and
/// the remaining tokens are its arguments.
pub open spec fn frame_command(b: Seq<u8>) -> Result<CommandView, ParseErrorView> {
    if !valid_utf8(b) {
        Err(ParseErrorView::NotUtf8)
    } else {
        let t = frame_tokens(b);
        if t.len() == 0 {
            Err(ParseErrorView::NoCommand)
        } else {
            command_of(lowered(t[0]), t.drop_first())
        }
    }
}

proof fn lemma_crlf_boundary(b: Seq<u8>)
    requires
        valid_utf8(b),
        b.len() >= 2,
        b[0] == 13,
        b[1] == 10,
    ensures
        vstd::utf8::is_char_boundary(b, 2),
{
    let p = vstd::utf8::pop_first_scalar(b);
    assert(p =~= b.subrange(1, b.len() as int));
    assert(p[0] == 10);
    assert(valid_utf8(p));
    let q = vstd::utf8::pop_first_scalar(p);
    assert(valid_utf8(q));
    assert(vstd::utf8::is_char_boundary(q, 0));
    assert(vstd::utf8::is_char_boundary(p, 1));
}

/// Splits a frame into its tokens.
pub fn tokenize(text: &str) -> (r: Vec<String>)
    ensures
        texts(r@) == frame_tokens(encode_utf8(text@)),
{
    let b = text.as_bytes();
    let ghost bs = b@;
    let n = b.len();
    let mut rest: &str = text;
    let mut start: usize = 0;
    let mut i: usize = 0;
    let mut k: usize = 0;
    let mut out: Vec<String> = Vec::new();
    let ghost mut done: Seq<Seq<u8>> = seq![];
    assert(bs.subrange(0, n as int) =~= bs);
    while n - i >= 2
        invariant
            b@ == bs,
            bs == encode_utf8(text@),
            n == bs.len(),
            valid_utf8(bs),
            start <= i <= n,
            k <= start,
            encode_utf8(rest@) == bs.subrange(start as int, n as int),
            done.len() == k,
            done + lines_from(bs, start as int, i as int) == lines_of(bs),
            texts(out@) == tokens_of(data_lines(done)),
        decreases n - i,
    {
        if b[i] == 13 && b[i + 1] == 10 {
            let ghost rb = encode_utf8(rest@);
            let cut = i - start;
            assert(rb[cut as int] == 13);
            proof {
                vstd::utf8::is_char_boundary_iff_not_is_continuation_byte(rb, cut as int);
            }
            let (line, tail) = rest.split_at(cut);
            let ghost tb = encode_utf8(tail@);
            assert(tb =~= bs.subrange(i as int, n as int));
            assert(tb[0] == 13 && tb[1] == 10);
            proof {
                lemma_crlf_boundary(tb);
            }
            let (_, after) = tail.split_at(2);
            let ghost lb = bs.subrange(start as int, i as int);
            assert(encode_utf8(line@) =~= lb);
            proof {
                assert(lines_from(bs, start as int, i as int) == seq![lb] + lines_from(bs, i + 2, i + 2));
                assert(done.push(lb) + lines_from(bs, i + 2, i + 2) =~= done + lines_from(bs, start as int, i as int));
                assert(done.push(lb).drop_last() =~= done);
            }
            keep_data_line(&mut out, line, k, Ghost(done));
            proof {
                done = done.push(lb);
            }
            assert(encode_utf8(after@) =~= bs.subrange(i + 2, n as int));
            rest = after;
            start = i + 2;
            i = i + 2;
            k = k + 1;
        } else {
            i = i + 1;
        }
    }
    let ghost lb = bs.subrange(start as int, n as int);
    proof {
        assert(lines_from(bs, start as int, i as int) == seq![lb]);
        assert(done.push(lb) =~= lines_of(bs));
        assert(done.push(lb).drop_last() =~= done);
    }
    keep_data_line(&mut out, rest, k, Ghost(done));
    out
}

/// Appends the token of line number `k` to `out` when that line is a data
/// line whose token is not empty.
fn keep_data_line(out: &mut Vec<String>, line: &str, k: usize, Ghost(done): Ghost<Seq<Seq<u8>>>)
    requires
        done.len() == k,
        texts(old(out)@) == tokens_of(data_lines(done)),
    ensures
        texts(final(out)@) == tokens_of(data_lines(done.push(encode_utf8(line@)))),
{
    let ghost lb = encode_utf8(line@);
    let ghost all = done.push(lb);
    assert(all.drop_last() =~= done);
    assert(decode_utf8(lb) == line@);
    if k >= 2 && k % 2 == 0 {
        let t = trim_end(line);
        let ghost d = data_lines(done);
        assert(data_lines(all) == d.push(lb));
        assert(d.push(lb).drop_last() =~= d);
        if !t.is_empty() {
            out.push(t.to_owned());
            assert(texts(final(out)@) =~= texts(old(out)@).push(t@));
        }
    } else {
        assert(data_lines(all) == data_lines(done));
    }
}

/// Decodes one request frame into a command.
pub fn parse_command(frame: &[u8]) -> (r: Result<Command, ParseError>)
    ensures
        outcome_view(r) == frame_command(frame@),
{
    let text = match utf8_text(frame) {
        Some(t) => t,
        None => return Err(ParseError::NotUtf8),
    };
    let mut tokens = tokenize(text);
    if tokens.len() == 0 {
        return Err(ParseError::NoCommand);
    }
    let ghost all = tokens@;
    let first = tokens.remove(0);
    assert(texts(tokens@) =~= texts(all).drop_first());
    let name = lowercase(first.as_str());
    dispatch(name.as_str(), &tokens)
}

} // verus!
