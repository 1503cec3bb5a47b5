use vstd::prelude::*;
use vstd::string::StrSliceExecFns;

verus! {

/// State of the tag scanner: outside a token (separators are skipped),
/// inside a token, or just after an escaping backslash.
pub enum ScanState {
    White,
    Normal,
    Escape,
}

/// Closes the current token buffer: a non-empty buffer is appended to the
/// output list, an empty one is dropped.
pub open spec fn flush(buf: Seq<char>, out: Seq<Seq<char>>) -> Seq<Seq<char>> {
    if buf.len() == 0 {
        out
    } else {
        out.push(buf)
    }
}

/// One left-to-right pass of the tag scanner over `s`, starting in state `st`
/// with the pending token `buf` and the tokens already produced `out`.
///
/// In `White`, spaces and underscores are skipped, a comma closes the pending
/// token and any other character starts a token. In `Normal`, a space or
/// underscore is collapsed to a single space, a backslash escapes the next
/// character, and a comma closes the token. In `Escape`, the next character is
/// taken verbatim. At the end of the input the pending token is closed.
pub open spec fn scan(s: Seq<char>, st: ScanState, buf: Seq<char>, out: Seq<Seq<char>>) -> Seq<
    Seq<char>,
>
    decreases s.len(),
{
    if s.len() == 0 {
        flush(buf, out)
    } else {
        let c = s[0];
        let rest = s.drop_first();
        match st {
            ScanState::Escape => scan(rest, ScanState::Normal, buf.push(c), out),
            ScanState::White => {
                if c == ' ' || c == '_' {
                    scan(rest, ScanState::White, buf, out)
                } else if c == ',' {
                    scan(rest, ScanState::White, Seq::empty(), flush(buf, out))
                } else {
                    scan(rest, ScanState::Normal, buf.push(c), out)
                }
            },
            ScanState::Normal => {
                if c == ' ' || c == '_' {
                    scan(rest, ScanState::White, buf.push(' '), out)
                } else if c == '\\' {
                    scan(rest, ScanState::Escape, buf, out)
                } else if c == ',' {
                    scan(rest, ScanState::White, Seq::empty(), flush(buf, out))
                } else {
                    scan(rest, ScanState::Normal, buf.push(c), out)
                }
            },
        }
    }
}

/// The token list produced by scanning `s` from the initial state.
pub open spec fn spec_parse_tags(s: Seq<char>) -> Seq<Seq<char>> {
    scan(s, ScanState::White, Seq::empty(), Seq::empty())
}

/// Relies on `String::push`: appends exactly the given character.
#[verifier::external_body]
pub(crate) fn push_char(s: &mut String, c: char)
    ensures
        final(s)@ == old(s)@.push(c),
{
    s.push(c);
}

/// Appends the pending token to `out` if it is non-empty and resets it,
/// exactly as [`flush`] describes.
fn flush_token(buf: &mut String, out: &mut Vec<String>)
    ensures
        final(buf)@ == Seq::<char>::empty(),
        final(out).deep_view() == flush(old(buf)@, old(out).deep_view()),
{
    if !buf.as_str().is_empty() {
        let t = buf.clone();
        out.push(t);
        *buf = String::new();
        proof {
            assert(final(out).deep_view() =~= flush(old(buf)@, old(out).deep_view()));
        }
    }
}

/// Splits free-form tag text into normalized tag tokens: commas separate
/// tokens, runs of spaces and underscores collapse to one space, a backslash
/// escapes the following character, and empty tokens are dropped.
pub fn parse_tags(txt: &str) -> (tags: Vec<String>)
    ensures
        tags.deep_view() == spec_parse_tags(txt@),
{
    let n = txt.unicode_len();
    let mut st = ScanState::White;
    let mut buf = String::new();
    let mut out: Vec<String> = Vec::new();
    let mut i: usize = 0;
    proof {
        assert(txt@.skip(0) =~= txt@);
        assert(out.deep_view() =~= Seq::<Seq<char>>::empty());
    }
    while i < n
        invariant
            i <= n,
            n == txt@.len(),
            scan(txt@.skip(i as int), st, buf@, out.deep_view()) == spec_parse_tags(txt@),
        decreases n - i,
    {
        let c = txt.get_char(i);
        proof {
            assert(txt@.skip(i as int)[0] == txt@[i as int]);
            assert(txt@.skip(i as int).drop_first() =~= txt@.skip(i as int + 1));
        }
        match st {
            ScanState::Escape => {
                push_char(&mut buf, c);
                st = ScanState::Normal;
            },
            ScanState::White => {
                if c == ' ' || c == '_' {
                } else if c == ',' {
                    flush_token(&mut buf, &mut out);
                } else {
                    push_char(&mut buf, c);
                    st = ScanState::Normal;
                }
            },
            ScanState::Normal => {
                if c == ' ' || c == '_' {
                    push_char(&mut buf, ' ');
                    st = ScanState::White;
                } else if c == '\\' {
                    st = ScanState::Escape;
                } else if c == ',' {
                    flush_token(&mut buf, &mut out);
                    st = ScanState::White;
                } else {
                    push_char(&mut buf, c);
                }
            },
        }
        i += 1;
    }
    proof {
        assert(txt@.skip(n as int) =~= Seq::<char>::empty());
    }
    flush_token(&mut buf, &mut out);
    out
}

/// A character with no special meaning to the tokenizer: not a separator, not
/// a space or underscore, and not an escaping backslash.
pub open spec fn plain_char(c: char) -> bool {
    c != ' ' && c != '_' && c != ',' && c != '\\'
}

/// A non-empty token made only of plain characters.
pub open spec fn plain_token(t: Seq<char>) -> bool {
    &&& t.len() > 0
    &&& forall|i: int| 0 <= i < t.len() ==> plain_char(t[i])
}

/// The comma-join of a token list.
pub open spec fn join_tags(ts: Seq<Seq<char>>) -> Seq<char>
    decreases ts.len(),
{
    if ts.len() == 0 {
        Seq::empty()
    } else if ts.len() == 1 {
        ts[0]
    } else {
        ts[0] + seq![','] + join_tags(ts.drop_first())
    }
}

/// Scanning a run of plain characters in `Normal` state just moves them into
/// the pending token.
proof fn lemma_scan_plain_normal(t: Seq<char>, rest: Seq<char>, buf: Seq<char>, out: Seq<Seq<char>>)
    requires
        forall|i: int| 0 <= i < t.len() ==> plain_char(t[i]),
    ensures
        scan(t + rest, ScanState::Normal, buf, out) == scan(rest, ScanState::Normal, buf + t, out),
    decreases t.len(),
{
    if t.len() == 0 {
        assert(t + rest =~= rest);
        assert(buf + t =~= buf);
    } else {
        let c = t[0];
        assert((t + rest)[0] == c);
        assert((t + rest).drop_first() =~= t.drop_first() + rest);
        lemma_scan_plain_normal(t.drop_first(), rest, buf.push(c), out);
        assert(buf.push(c) + t.drop_first() =~= buf + t);
    }
}

/// Scanning the comma-join of plain tokens from the initial state appends
/// exactly those tokens to the output.
proof fn lemma_scan_join(ts: Seq<Seq<char>>, out: Seq<Seq<char>>)
    requires
        forall|i: int| 0 <= i < ts.len() ==> plain_token(ts[i]),
    ensures
        scan(join_tags(ts), ScanState::White, Seq::empty(), out) == out + ts,
    decreases ts.len(),
{
    if ts.len() == 0 {
        assert(out + ts =~= out);
    } else if ts.len() == 1 {
        let t = ts[0];
        assert(plain_token(t));
        assert(plain_char(t[0]));
        assert(t.drop_first() =~= t.drop_first() + Seq::<char>::empty());
        lemma_scan_plain_normal(
            t.drop_first(),
            Seq::empty(),
            Seq::<char>::empty().push(t[0]),
            out,
        );
        assert(Seq::<char>::empty().push(t[0]) + t.drop_first() =~= t);
        assert(out + ts =~= out.push(t));
    } else {
        let t = ts[0];
        let tail = seq![','] + join_tags(ts.drop_first());
        assert(plain_token(t));
        assert(plain_char(t[0]));
        assert(join_tags(ts) =~= t + tail);
        assert((t + tail)[0] == t[0]);
        assert((t + tail).drop_first() =~= t.drop_first() + tail);
        lemma_scan_plain_normal(t.drop_first(), tail, Seq::<char>::empty().push(t[0]), out);
        assert(Seq::<char>::empty().push(t[0]) + t.drop_first() =~= t);
        assert(tail[0] == ',');
        assert(tail.drop_first() =~= join_tags(ts.drop_first()));
        lemma_scan_join(ts.drop_first(), out.push(t));
        assert(out.push(t) + ts.drop_first() =~= out + ts);
    }
}

/// Tokenizer idempotence: re-tokenizing the comma-join of a token list made of
/// plain, non-empty tokens reproduces the same list.
pub proof fn lemma_tokenizer_idempotent(ts: Seq<Seq<char>>)
    requires
        forall|i: int| 0 <= i < ts.len() ==> plain_token(ts[i]),
    ensures
        spec_parse_tags(join_tags(ts)) == ts,
{
    lemma_scan_join(ts, Seq::empty());
    assert(Seq::<Seq<char>>::empty() + ts =~= ts);
}

/// The tag key a raw text field yields: its first token, or the field itself
/// verbatim when tokenization yields nothing.
pub open spec fn spec_key_of(field: Seq<char>) -> Seq<char> {
    let ts = spec_parse_tags(field);
    if ts.len() == 0 {
        field
    } else {
        ts[0]
    }
}

/// Normalizes a raw tag field to its key: the first token of the field, or
/// the field verbatim when tokenization yields nothing.
pub fn try_parse_tag(tag: &str) -> (key: String)
    ensures
        key@ == spec_key_of(tag@),
{
    let mut ts = parse_tags(tag);
    if ts.len() == 0 {
        tag.to_owned()
    } else {
        proof {
            assert(ts.deep_view()[0] == ts@[0]@);
        }
        ts.remove(0)
    }
}

} // verus!

