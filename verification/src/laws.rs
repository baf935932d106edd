//! Laws of the library, stated and proved once and for all.
//!
//! Each proof function here states a property of the models that the
//! executable functions are specified against, so the property carries to
//! every call of those functions.

use vstd::prelude::*;

use crate::chars::{escape_of, is_ws, spec_trim};
use crate::error::ErrorKind;
use crate::lexer::{lex_at, LexOut, TokenKind};
use crate::navigate::{next_element_token, table_spec, vector_spec, TableOut, VectorOut};
use crate::scalar::{text_spec, unescape, Decoded};
use crate::span::Span;

verus! {

/// Round-trip identity: on a node whose trimmed raw text is not empty and
/// not quoted, text coercion returns exactly that trimmed text.
pub proof fn lemma_text_unquoted_identity(raw: Seq<char>)
    requires
        spec_trim(raw).len() > 0,
        spec_trim(raw)[0] != '"',
    ensures
        text_spec(raw) == Ok::<Seq<char>, ErrorKind>(spec_trim(raw)),
{
}

/// Decoding text without backslashes changes nothing.
pub proof fn lemma_unescape_identity(s: Seq<char>)
    requires
        forall|i: int| 0 <= i < s.len() ==> s[i] != '\\',
    ensures
        unescape(s) == Decoded::Text(s),
    decreases s.len(),
{
    if s.len() == 0 {
        assert(s =~= Seq::<char>::empty());
    } else {
        lemma_unescape_identity(s.subrange(1, s.len() as int));
        assert(seq![s[0]] + s.subrange(1, s.len() as int) =~= s);
    }
}

/// Round-trip identity, quoted form: on a node whose trimmed raw text is a
/// quoted literal without escapes, text coercion returns exactly the
/// interior of the quotes.
pub proof fn lemma_text_quoted_identity(raw: Seq<char>)
    requires
        spec_trim(raw).len() >= 2,
        spec_trim(raw)[0] == '"',
        spec_trim(raw)[spec_trim(raw).len() - 1] == '"',
        forall|i: int| 1 <= i < spec_trim(raw).len() - 1 ==> spec_trim(raw)[i] != '\\',
    ensures
        text_spec(raw) == Ok::<Seq<char>, ErrorKind>(
            spec_trim(raw).subrange(1, spec_trim(raw).len() - 1),
        ),
{
    let t = spec_trim(raw);
    lemma_unescape_identity(t.subrange(1, t.len() - 1));
}

/// Escape completeness: for each of the ten escape pairs, `\c` decodes to
/// the character it stands for; for any other `c`, `\c` fails as an
/// invalid escape naming that `c`.
pub proof fn lemma_escape_completeness(c: char)
    ensures
        escape_of(c) matches Some(e) ==> unescape(seq!['\\', c]) == Decoded::Text(seq![e]),
        escape_of(c) is None ==> unescape(seq!['\\', c]) == Decoded::BadEscape(c),
{
    let s = seq!['\\', c];
    assert(s[0] == '\\' && s[1] == c && s.len() == 2);
    match escape_of(c) {
        Some(e) => {
            assert(s.subrange(2, 2) =~= Seq::<char>::empty());
            assert(unescape(Seq::<char>::empty()) == Decoded::Text(Seq::<char>::empty()));
            assert(seq![e] + Seq::<char>::empty() =~= seq![e]);
        },
        None => {},
    }
}

/// Decoding distributes over concatenation: after a cleanly decodable
/// prefix, the rest decodes exactly as it would alone, and the decoded
/// texts concatenate.
pub proof fn lemma_unescape_concat(a: Seq<char>, b: Seq<char>)
    requires
        unescape(a) matches Decoded::Text(_),
    ensures
        ({
            match (unescape(a), unescape(b)) {
                (Decoded::Text(ta), Decoded::Text(tb)) => unescape(a + b) == Decoded::Text(
                    ta + tb,
                ),
                (Decoded::Text(_), other) => unescape(a + b) == other,
                _ => true,
            }
        }),
    decreases a.len(),
{
    if a.len() == 0 {
        assert(a + b =~= b);
        match (unescape(a), unescape(b)) {
            (Decoded::Text(ta), Decoded::Text(tb)) => {
                assert(ta + tb =~= tb);
            },
            _ => {},
        }
    } else if a[0] != '\\' {
        let a1 = a.subrange(1, a.len() as int);
        lemma_unescape_concat(a1, b);
        assert((a + b)[0] == a[0]);
        assert((a + b).subrange(1, (a + b).len() as int) =~= a1 + b);
        match (unescape(a1), unescape(b)) {
            (Decoded::Text(t1), Decoded::Text(tb)) => {
                assert(seq![a[0]] + (t1 + tb) =~= (seq![a[0]] + t1) + tb);
            },
            _ => {},
        }
    } else {
        let e = escape_of(a[1]).unwrap();
        let a2 = a.subrange(2, a.len() as int);
        lemma_unescape_concat(a2, b);
        assert((a + b)[0] == a[0] && (a + b)[1] == a[1]);
        assert((a + b).subrange(2, (a + b).len() as int) =~= a2 + b);
        match (unescape(a2), unescape(b)) {
            (Decoded::Text(t2), Decoded::Text(tb)) => {
                assert(seq![e] + (t2 + tb) =~= (seq![e] + t2) + tb);
            },
            _ => {},
        }
    }
}

/// Escape completeness in context: wherever `\c` stands in a string, it
/// decodes to the one character it stands for; an invalid `\c` fails the
/// whole string as `InvalidEscape(c)`, whatever else the string holds.
pub proof fn lemma_escape_in_context(prefix: Seq<char>, c: char, suffix: Seq<char>)
    requires
        unescape(prefix) matches Decoded::Text(_),
    ensures
        ({
            match (unescape(prefix), unescape(suffix)) {
                (Decoded::Text(tp), Decoded::Text(ts)) => {
                    &&& (escape_of(c) matches Some(e) ==> unescape(prefix + seq!['\\', c] + suffix)
                        == Decoded::Text(tp + seq![e] + ts))
                    &&& (escape_of(c) is None ==> unescape(prefix + seq!['\\', c] + suffix)
                        == Decoded::BadEscape(c))
                },
                _ => true,
            }
        }),
{
    lemma_escape_completeness(c);
    let mid = seq!['\\', c];
    match unescape(suffix) {
        Decoded::Text(ts) => {
            match escape_of(c) {
                Some(e) => {
                    lemma_unescape_concat(mid, suffix);
                    assert(unescape(mid + suffix) == Decoded::Text(seq![e] + ts));
                    lemma_unescape_concat(prefix, mid + suffix);
                    assert(prefix + mid + suffix =~= prefix + (mid + suffix));
                    match unescape(prefix) {
                        Decoded::Text(tp) => {
                            assert(tp + (seq![e] + ts) =~= tp + seq![e] + ts);
                        },
                        _ => {},
                    }
                },
                None => {
                    assert((mid + suffix)[0] == '\\' && (mid + suffix)[1] == c);
                    assert(unescape(mid + suffix) == Decoded::BadEscape(c));
                    lemma_unescape_concat(prefix, mid + suffix);
                    assert(prefix + mid + suffix =~= prefix + (mid + suffix));
                },
            }
        },
        _ => {},
    }
}

/// Escape completeness at the text level: coercing the four characters
/// `"\c"` yields the character `\c` stands for, or fails with
/// `InvalidEscape(c)` when it stands for nothing — never anything else.
pub proof fn lemma_escape_completeness_text(c: char)
    requires
        !is_ws(c),
    ensures
        escape_of(c) matches Some(e) ==> text_spec(seq!['"', '\\', c, '"']) == Ok::<
            Seq<char>,
            ErrorKind,
        >(seq![e]),
        escape_of(c) is None ==> text_spec(seq!['"', '\\', c, '"']) == Err::<
            Seq<char>,
            ErrorKind,
        >(ErrorKind::InvalidEscape(c)),
{
    let raw = seq!['"', '\\', c, '"'];
    assert(raw.len() == 4 && raw[0] == '"' && raw[3] == '"');
    crate::chars::lemma_trim_clean(raw);
    let t = spec_trim(raw);
    assert(t.subrange(1, 3) =~= seq!['\\', c]);
    lemma_escape_completeness(c);
}

/// Separator equivalence: a separator token — a comma or a newline —
/// standing before an element never changes which element is found.
/// Scanning for the next element from the separator's start and from its
/// end give the same answer, so any run of separators, in any mixture,
/// counts as one.  Both table and vector navigation find their members
/// through this scan.
pub proof fn lemma_separator_equivalence(s: Seq<char>, pos: int)
    requires
        0 <= pos <= s.len(),
    ensures
        ({
            match lex_at(s, pos) {
                LexOut::Tok { kind, start, end } => (kind == TokenKind::Newline || kind
                    == TokenKind::Comma) ==> next_element_token(s, pos) == next_element_token(
                    s,
                    end,
                ),
                _ => true,
            }
        }),
{
    crate::lexer::lemma_lex_at_bounds(s, pos);
}

/// Shape guard symmetry: on a node whose trimmed text opens a table,
/// vector navigation fails with `NotAVector`; on one that opens a vector,
/// table navigation fails with `NotATable`; on a bare scalar (or anything
/// else), both fail.
pub proof fn lemma_shape_guard_symmetry(s: Seq<char>, span: Span)
    ensures
        ({
            let t = spec_trim(s.subrange(span.start as int, span.spec_end()));
            &&& (t.len() > 0 && t[0] == '{' ==> vector_spec(s, span) == VectorOut::VectorFail(
                ErrorKind::NotAVector,
                span.start as int,
                span.spec_end(),
            ))
            &&& (t.len() > 0 && t[0] == '[' ==> table_spec(s, span) == TableOut::TableFail(
                ErrorKind::NotATable,
                span.start as int,
                span.spec_end(),
            ))
            &&& (t.len() == 0 || (t[0] != '{' && t[0] != '[') ==> table_spec(s, span)
                == TableOut::TableFail(
                ErrorKind::NotATable,
                span.start as int,
                span.spec_end(),
            ) && vector_spec(s, span) == VectorOut::VectorFail(
                ErrorKind::NotAVector,
                span.start as int,
                span.spec_end(),
            ))
        }),
{
}

} // verus!
