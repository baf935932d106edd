//! Scalar coercion: raw node text to strings and integers.
//!
//! [`text`] resolves a node to a string, decoding the escape sequences of
//! quoted literals; [`uint64`] parses a node as a decimal unsigned 64-bit
//! integer.  Both are specified exactly: [`text_spec`] and [`dec_val`] say
//! what every input coerces to, and on which inputs each error is returned.

use vstd::prelude::*;
use vstd::string::StrSliceExecFns;

use crate::chars::{
    digit_val, escape_of, is_digit, push_char, spec_trim, trim_str,
};
use crate::error::{Error, ErrorKind};
use crate::node::Node;

verus! {

/// The outcome of decoding the interior of a quoted string.
pub enum Decoded {
    /// Every escape resolved; the decoded characters.
    Text(Seq<char>),
    /// The first invalid escape sequence: `\c` with this `c`.
    BadEscape(char),
    /// A lone backslash at the end of the interior.
    Truncated,
}

/// Decode the interior of a quoted string, left to right: each `\c` is
/// replaced by the character it stands for, and the first failure wins.
pub open spec fn unescape(s: Seq<char>) -> Decoded
    decreases s.len(),
{
    if s.len() == 0 {
        Decoded::Text(Seq::empty())
    } else if s[0] == '\\' {
        if s.len() == 1 {
            Decoded::Truncated
        } else {
            match escape_of(s[1]) {
                Some(c) => match unescape(s.subrange(2, s.len() as int)) {
                    Decoded::Text(t) => Decoded::Text(seq![c] + t),
                    other => other,
                },
                None => Decoded::BadEscape(s[1]),
            }
        }
    } else {
        match unescape(s.subrange(1, s.len() as int)) {
            Decoded::Text(t) => Decoded::Text(seq![s[0]] + t),
            other => other,
        }
    }
}

/// What [`text`] returns on a node with the given raw characters: the
/// coerced string, or the kind of error (whose span is the node's span).
pub open spec fn text_spec(raw: Seq<char>) -> Result<Seq<char>, ErrorKind> {
    let t = spec_trim(raw);
    if t.len() == 0 {
        Err(ErrorKind::NotAScalar)
    } else if t[0] == '"' {
        if t[t.len() - 1] != '"' || t.len() < 2 {
            Err(ErrorKind::UnclosedString)
        } else {
            match unescape(t.subrange(1, t.len() - 1)) {
                Decoded::Text(u) => Ok(u),
                Decoded::BadEscape(c) => Err(ErrorKind::InvalidEscape(c)),
                Decoded::Truncated => Err(ErrorKind::UnexpectedEof),
            }
        }
    } else {
        Ok(t)
    }
}

/// The escape table as an executable function.
fn escape_char(c: char) -> (r: Option<char>)
    ensures
        r == escape_of(c),
{
    if c == '\\' {
        Some('\\')
    } else if c == 'n' {
        Some('\n')
    } else if c == 't' {
        Some('\t')
    } else if c == 'r' {
        Some('\r')
    } else if c == ':' {
        Some(':')
    } else if c == '"' {
        Some('"')
    } else if c == '[' {
        Some('[')
    } else if c == ']' {
        Some(']')
    } else if c == '{' {
        Some('{')
    } else if c == '}' {
        Some('}')
    } else {
        None
    }
}

/// Parse a node as a text string.
///
/// The trimmed raw text is coerced: a quoted literal has its escapes
/// resolved; unquoted text is returned verbatim.  The result on every
/// input, and when each error is returned, is given by [`text_spec`].
pub fn text<'a>(node: &Node<'a>) -> (r: Result<String, Error>)
    requires
        node.wf(),
    ensures
        match text_spec(node.raw_spec()) {
            Ok(u) => r matches Ok(s) && s@ == u,
            Err(k) => r == Err::<String, Error>(
                (Error { kind: k, span: node.spec_span() }),
            ),
        },
{
    let raw = node.raw();
    let t = trim_str(raw);
    let n = t.unicode_len();
    if n == 0 {
        return Err(Error::new(ErrorKind::NotAScalar, node.span()));
    }
    if t.get_char(0) != '"' {
        return Ok(t.to_owned());
    }
    if t.get_char(n - 1) != '"' || n < 2 {
        return Err(Error::new(ErrorKind::UnclosedString, node.span()));
    }
    let ghost interior = t@.subrange(1, n - 1);
    let mut out = String::new();
    let mut i: usize = 1;
    let m = n - 1;
    loop
        invariant
            1 <= i <= m,
            m == n - 1,
            n == t@.len(),
            2 <= n,
            interior == t@.subrange(1, n - 1),
            text_spec(node.raw_spec()) == (match unescape(interior) {
                Decoded::Text(u) => Ok::<Seq<char>, ErrorKind>(u),
                Decoded::BadEscape(c) => Err::<Seq<char>, ErrorKind>(ErrorKind::InvalidEscape(c)),
                Decoded::Truncated => Err::<Seq<char>, ErrorKind>(ErrorKind::UnexpectedEof),
            }),
            match unescape(t@.subrange(i as int, m as int)) {
                Decoded::Text(u) => unescape(interior) == Decoded::Text(out@ + u),
                other => unescape(interior) == other,
            },
        ensures
            i == m,
            unescape(interior) == Decoded::Text(out@),
        decreases m - i,
    {
        if i >= m {
            proof {
                assert(t@.subrange(i as int, m as int) =~= Seq::<char>::empty());
                assert(out@ + Seq::<char>::empty() =~= out@);
            }
            break;
        }
        let c = t.get_char(i);
        if c == '\\' {
            if i + 1 >= m {
                proof {
                    assert(t@.subrange(i as int, m as int).len() == 1);
                    assert(t@.subrange(i as int, m as int)[0] == '\\');
                    assert(unescape(t@.subrange(i as int, m as int)) == Decoded::Truncated);
                }
                return Err(Error::new(ErrorKind::UnexpectedEof, node.span()));
            }
            let c2 = t.get_char(i + 1);
            match escape_char(c2) {
                Some(e) => {
                    proof {
                        let rest = t@.subrange(i as int, m as int);
                        assert(rest[0] == '\\' && rest[1] == c2 && rest.len() >= 2);
                        assert(rest.subrange(2, rest.len() as int) =~= t@.subrange(
                            i + 2,
                            m as int,
                        ));
                        match unescape(t@.subrange(i + 2, m as int)) {
                            Decoded::Text(u) => {
                                assert(unescape(rest) == Decoded::Text(seq![e] + u));
                                assert(out@ + (seq![e] + u) =~= (out@.push(e)) + u);
                            },
                            Decoded::BadEscape(ch) => {
                                assert(unescape(rest) == Decoded::BadEscape(ch));
                            },
                            Decoded::Truncated => {
                                assert(unescape(rest) == Decoded::Truncated);
                            },
                        }
                    }
                    push_char(&mut out, e);
                    i = i + 2;
                },
                None => {
                    proof {
                        let rest = t@.subrange(i as int, m as int);
                        assert(rest[0] == '\\' && rest[1] == c2 && rest.len() >= 2);
                        assert(unescape(rest) == Decoded::BadEscape(c2));
                    }
                    return Err(Error::new(ErrorKind::InvalidEscape(c2), node.span()));
                },
            }
        } else {
            proof {
                let rest = t@.subrange(i as int, m as int);
                assert(rest[0] == c && c != '\\');
                assert(rest.subrange(1, rest.len() as int) =~= t@.subrange(i + 1, m as int));
                match unescape(t@.subrange(i + 1, m as int)) {
                    Decoded::Text(u) => {
                        assert(unescape(rest) == Decoded::Text(seq![c] + u));
                        assert(out@ + (seq![c] + u) =~= (out@.push(c)) + u);
                    },
                    Decoded::BadEscape(ch) => {
                        assert(unescape(rest) == Decoded::BadEscape(ch));
                    },
                    Decoded::Truncated => {
                        assert(unescape(rest) == Decoded::Truncated);
                    },
                }
            }
            push_char(&mut out, c);
            i = i + 1;
        }
    }
    Ok(out)
}

/// The value of a sequence of decimal digits.
pub open spec fn dec_val(s: Seq<char>) -> int
    decreases s.len(),
{
    if s.len() == 0 {
        0
    } else {
        dec_val(s.drop_last()) * 10 + digit_val(s.last())
    }
}

/// Every character is a decimal digit.
pub open spec fn all_digits(s: Seq<char>) -> bool {
    forall|i: int| 0 <= i < s.len() ==> is_digit(#[trigger] s[i])
}

/// The value of a digit sequence does not shrink as digits are appended.
pub proof fn lemma_dec_val_prefix(s: Seq<char>, i: int)
    requires
        0 <= i <= s.len(),
        all_digits(s),
    ensures
        0 <= dec_val(s.subrange(0, i)) <= dec_val(s.subrange(0, s.len() as int)),
    decreases s.len() - i,
{
    lemma_dec_val_nonneg(s.subrange(0, i));
    if i < s.len() {
        let a = s.subrange(0, i);
        let b = s.subrange(0, i + 1);
        assert(b.drop_last() =~= a);
        assert(is_digit(b.last()));
        assert(dec_val(b) == dec_val(a) * 10 + digit_val(b.last()));
        assert(dec_val(a) * 10 >= dec_val(a)) by (nonlinear_arith)
            requires
                dec_val(a) >= 0,
        ;
        lemma_dec_val_prefix(s, i + 1);
    }
}

/// The value of a digit sequence is not negative.
pub proof fn lemma_dec_val_nonneg(s: Seq<char>)
    requires
        all_digits(s),
    ensures
        dec_val(s) >= 0,
    decreases s.len(),
{
    if s.len() > 0 {
        assert(all_digits(s.drop_last()));
        lemma_dec_val_nonneg(s.drop_last());
        assert(is_digit(s.last()));
        assert(dec_val(s.drop_last()) * 10 >= 0) by (nonlinear_arith)
            requires
                dec_val(s.drop_last()) >= 0,
        ;
    }
}

/// Parse a node as a 64-bit unsigned integer.
///
/// The trimmed raw text must be one or more decimal digits whose value
/// fits in 64 bits; exactly then the call succeeds, with that value.
pub fn uint64(node: &Node<'_>) -> (r: Result<u64, Error>)
    requires
        node.wf(),
    ensures
        ({
            let t = spec_trim(node.raw_spec());
            if t.len() > 0 && all_digits(t) && dec_val(t) <= u64::MAX {
                r == Ok::<u64, Error>((dec_val(t) as u64))
            } else {
                r matches Err(e) && e.kind matches ErrorKind::ParseError(_) && e.span
                    == node.spec_span()
            }
        }),
{
    let raw = node.raw();
    let t = trim_str(raw);
    let n = t.unicode_len();
    if n == 0 {
        return Err(
            Error::new(
                ErrorKind::ParseError("cannot parse empty text as u64".to_owned()),
                node.span(),
            ),
        );
    }
    let mut acc: u64 = 0;
    let mut i: usize = 0;
    loop
        invariant
            0 <= i <= n,
            n == t@.len(),
            n > 0,
            t@ == spec_trim(node.raw_spec()),
            all_digits(t@.subrange(0, i as int)),
            acc == dec_val(t@.subrange(0, i as int)),
        ensures
            i == n,
            all_digits(t@),
            acc == dec_val(t@),
        decreases n - i,
    {
        if i >= n {
            proof {
                assert(t@.subrange(0, n as int) =~= t@);
            }
            break;
        }
        let c = t.get_char(i);
        let u = c as u32;
        if !(48 <= u && u <= 57) {
            proof {
                assert(('0' as u32) == 48 && ('9' as u32) == 57);
                assert(!is_digit(t@[i as int]));
            }
            return Err(
                Error::new(
                    ErrorKind::ParseError("invalid digit while parsing u64".to_owned()),
                    node.span(),
                ),
            );
        }
        let d: u64 = (u - 48) as u64;
        proof {
            let a = t@.subrange(0, i as int);
            let b = t@.subrange(0, i + 1);
            assert(b.drop_last() =~= a);
            assert(b.last() == c);
            assert(dec_val(b) == dec_val(a) * 10 + digit_val(c));
        }
        let step = match acc.checked_mul(10) {
            Some(v) => v.checked_add(d),
            None => None,
        };
        match step {
            Some(v) => {
                acc = v;
            },
            None => {
                proof {
                    assert(dec_val(t@.subrange(0, i + 1)) > u64::MAX);
                    if all_digits(t@) {
                        lemma_dec_val_prefix(t@, i + 1);
                        assert(t@.subrange(0, t@.len() as int) =~= t@);
                    }
                }
                return Err(
                    Error::new(
                        ErrorKind::ParseError("number too large for u64".to_owned()),
                        node.span(),
                    ),
                );
            },
        }
        i = i + 1;
    }
    Ok(acc)
}

} // verus!
