//! Character classes of the format, and small verified string utilities.
//!
//! The format's whitespace, structural characters, escape table and decimal
//! digits are defined here as spec functions, together with the executable
//! helpers (trimming, string equality, character appending) that the rest of
//! the library is specified against.

use vstd::prelude::*;
use vstd::string::StrSliceExecFns;

verus! {

/// Whitespace that separates tokens without being significant: space, tab
/// and carriage return.  Newlines are significant and are not blank.
pub open spec fn is_blank(c: char) -> bool {
    c == ' ' || c == '\t' || c == '\r'
}

/// Whitespace in the wide sense, as trimming understands it.
pub open spec fn is_ws(c: char) -> bool {
    is_blank(c) || c == '\n'
}

/// The six structural characters of the format.
pub open spec fn is_structural(c: char) -> bool {
    c == '{' || c == '}' || c == '[' || c == ']' || c == ':' || c == ','
}

/// The escape table: the character that `\c` stands for, or `None` when
/// `\c` is not a valid escape sequence.
pub open spec fn escape_of(c: char) -> Option<char> {
    if c == '\\' {
        Some('\\')
    } else if c == 'n' {
        Some('\n')
    } else if c == 't' {
        Some('\t')
    } else if c == 'r' {
        Some('\r')
    } else if c == ':' {
        Some(':')
    } else if c == '"' {
        Some('"')
    } else if c == '[' {
        Some('[')
    } else if c == ']' {
        Some(']')
    } else if c == '{' {
        Some('{')
    } else if c == '}' {
        Some('}')
    } else {
        None
    }
}

/// A decimal digit.
pub open spec fn is_digit(c: char) -> bool {
    ('0' as u32) <= (c as u32) && (c as u32) <= ('9' as u32)
}

/// The numeric value of a decimal digit.
pub open spec fn digit_val(c: char) -> int {
    (c as u32) - ('0' as u32)
}

/// The first index at or after `i` holding a non-whitespace character, or
/// the end of `s`.
pub open spec fn ws_run_end(s: Seq<char>, i: int) -> int
    decreases s.len() - i,
    when 0 <= i <= s.len()
{
    if i >= s.len() {
        i
    } else if is_ws(s[i]) {
        ws_run_end(s, i + 1)
    } else {
        i
    }
}

/// Scanning backwards from `j`, the index just after the last
/// non-whitespace character, stopping at `lo`.
pub open spec fn ws_run_start(s: Seq<char>, j: int, lo: int) -> int
    decreases j,
    when 0 <= lo <= j <= s.len()
{
    if j <= lo {
        j
    } else if is_ws(s[j - 1]) {
        ws_run_start(s, j - 1, lo)
    } else {
        j
    }
}

/// `s` with leading and trailing whitespace removed.
pub open spec fn spec_trim(s: Seq<char>) -> Seq<char> {
    let a = ws_run_end(s, 0);
    let b = ws_run_start(s, s.len() as int, a);
    s.subrange(a, b)
}

pub proof fn lemma_ws_run_end_bounds(s: Seq<char>, i: int)
    requires
        0 <= i <= s.len(),
    ensures
        i <= ws_run_end(s, i) <= s.len(),
        ws_run_end(s, i) < s.len() ==> !is_ws(s[ws_run_end(s, i)]),
        forall|k: int| i <= k < ws_run_end(s, i) ==> is_ws(s[k]),
    decreases s.len() - i,
{
    if i < s.len() && is_ws(s[i]) {
        lemma_ws_run_end_bounds(s, i + 1);
    }
}

pub proof fn lemma_ws_run_start_bounds(s: Seq<char>, j: int, lo: int)
    requires
        0 <= lo <= j <= s.len(),
    ensures
        lo <= ws_run_start(s, j, lo) <= j,
        ws_run_start(s, j, lo) > lo ==> !is_ws(s[ws_run_start(s, j, lo) - 1]),
        forall|k: int| ws_run_start(s, j, lo) <= k < j ==> is_ws(s[k]),
    decreases j,
{
    if j > lo && is_ws(s[j - 1]) {
        lemma_ws_run_start_bounds(s, j - 1, lo);
    }
}

/// Trimming a sequence whose first and last characters are not whitespace
/// leaves it unchanged.
pub proof fn lemma_trim_clean(s: Seq<char>)
    requires
        s.len() > 0,
        !is_ws(s[0]),
        !is_ws(s[s.len() - 1]),
    ensures
        spec_trim(s) == s,
{
    assert(ws_run_end(s, 0) == 0);
    assert(ws_run_start(s, s.len() as int, 0) == s.len());
    assert(spec_trim(s) =~= s);
}

/// True when `c` is whitespace for trimming purposes.
pub fn is_ws_char(c: char) -> (r: bool)
    ensures
        r == is_ws(c),
{
    c == ' ' || c == '\t' || c == '\r' || c == '\n'
}

/// `s` with leading and trailing whitespace removed, as a view of `s`.
pub fn trim_str<'a>(s: &'a str) -> (r: &'a str)
    ensures
        r@ == spec_trim(s@),
{
    let n = s.unicode_len();
    let mut a: usize = 0;
    loop
        invariant
            0 <= a <= n,
            n == s@.len(),
            ws_run_end(s@, 0) == ws_run_end(s@, a as int),
        ensures
            0 <= a <= n,
            ws_run_end(s@, 0) == a,
        decreases n - a,
    {
        if a >= n {
            assert(ws_run_end(s@, a as int) == a);
            break;
        }
        let c = s.get_char(a);
        if !is_ws_char(c) {
            assert(ws_run_end(s@, a as int) == a);
            break;
        }
        a = a + 1;
    }
    let mut b: usize = n;
    loop
        invariant
            a <= b <= n,
            n == s@.len(),
            ws_run_end(s@, 0) == a,
            ws_run_start(s@, n as int, a as int) == ws_run_start(s@, b as int, a as int),
        ensures
            a <= b <= n,
            ws_run_start(s@, n as int, a as int) == b,
        decreases b,
    {
        if b <= a {
            assert(ws_run_start(s@, b as int, a as int) == b);
            break;
        }
        let c = s.get_char(b - 1);
        if !is_ws_char(c) {
            assert(ws_run_start(s@, b as int, a as int) == b);
            break;
        }
        b = b - 1;
    }
    s.substring_char(a, b)
}

/// Character-for-character equality of two strings.
pub fn str_eq(a: &str, b: &str) -> (r: bool)
    ensures
        r == (a@ == b@),
{
    let na = a.unicode_len();
    let nb = b.unicode_len();
    if na != nb {
        return false;
    }
    let mut i: usize = 0;
    loop
        invariant
            0 <= i <= na,
            na == a@.len(),
            na == b@.len(),
            forall|k: int| 0 <= k < i ==> a@[k] == b@[k],
        ensures
            forall|k: int| 0 <= k < na ==> a@[k] == b@[k],
        decreases na - i,
    {
        if i >= na {
            break;
        }
        if a.get_char(i) != b.get_char(i) {
            return false;
        }
        i = i + 1;
    }
    proof {
        assert(a@ =~= b@);
    }
    true
}

/// Relies on `String::push`: appends the given character to the end of the
/// string.
#[verifier::external_body]
pub(crate) fn push_char(s: &mut String, c: char)
    ensures
        final(s)@ == old(s)@.push(c),
{
    s.push(c);
}

/// The character for one decimal digit.
pub open spec fn digit_char(d: nat) -> char {
    if d == 0 {
        '0'
    } else if d == 1 {
        '1'
    } else if d == 2 {
        '2'
    } else if d == 3 {
        '3'
    } else if d == 4 {
        '4'
    } else if d == 5 {
        '5'
    } else if d == 6 {
        '6'
    } else if d == 7 {
        '7'
    } else if d == 8 {
        '8'
    } else {
        '9'
    }
}

/// The decimal digits of `n`, most significant first.
pub open spec fn dec_str(n: nat) -> Seq<char>
    decreases n,
{
    if n < 10 {
        seq![digit_char(n)]
    } else {
        dec_str(n / 10).push(digit_char(n % 10))
    }
}

/// `s` reversed.
pub open spec fn rev_chars(s: Seq<char>) -> Seq<char> {
    Seq::new(s.len(), |i: int| s[s.len() - 1 - i])
}

/// The character for one decimal digit.
fn digit_char_of(d: usize) -> (r: char)
    requires
        d < 10,
    ensures
        r == digit_char(d as nat),
{
    if d == 0 {
        '0'
    } else if d == 1 {
        '1'
    } else if d == 2 {
        '2'
    } else if d == 3 {
        '3'
    } else if d == 4 {
        '4'
    } else if d == 5 {
        '5'
    } else if d == 6 {
        '6'
    } else if d == 7 {
        '7'
    } else if d == 8 {
        '8'
    } else {
        '9'
    }
}

/// Render `n` in decimal.
pub fn decimal_string(n: usize) -> (r: String)
    ensures
        r@ == dec_str(n as nat),
{
    let mut digits: Vec<char> = Vec::new();
    let mut m: usize = n;
    loop
        invariant_except_break
            digits@.len() == 0 ==> m == n,
            digits@.len() > 0 ==> m > 0 && dec_str(n as nat) == dec_str(m as nat) + rev_chars(
                digits@,
            ),
        ensures
            digits@.len() > 0,
            dec_str(n as nat) == rev_chars(digits@),
        decreases m, (if digits@.len() == 0 {
            1int
        } else {
            0int
        }),
    {
        let ghost olddigits = digits@;
        let ghost oldm = m;
        let d = m % 10;
        digits.push(digit_char_of(d));
        proof {
            assert(rev_chars(digits@) =~= seq![digit_char(d as nat)] + rev_chars(olddigits));
            if oldm >= 10 {
                assert(dec_str(oldm as nat) == dec_str((oldm / 10) as nat).push(
                    digit_char((oldm % 10) as nat),
                ));
                if olddigits.len() == 0 {
                    assert(dec_str((oldm / 10) as nat) + rev_chars(digits@) =~= dec_str(
                        oldm as nat,
                    ));
                } else {
                    assert(dec_str((oldm / 10) as nat) + rev_chars(digits@) =~= dec_str(
                        oldm as nat,
                    ) + rev_chars(olddigits));
                }
            } else {
                if olddigits.len() == 0 {
                    assert(rev_chars(digits@) =~= dec_str(oldm as nat));
                } else {
                    assert(rev_chars(digits@) =~= dec_str(oldm as nat) + rev_chars(olddigits));
                }
            }
        }
        m = m / 10;
        if m == 0 {
            break;
        }
    }
    let mut out = String::new();
    let k = digits.len();
    let mut i: usize = k;
    loop
        invariant
            0 <= i <= k,
            k == digits@.len(),
            dec_str(n as nat) == rev_chars(digits@),
            out@ =~= rev_chars(digits@).subrange(0, k - i),
        ensures
            i == 0,
            out@ =~= rev_chars(digits@),
            dec_str(n as nat) == rev_chars(digits@),
        decreases i,
    {
        if i == 0 {
            proof {
                assert(rev_chars(digits@).subrange(0, k as int) =~= rev_chars(digits@));
            }
            break;
        }
        let c = digits[i - 1];
        push_char(&mut out, c);
        proof {
            assert(rev_chars(digits@)[k - i] == digits@[i - 1]);
            assert(rev_chars(digits@).subrange(0, k - i + 1) =~= rev_chars(digits@).subrange(
                0,
                k - i,
            ).push(c));
        }
        i = i - 1;
    }
    out
}

} // verus!
