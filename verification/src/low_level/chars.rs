//! Character classes of the grammar, and the "maximal run" scanner that every
//! token rule is built from.

use vstd::prelude::*;

verus! {

/// Whitespace: what ends an unquoted token and separates values.
pub open spec fn is_ws_char(c: char) -> bool {
    c == ' ' || c == '\t' || c == '\r' || c == '\n'
}

/// A decimal digit.
pub open spec fn is_digit_char(c: char) -> bool {
    '0' as u32 <= c as u32 && c as u32 <= '9' as u32
}

/// A character allowed inside a unique id: hex digit or hyphen.
pub open spec fn is_uid_char(c: char) -> bool {
    is_digit_char(c) || ('a' as u32 <= c as u32 && c as u32 <= 'f' as u32) || ('A' as u32
        <= c as u32 && c as u32 <= 'F' as u32) || c == '-'
}

/// A character of an attribute name: uppercase letter, digit or underscore.
pub open spec fn is_name_char(c: char) -> bool {
    ('A' as u32 <= c as u32 && c as u32 <= 'Z' as u32) || is_digit_char(c) || c == '_'
}

/// A character of an anonymous parameter: ASCII alphanumeric or one of the
/// base64 extras `+ / =`.
pub open spec fn is_anon_char(c: char) -> bool {
    ('A' as u32 <= c as u32 && c as u32 <= 'Z' as u32) || ('a' as u32 <= c as u32 && c as u32
        <= 'z' as u32) || is_digit_char(c) || c == '+' || c == '/' || c == '='
}

/// A character of the digit run before a `:U` suffix: minus sign or digit.
pub open spec fn is_unum_char(c: char) -> bool {
    c == '-' || is_digit_char(c)
}

/// The character classes an executable scan can ask for.  `NotChar(q)` scans
/// everything except `q` (the body of a quoted string).
#[derive(Clone, Copy, Debug, PartialEq, Eq, Structural)]
pub enum CharClass {
    Ws,
    NotWs,
    Digit,
    Uid,
    Name,
    Anon,
    Unum,
    NotChar(char),
}

/// What it means for a character to belong to a class.
pub open spec fn in_class(cc: CharClass, c: char) -> bool {
    match cc {
        CharClass::Ws => is_ws_char(c),
        CharClass::NotWs => !is_ws_char(c),
        CharClass::Digit => is_digit_char(c),
        CharClass::Uid => is_uid_char(c),
        CharClass::Name => is_name_char(c),
        CharClass::Anon => is_anon_char(c),
        CharClass::Unum => is_unum_char(c),
        CharClass::NotChar(q) => c != q,
    }
}

/// The end of the maximal run of characters of class `cc` starting at `pos`.
pub open spec fn run_end(s: Seq<char>, pos: int, cc: CharClass) -> int
    decreases s.len() - pos,
{
    if 0 <= pos < s.len() && in_class(cc, s[pos]) {
        run_end(s, pos + 1, cc)
    } else {
        pos
    }
}

/// `run_end` stays between its start and the end of the input.
pub proof fn lemma_run_end_bounds(s: Seq<char>, pos: int, cc: CharClass)
    requires
        0 <= pos <= s.len(),
    ensures
        pos <= run_end(s, pos, cc) <= s.len(),
    decreases s.len() - pos,
{
    if pos < s.len() && in_class(cc, s[pos]) {
        lemma_run_end_bounds(s, pos + 1, cc);
    }
}


/// A run ends exactly at `e` when everything before `e` is in the class and
/// `e` itself is the end of the input or out of the class.
pub proof fn lemma_run_end_embedded(s: Seq<char>, pos: int, e: int, cc: CharClass)
    requires
        0 <= pos <= e <= s.len(),
        forall|i: int| pos <= i < e ==> in_class(cc, s[i]),
        e == s.len() || !in_class(cc, s[e]),
    ensures
        run_end(s, pos, cc) == e,
    decreases e - pos,
{
    if pos < e {
        lemma_run_end_embedded(s, pos + 1, e, cc);
    }
}

/// Scanning inside an embedded segment equals scanning the segment alone,
/// shifted by the offset, as long as the character just past the segment
/// (if any) is out of the class.
pub proof fn lemma_run_end_segment(s: Seq<char>, pos: int, t: Seq<char>, k: int, cc: CharClass)
    requires
        0 <= pos,
        pos + t.len() <= s.len(),
        forall|i: int| 0 <= i < t.len() ==> s[pos + i] == t[i],
        0 <= k <= t.len(),
        pos + t.len() == s.len() || !in_class(cc, s[pos + t.len()]),
    ensures
        run_end(s, pos + k, cc) == pos + run_end(t, k, cc),
    decreases t.len() - k,
{
    if k < t.len() && in_class(cc, t[k]) {
        lemma_run_end_segment(s, pos, t, k + 1, cc);
    }
}

/// Tests a character for membership in a class.
pub fn char_in_class(cc: CharClass, c: char) -> (r: bool)
    ensures
        r == in_class(cc, c),
{
    let u = c as u32;
    match cc {
        CharClass::Ws => c == ' ' || c == '\t' || c == '\r' || c == '\n',
        CharClass::NotWs => !(c == ' ' || c == '\t' || c == '\r' || c == '\n'),
        CharClass::Digit => 48 <= u && u <= 57,
        CharClass::Uid => (48 <= u && u <= 57) || (97 <= u && u <= 102) || (65 <= u && u <= 70)
            || c == '-',
        CharClass::Name => (65 <= u && u <= 90) || (48 <= u && u <= 57) || c == '_',
        CharClass::Anon => (65 <= u && u <= 90) || (97 <= u && u <= 122) || (48 <= u && u <= 57)
            || c == '+' || c == '/' || c == '=',
        CharClass::Unum => c == '-' || (48 <= u && u <= 57),
        CharClass::NotChar(q) => c != q,
    }
}

/// Scans the maximal run of characters of class `cc` starting at `pos`.
pub fn scan(s: &str, n: usize, pos: usize, cc: CharClass) -> (e: usize)
    requires
        n == s@.len(),
        pos <= n,
    ensures
        e == run_end(s@, pos as int, cc),
        pos <= e <= n,
{
    let mut p = pos;
    while p < n && char_in_class(cc, s.get_char(p))
        invariant
            pos <= p <= n,
            n == s@.len(),
            run_end(s@, pos as int, cc) == run_end(s@, p as int, cc),
        decreases n - p,
    {
        p = p + 1;
    }
    proof {
        lemma_run_end_bounds(s@, p as int, cc);
    }
    p
}

} // verus!
