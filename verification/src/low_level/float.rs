//! The float token grammar: exactly the forms a full decimal float parse
//! accepts — an optional sign, then `inf`, `infinity` or `nan` in any case,
//! or digits with an optional point and an optional exponent.  The document
//! tree keeps a float's original token text, so recognizing the form is all
//! this layer ever needs of a float.

use vstd::prelude::*;

use crate::low_level::chars::{in_class, is_digit_char, run_end, scan, CharClass};
use crate::low_level::numbers::int_body;

verus! {

/// A character equals one of its two cases.
pub open spec fn char_ci(c: char, lo: char, up: char) -> bool {
    c == lo || c == up
}

/// The token is `inf`, in any mix of cases.
pub open spec fn is_inf_word(t: Seq<char>) -> bool {
    t.len() == 3 && char_ci(t[0], 'i', 'I') && char_ci(t[1], 'n', 'N') && char_ci(t[2], 'f', 'F')
}

/// The token is `infinity`, in any mix of cases.
pub open spec fn is_infinity_word(t: Seq<char>) -> bool {
    t.len() == 8 && char_ci(t[0], 'i', 'I') && char_ci(t[1], 'n', 'N') && char_ci(t[2], 'f', 'F')
        && char_ci(t[3], 'i', 'I') && char_ci(t[4], 'n', 'N') && char_ci(t[5], 'i', 'I')
        && char_ci(t[6], 't', 'T') && char_ci(t[7], 'y', 'Y')
}

/// The token is `nan`, in any mix of cases.
pub open spec fn is_nan_word(t: Seq<char>) -> bool {
    t.len() == 3 && char_ci(t[0], 'n', 'N') && char_ci(t[1], 'a', 'A') && char_ci(t[2], 'n', 'N')
}

/// The remainder of a number starting at `pos` is a valid exponent part:
/// either nothing, or `e`/`E`, an optional sign, and at least one digit that
/// runs to the end of the token.
pub open spec fn exp_part_ok(t: Seq<char>, pos: int) -> bool {
    if pos == t.len() {
        true
    } else if 0 <= pos < t.len() && (t[pos] == 'e' || t[pos] == 'E') {
        let d = if pos + 1 < t.len() && (t[pos + 1] == '+' || t[pos + 1] == '-') {
            pos + 2
        } else {
            pos + 1
        };
        d < t.len() && run_end(t, d, CharClass::Digit) == t.len()
    } else {
        false
    }
}

/// The signless body is a decimal number: digits with an optional point and
/// optional further digits, or a point followed by digits, each with an
/// optional exponent.
pub open spec fn number_body_ok(t: Seq<char>) -> bool {
    if t.len() == 0 {
        false
    } else if is_digit_char(t[0]) {
        let d1 = run_end(t, 0, CharClass::Digit);
        if d1 < t.len() && t[d1] == '.' {
            exp_part_ok(t, run_end(t, d1 + 1, CharClass::Digit))
        } else {
            exp_part_ok(t, d1)
        }
    } else if t[0] == '.' {
        let d2 = run_end(t, 1, CharClass::Digit);
        d2 > 1 && exp_part_ok(t, d2)
    } else {
        false
    }
}

/// The token parses fully as a 64-bit float: an optional sign, then one of
/// the special words or a decimal number.
pub open spec fn is_float_token(t: Seq<char>) -> bool {
    let b = int_body(t);
    is_inf_word(b) || is_infinity_word(b) || is_nan_word(b) || number_body_ok(b)
}

/// Scanning a run inside the tail `s[lo..]` gives the same end as scanning
/// the whole sequence, shifted by the offset.
proof fn lemma_tail_run_end(s: Seq<char>, lo: int, k: int, cc: CharClass)
    requires
        0 <= lo <= s.len(),
        0 <= k <= s.len() - lo,
    ensures
        run_end(s.subrange(lo, s.len() as int), k, cc) == run_end(s, lo + k, cc) - lo,
    decreases s.len() - lo - k,
{
    let b = s.subrange(lo, s.len() as int);
    if lo + k < s.len() && in_class(cc, s[lo + k]) {
        assert(b[k] == s[lo + k]);
        lemma_tail_run_end(s, lo, k + 1, cc);
    }
}


/// The characters a float literal can be made of.
pub open spec fn is_float_char(c: char) -> bool {
    is_digit_char(c) || c == '+' || c == '-' || c == '.' || char_ci(c, 'e', 'E') || char_ci(
        c,
        'i',
        'I',
    ) || char_ci(c, 'n', 'N') || char_ci(c, 'f', 'F') || char_ci(c, 't', 'T') || char_ci(
        c,
        'y',
        'Y',
    ) || char_ci(c, 'a', 'A')
}

/// Everything before the end of a run is in the run's class.
proof fn lemma_run_prefix_in_class(t: Seq<char>, pos: int, cc: CharClass)
    requires
        0 <= pos <= t.len(),
    ensures
        forall|i: int| pos <= i < run_end(t, pos, cc) ==> in_class(cc, #[trigger] t[i]),
        run_end(t, pos, cc) <= t.len(),
    decreases t.len() - pos,
{
    if pos < t.len() && in_class(cc, t[pos]) {
        lemma_run_prefix_in_class(t, pos + 1, cc);
    }
}

/// A float literal is made of float characters alone.
pub proof fn lemma_float_token_chars(t: Seq<char>)
    requires
        is_float_token(t),
    ensures
        forall|i: int| 0 <= i < t.len() ==> is_float_char(#[trigger] t[i]),
        t.len() > 0,
{
    let b = int_body(t);
    let off: int = if t.len() > 0 && (t[0] == '+' || t[0] == '-') {
        1
    } else {
        0
    };
    assert(b.len() + off == t.len());
    assert(forall|i: int| 0 <= i < b.len() ==> t[i + off] == b[i]);
    if is_inf_word(b) || is_infinity_word(b) || is_nan_word(b) {
        assert(forall|i: int| 0 <= i < b.len() ==> is_float_char(#[trigger] b[i]));
    } else {
        assert(number_body_ok(b));
        assert(forall|i: int| 0 <= i < b.len() ==> is_float_char(#[trigger] b[i])) by {
            lemma_number_body_chars(b);
        }
    }
    assert forall|i: int| 0 <= i < t.len() implies is_float_char(#[trigger] t[i]) by {
        if i < off {
            assert(t[0] == '+' || t[0] == '-');
        } else {
            assert(t[i] == b[i - off]);
        }
    }
}

/// The exponent part is made of float characters alone.
proof fn lemma_exp_part_chars(t: Seq<char>, pos: int)
    requires
        0 <= pos <= t.len(),
        exp_part_ok(t, pos),
    ensures
        forall|i: int| pos <= i < t.len() ==> is_float_char(#[trigger] t[i]),
{
    if pos < t.len() {
        let d = if pos + 1 < t.len() && (t[pos + 1] == '+' || t[pos + 1] == '-') {
            pos + 2
        } else {
            pos + 1
        };
        lemma_run_prefix_in_class(t, d, CharClass::Digit);
    }
}

/// A number body is made of float characters alone.
proof fn lemma_number_body_chars(b: Seq<char>)
    requires
        number_body_ok(b),
    ensures
        forall|i: int| 0 <= i < b.len() ==> is_float_char(#[trigger] b[i]),
{
    if is_digit_char(b[0]) {
        let d1 = run_end(b, 0, CharClass::Digit);
        lemma_run_prefix_in_class(b, 0, CharClass::Digit);
        if d1 < b.len() && b[d1] == '.' {
            let d2 = run_end(b, d1 + 1, CharClass::Digit);
            lemma_run_prefix_in_class(b, d1 + 1, CharClass::Digit);
            lemma_exp_part_chars(b, d2);
        } else {
            lemma_exp_part_chars(b, d1);
        }
    } else {
        let d2 = run_end(b, 1, CharClass::Digit);
        lemma_run_prefix_in_class(b, 1, CharClass::Digit);
        lemma_exp_part_chars(b, d2);
    }
}

/// Decides whether a whole token is a valid float literal.
pub fn is_float_token_exec(t: &str, n: usize) -> (r: bool)
    requires
        n == t@.len(),
    ensures
        r == is_float_token(t@),
{
    if n == 0 {
        return false;
    }
    let c0 = t.get_char(0);
    let start: usize = if c0 == '+' || c0 == '-' {
        1
    } else {
        0
    };
    proof {
        if c0 == '+' || c0 == '-' {
            assert(int_body(t@) =~= t@.subrange(1, n as int));
        } else {
            assert(int_body(t@) =~= t@.subrange(0, n as int));
            assert(t@.subrange(0, n as int) =~= t@);
        }
    }
    let ghost b = int_body(t@);
    assert(b == t@.subrange(start as int, n as int));
    let m = n - start;
    if m == 3 || m == 8 {
        let w0 = t.get_char(start);
        if w0 == 'i' || w0 == 'I' {
            let w1 = t.get_char(start + 1);
            let w2 = t.get_char(start + 2);
            if (w1 == 'n' || w1 == 'N') && (w2 == 'f' || w2 == 'F') {
                if m == 3 {
                    assert(is_inf_word(b));
                    return true;
                }
                let w3 = t.get_char(start + 3);
                let w4 = t.get_char(start + 4);
                let w5 = t.get_char(start + 5);
                let w6 = t.get_char(start + 6);
                let w7 = t.get_char(start + 7);
                if (w3 == 'i' || w3 == 'I') && (w4 == 'n' || w4 == 'N') && (w5 == 'i' || w5 == 'I')
                    && (w6 == 't' || w6 == 'T') && (w7 == 'y' || w7 == 'Y') {
                    assert(is_infinity_word(b));
                    return true;
                }
            }
        }
    }
    if m == 3 {
        let w0 = t.get_char(start);
        let w1 = t.get_char(start + 1);
        let w2 = t.get_char(start + 2);
        if (w0 == 'n' || w0 == 'N') && (w1 == 'a' || w1 == 'A') && (w2 == 'n' || w2 == 'N') {
            assert(is_nan_word(b));
            return true;
        }
    }
    number_body_check(t, n, start)
}

/// Decides whether `t[start..]` is a decimal number body (digits, optional
/// point, optional exponent), scanning the token in place.
fn number_body_check(t: &str, n: usize, start: usize) -> (r: bool)
    requires
        n == t@.len(),
        start <= n,
        int_body(t@) == t@.subrange(start as int, n as int),
    ensures
        r == number_body_ok(int_body(t@)),
{
    let ghost b = int_body(t@);
    if start == n {
        return false;
    }
    let c0 = t.get_char(start);
    assert(b[0] == t@[start as int]);
    let u0 = c0 as u32;
    if 48 <= u0 && u0 <= 57 {
        let d1 = scan(t, n, start, CharClass::Digit);
        proof {
            lemma_tail_run_end(t@, start as int, 0, CharClass::Digit);
        }
        if d1 < n && t.get_char(d1) == '.' {
            assert(b[d1 - start] == t@[d1 as int]);
            let d2 = scan(t, n, d1 + 1, CharClass::Digit);
            proof {
                lemma_tail_run_end(t@, start as int, d1 + 1 - start, CharClass::Digit);
            }
            sub_exp_part_check(t, n, start, d2)
        } else {
            sub_exp_part_check(t, n, start, d1)
        }
    } else if c0 == '.' {
        let d2 = scan(t, n, start + 1, CharClass::Digit);
        proof {
            lemma_tail_run_end(t@, start as int, 1, CharClass::Digit);
        }
        if d2 > start + 1 {
            sub_exp_part_check(t, n, start, d2)
        } else {
            false
        }
    } else {
        false
    }
}

/// Decides the exponent-part condition for the body `t[start..]` at the body
/// position `pos - start`.
fn sub_exp_part_check(t: &str, n: usize, start: usize, pos: usize) -> (r: bool)
    requires
        n == t@.len(),
        start <= pos <= n,
        int_body(t@) == t@.subrange(start as int, n as int),
    ensures
        r == exp_part_ok(int_body(t@), pos - start),
{
    let ghost b = int_body(t@);
    if pos == n {
        return true;
    }
    let c = t.get_char(pos);
    assert(b[pos - start] == t@[pos as int]);
    if !(c == 'e' || c == 'E') {
        return false;
    }
    let d = if pos + 1 < n {
        let c1 = t.get_char(pos + 1);
        assert(b[pos + 1 - start] == t@[pos + 1]);
        if c1 == '+' || c1 == '-' {
            pos + 2
        } else {
            pos + 1
        }
    } else {
        pos + 1
    };
    if d > n {
        return false;
    }
    if d == n {
        return false;
    }
    let e = scan(t, n, d, CharClass::Digit);
    proof {
        lemma_tail_run_end(t@, start as int, d - start, CharClass::Digit);
    }
    e == n
}

} // verus!
