//! Decimal integer tokens: what it means for a token to be a signed 64-bit
//! integer, how to read one, and how to render one back.

use vstd::prelude::*;

use crate::low_level::chars::is_digit_char;

verus! {

/// The numeric value of a decimal digit.
pub open spec fn digit_val(c: char) -> int {
    c as u32 - '0' as u32
}

/// The value of a run of decimal digits.
pub open spec fn digits_value(t: Seq<char>) -> int
    decreases t.len(),
{
    if t.len() == 0 {
        0
    } else {
        10 * digits_value(t.drop_last()) + digit_val(t.last())
    }
}

/// Every character of the token is a decimal digit.
pub open spec fn all_digits(t: Seq<char>) -> bool {
    forall|i: int| 0 <= i < t.len() ==> is_digit_char(t[i])
}

/// The token body after an optional leading sign.
pub open spec fn int_body(t: Seq<char>) -> Seq<char> {
    if t.len() > 0 && (t[0] == '+' || t[0] == '-') {
        t.subrange(1, t.len() as int)
    } else {
        t
    }
}

/// The token carries a leading minus sign.
pub open spec fn int_is_neg(t: Seq<char>) -> bool {
    t.len() > 0 && t[0] == '-'
}

/// The signed value a decimal token denotes (meaningful when its body is a
/// non-empty digit run).
pub open spec fn int_token_value(t: Seq<char>) -> int {
    if int_is_neg(t) {
        -digits_value(int_body(t))
    } else {
        digits_value(int_body(t))
    }
}

/// The token parses fully as a signed 64-bit integer: an optional sign, at
/// least one digit, nothing else, and a value in range.
pub open spec fn is_int_token(t: Seq<char>) -> bool {
    &&& int_body(t).len() > 0
    &&& all_digits(int_body(t))
    &&& i64::MIN <= int_token_value(t) <= i64::MAX
}

/// The value of a digit run is never negative.
pub proof fn lemma_digits_value_nonneg(t: Seq<char>)
    requires
        all_digits(t),
    ensures
        digits_value(t) >= 0,
    decreases t.len(),
{
    if t.len() > 0 {
        assert(all_digits(t.drop_last())) by {
            assert(forall|i: int|
                0 <= i < t.len() - 1 ==> t.drop_last()[i] == t[i] && is_digit_char(t[i]));
        }
        lemma_digits_value_nonneg(t.drop_last());
        assert(is_digit_char(t.last()));
    }
}

/// Extending a digit prefix by one digit multiplies its value by ten and adds
/// the digit.
pub proof fn lemma_digits_value_step(t: Seq<char>, i: int)
    requires
        0 <= i < t.len(),
    ensures
        digits_value(t.subrange(0, i + 1)) == 10 * digits_value(t.subrange(0, i)) + digit_val(
            t[i],
        ),
{
    let p = t.subrange(0, i + 1);
    assert(p.drop_last() =~= t.subrange(0, i));
    assert(p.last() == t[i]);
}

/// A digit prefix never exceeds a longer prefix of the same run.
pub proof fn lemma_digits_value_prefix_le(t: Seq<char>, i: int, j: int)
    requires
        all_digits(t),
        0 <= i <= j <= t.len(),
    ensures
        digits_value(t.subrange(0, i)) <= digits_value(t.subrange(0, j)),
    decreases j - i,
{
    if i < j {
        lemma_digits_value_prefix_le(t, i, j - 1);
        lemma_digits_value_step(t, j - 1);
        assert(all_digits(t.subrange(0, j - 1))) by {
            assert(forall|k: int|
                0 <= k < j - 1 ==> t.subrange(0, j - 1)[k] == t[k] && is_digit_char(t[k]));
        }
        lemma_digits_value_nonneg(t.subrange(0, j - 1));
        assert(digit_val(t[j - 1]) >= 0);
    }
}

/// A full digit run is one of its own prefixes.
pub proof fn lemma_digits_value_whole(t: Seq<char>)
    ensures
        digits_value(t.subrange(0, t.len() as int)) == digits_value(t),
{
    assert(t.subrange(0, t.len() as int) =~= t);
}

/// Reads the digit run `t[from..]` as an unsigned value, stopping with `None`
/// as soon as the value passes `2^63` (no 64-bit integer lies beyond it).
#[verifier::loop_isolation(false)]
fn parse_digits(t: &str, n: usize, from: usize) -> (r: Option<u64>)
    requires
        n == t@.len(),
        from <= n,
        forall|i: int| from <= i < n ==> is_digit_char(t@[i]),
    ensures
        match r {
            Some(v) => v == digits_value(t@.subrange(from as int, n as int)) && v
                <= 0x8000_0000_0000_0000u64,
            None => digits_value(t@.subrange(from as int, n as int)) > 0x8000_0000_0000_0000u64,
        },
{
    let mut acc: u64 = 0;
    let mut i = from;
    while i < n
        invariant
            from <= i <= n,
            n == t@.len(),
            forall|k: int| from <= k < n ==> is_digit_char(t@[k]),
            acc <= 0x8000_0000_0000_0000u64,
            acc == digits_value(t@.subrange(from as int, i as int)),
        decreases n - i,
    {
        let c = t.get_char(i);
        assert(is_digit_char(t@[i as int]));
        let d: u64 = (c as u32 - 48) as u64;
        proof {
            lemma_digits_value_step(t@.subrange(from as int, n as int), i - from);
            assert(t@.subrange(from as int, n as int).subrange(0, i - from) =~= t@.subrange(
                from as int,
                i as int,
            ));
            assert(t@.subrange(from as int, n as int).subrange(0, i - from + 1) =~= t@.subrange(
                from as int,
                (i + 1) as int,
            ));
            assert(t@.subrange(from as int, n as int)[i - from] == t@[i as int]);
        }
        if acc > 0x0CCC_CCCC_CCCC_CCCCu64 || (acc == 0x0CCC_CCCC_CCCC_CCCCu64 && d > 8) {
            // the next value exceeds 2^63, and further digits only grow it
            proof {
                assert(10 * acc + d > 0x8000_0000_0000_0000) by (nonlinear_arith)
                    requires
                        acc > 0x0CCC_CCCC_CCCC_CCCCu64 || (acc == 0x0CCC_CCCC_CCCC_CCCCu64 && d
                            > 8),
                        d >= 0,
                ;
                assert(digits_value(t@.subrange(from as int, (i + 1) as int)) == 10 * acc + d);
                lemma_digits_value_prefix_le(
                    t@.subrange(from as int, n as int),
                    i - from + 1,
                    n - from,
                );
                assert(t@.subrange(from as int, n as int).subrange(0, n - from) =~= t@.subrange(
                    from as int,
                    n as int,
                ));
            }
            return None;
        }
        proof {
            assert(10 * acc + d <= 0x8000_0000_0000_0000) by (nonlinear_arith)
                requires
                    acc <= 0x0CCC_CCCC_CCCC_CCCCu64,
                    !(acc > 0x0CCC_CCCC_CCCC_CCCCu64 || (acc == 0x0CCC_CCCC_CCCC_CCCCu64 && d
                        > 8)),
                    0 <= d <= 9,
            ;
        }
        acc = 10 * acc + d;
        i = i + 1;
    }
    assert(t@.subrange(from as int, i as int) =~= t@.subrange(from as int, n as int));
    Some(acc)
}

/// Reads a whole token as a signed 64-bit integer, exactly as a full decimal
/// parse would: `Some` iff the token is an optional sign followed by digits
/// and the value fits.
#[verifier::loop_isolation(false)]
pub fn parse_int_token(t: &str, n: usize) -> (r: Option<i64>)
    requires
        n == t@.len(),
    ensures
        match r {
            Some(v) => is_int_token(t@) && v as int == int_token_value(t@),
            None => !is_int_token(t@),
        },
{
    if n == 0 {
        return None;
    }
    let c0 = t.get_char(0);
    let neg = c0 == '-';
    let signed = c0 == '-' || c0 == '+';
    let start: usize = if signed {
        1
    } else {
        0
    };
    proof {
        if signed {
            assert(int_body(t@) =~= t@.subrange(1, n as int));
        } else {
            assert(int_body(t@) =~= t@.subrange(0, n as int));
            assert(t@.subrange(0, n as int) =~= t@);
        }
    }
    if start == n {
        // a bare sign has an empty body
        return None;
    }
    // every remaining character must be a digit
    let mut i = start;
    while i < n
        invariant
            start <= i <= n,
            n == t@.len(),
            forall|k: int| start <= k < i ==> is_digit_char(t@[k]),
        decreases n - i,
    {
        let u = t.get_char(i) as u32;
        if !(48 <= u && u <= 57) {
            assert(!is_digit_char(t@[i as int]));
            assert(int_body(t@)[i - start] == t@[i as int]);
            return None;
        }
        i = i + 1;
    }
    let mag = match parse_digits(t, n, start) {
        Some(m) => m,
        None => {
            proof {
                assert(int_body(t@) =~= t@.subrange(start as int, n as int));
                lemma_digits_value_whole(int_body(t@));
                assert(digits_value(int_body(t@)) > 0x8000_0000_0000_0000);
            }
            return None;
        },
    };
    proof {
        assert(int_body(t@) =~= t@.subrange(start as int, n as int));
        assert(mag == digits_value(int_body(t@)));
        assert(forall|k: int| 0 <= k < int_body(t@).len() ==> is_digit_char(int_body(t@)[k]));
    }
    if neg {
        if mag > 0x8000_0000_0000_0000u64 {
            return None;
        }
        if mag == 0x8000_0000_0000_0000u64 {
            return Some(i64::MIN);
        }
        Some(-(mag as i64))
    } else {
        if mag > 0x7FFF_FFFF_FFFF_FFFFu64 {
            return None;
        }
        Some(mag as i64)
    }
}

/// The character a decimal digit value renders to.
pub open spec fn digit_char_of(d: int) -> char {
    if d == 0 {
        '0'
    } else if d == 1 {
        '1'
    } else if d == 2 {
        '2'
    } else if d == 3 {
        '3'
    } else if d == 4 {
        '4'
    } else if d == 5 {
        '5'
    } else if d == 6 {
        '6'
    } else if d == 7 {
        '7'
    } else if d == 8 {
        '8'
    } else {
        '9'
    }
}

/// The decimal rendering of a non-negative value.
pub open spec fn dec_digits(n: int) -> Seq<char>
    decreases n,
{
    if n < 10 {
        seq![digit_char_of(n)]
    } else {
        dec_digits(n / 10).push(digit_char_of(n % 10))
    }
}

/// The decimal rendering of a signed value, as the standard formatter writes
/// it: a minus sign for negative values, no plus sign, no leading zeros.
pub open spec fn render_int_text(v: int) -> Seq<char> {
    if v < 0 {
        seq!['-'] + dec_digits(-v)
    } else {
        dec_digits(v)
    }
}


/// Every rendered digit is a digit, and at least one is rendered.
proof fn lemma_dec_digits_chars(n: int)
    requires
        n >= 0,
    ensures
        dec_digits(n).len() >= 1,
        forall|i: int| 0 <= i < dec_digits(n).len() ==> is_digit_char(#[trigger] dec_digits(n)[i]),
        is_digit_char(dec_digits(n)[0]),
    decreases n,
{
    if n >= 10 {
        lemma_dec_digits_chars(n / 10);
        assert(forall|i: int|
            0 <= i < dec_digits(n).len() - 1 ==> dec_digits(n)[i] == dec_digits(n / 10)[i]);
    }
}

/// A rendered digit reads back as its value.
proof fn lemma_digit_char_val(d: int)
    requires
        0 <= d <= 9,
    ensures
        digit_val(digit_char_of(d)) == d,
{
}

/// Reading the rendered digits back gives the value they came from.
proof fn lemma_dec_digits_value(n: int)
    requires
        n >= 0,
    ensures
        digits_value(dec_digits(n)) == n,
    decreases n,
{
    if n < 10 {
        lemma_digit_char_val(n);
        assert(digits_value(Seq::<char>::empty()) == 0);
        assert(dec_digits(n).drop_last() =~= Seq::<char>::empty());
        assert(dec_digits(n).last() == digit_char_of(n));
        assert(digits_value(dec_digits(n)) == 10 * digits_value(dec_digits(n).drop_last())
            + digit_val(dec_digits(n).last()));
    } else {
        lemma_dec_digits_value(n / 10);
        lemma_digit_char_val(n % 10);
        assert(dec_digits(n).drop_last() == dec_digits(n / 10));
        assert(dec_digits(n).last() == digit_char_of(n % 10));
    }
}

/// Numeric text round-trips through decimal parsing: the rendering of any
/// 64-bit value is again a valid integer token, and it denotes exactly the
/// value it was rendered from.
pub proof fn lemma_int_text_round_trip(v: int)
    requires
        i64::MIN <= v <= i64::MAX,
    ensures
        is_int_token(render_int_text(v)),
        int_token_value(render_int_text(v)) == v,
{
    if v >= 0 {
        lemma_dec_digits_chars(v);
        lemma_dec_digits_value(v);
        let t = render_int_text(v);
        assert(t == dec_digits(v));
        assert(!(t[0] == '+' || t[0] == '-'));
        assert(int_body(t) == t);
    } else {
        lemma_dec_digits_chars(-v);
        lemma_dec_digits_value(-v);
        let t = render_int_text(v);
        assert(t == seq!['-'] + dec_digits(-v));
        assert(t[0] == '-');
        assert(int_body(t) =~= dec_digits(-v));
        assert(int_is_neg(t));
    }
}

/// The text of one decimal digit.
fn digit_str(d: u64) -> (r: &'static str)
    requires
        d <= 9,
    ensures
        r@ =~= seq![digit_char_of(d as int)],
{
    proof {
        reveal_strlit("0");
        reveal_strlit("1");
        reveal_strlit("2");
        reveal_strlit("3");
        reveal_strlit("4");
        reveal_strlit("5");
        reveal_strlit("6");
        reveal_strlit("7");
        reveal_strlit("8");
        reveal_strlit("9");
    }
    match d {
        0 => "0",
        1 => "1",
        2 => "2",
        3 => "3",
        4 => "4",
        5 => "5",
        6 => "6",
        7 => "7",
        8 => "8",
        _ => "9",
    }
}

/// Appends the decimal rendering of an unsigned value.
fn append_digits(v: u64, out: &mut String)
    ensures
        final(out)@ == old(out)@ + dec_digits(v as int),
    decreases v,
{
    if v >= 10 {
        append_digits(v / 10, out);
    }
    out.append(digit_str(v % 10));
    proof {
        if v >= 10 {
            assert(dec_digits(v as int) == dec_digits(v as int / 10).push(
                digit_char_of(v as int % 10),
            ));
            assert(dec_digits(v as int / 10).push(digit_char_of(v as int % 10)) =~= dec_digits(
                v as int / 10,
            ) + seq![digit_char_of(v as int % 10)]);
        } else {
            assert(dec_digits(v as int) =~= seq![digit_char_of(v as int)]);
        }
    }
}

/// Appends the decimal rendering of a signed 64-bit value.
pub fn append_int(v: i64, out: &mut String)
    ensures
        final(out)@ == old(out)@ + render_int_text(v as int),
{
    if v < 0 {
        let wide: i128 = -(v as i128);
        let mag: u64 = wide as u64;
        proof {
            reveal_strlit("-");
        }
        out.append("-");
        append_digits(mag, out);
    } else {
        append_digits(v as u64, out);
    }
}

} // verus!
