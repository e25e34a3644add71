//! The grammar, stated mathematically: what each production parses to, and
//! what each tree renders to.  The executable parser and serializer are
//! proved against these functions.
//!
//! Parsing is an ordered choice; the order of the alternatives is part of
//! the contract.  A scalar tries: unique id, double-quoted string,
//! single-quoted string, integer, float, `:U`-suffixed integer, and finally
//! the unquoted-string catch-all, which never fails.  An entry tries:
//! object, line, anonymous parameter, each with its trailing newline.

use vstd::prelude::*;

use crate::low_level::chars::{is_uid_char, is_ws_char, run_end, CharClass};
use crate::low_level::chars::lemma_run_end_bounds;
use crate::low_level::chars::lemma_run_end_embedded;
use crate::low_level::chars::lemma_run_end_segment;
use crate::low_level::float::{is_float_char, is_float_token, lemma_float_token_chars};
use crate::low_level::numbers::{
    int_body, is_int_token, int_token_value, lemma_int_text_round_trip, render_int_text,
};
use crate::low_level::{AttributeV, EntryV, LineV, ObjectV, ReaperStringV};
use crate::low_level::indent_spaces;

verus! {

// ---------------------------------------------------------------------------
// parsing
// ---------------------------------------------------------------------------
/// Exactly `2 * indent` spaces stand at `pos`.
pub open spec fn indent_ok(s: Seq<char>, pos: int, indent: nat) -> bool {
    &&& pos + 2 * indent <= s.len()
    &&& forall|i: int| pos <= i < pos + 2 * indent ==> s[i] == ' '
}

/// A line terminator: `\r\n`, or `\n` alone.
pub open spec fn spec_parse_newline(s: Seq<char>, pos: int) -> Option<int> {
    if pos + 2 <= s.len() && s[pos] == '\r' && s[pos + 1] == '\n' {
        Some(pos + 2)
    } else if pos + 1 <= s.len() && s[pos] == '\n' {
        Some(pos + 1)
    } else {
        None
    }
}

/// An attribute name: a non-empty run of name characters.
pub open spec fn spec_parse_name(s: Seq<char>, pos: int) -> Option<(Seq<char>, int)> {
    let e = run_end(s, pos, CharClass::Name);
    if e > pos {
        Some((s.subrange(pos, e), e))
    } else {
        None
    }
}

/// A unique id: `{`, a run of hex digits and hyphens, `}`.
pub open spec fn spec_parse_uid(s: Seq<char>, pos: int) -> Option<(Seq<char>, int)> {
    if pos < s.len() && s[pos] == '{' {
        let e = run_end(s, pos + 1, CharClass::Uid);
        if e < s.len() && s[e] == '}' {
            Some((s.subrange(pos + 1, e), e + 1))
        } else {
            None
        }
    } else {
        None
    }
}

/// A quoted string: the quote, a run of anything but the quote, the quote.
pub open spec fn spec_parse_quoted(s: Seq<char>, pos: int, q: char) -> Option<(Seq<char>, int)> {
    if pos < s.len() && s[pos] == q {
        let e = run_end(s, pos + 1, CharClass::NotChar(q));
        if e < s.len() {
            Some((s.subrange(pos + 1, e), e + 1))
        } else {
            None
        }
    } else {
        None
    }
}

/// A quoted string scalar: double quotes tried before single quotes.
pub open spec fn spec_parse_reaper_string(s: Seq<char>, pos: int) -> Option<(ReaperStringV, int)> {
    match spec_parse_quoted(s, pos, '"') {
        Some((t, p)) => Some((ReaperStringV::DoubleQuote(t), p)),
        None => match spec_parse_quoted(s, pos, '\'') {
            Some((t, p)) => Some((ReaperStringV::SingleQuote(t), p)),
            None => None,
        },
    }
}

/// One scalar value, by ordered choice.  The unquoted fallback never fails,
/// so this production is total.
pub open spec fn spec_parse_attribute(s: Seq<char>, pos: int) -> (AttributeV, int) {
    match spec_parse_uid(s, pos) {
        Some((d, p)) => (AttributeV::Uid(d), p),
        None => match spec_parse_quoted(s, pos, '"') {
            Some((t, p)) => (AttributeV::Str(ReaperStringV::DoubleQuote(t)), p),
            None => match spec_parse_quoted(s, pos, '\'') {
                Some((t, p)) => (AttributeV::Str(ReaperStringV::SingleQuote(t)), p),
                None => {
                    let te = run_end(s, pos, CharClass::NotWs);
                    let tok = s.subrange(pos, te);
                    if is_int_token(tok) {
                        (AttributeV::Int(int_token_value(tok)), te)
                    } else if is_float_token(tok) {
                        (AttributeV::Float(tok), te)
                    } else {
                        let de = run_end(s, pos, CharClass::Unum);
                        if de + 2 <= s.len() && s[de] == ':' && s[de + 1] == 'U' && is_int_token(
                            s.subrange(pos, de),
                        ) {
                            (AttributeV::UNumber(int_token_value(s.subrange(pos, de))), de + 2)
                        } else {
                            (AttributeV::Str(ReaperStringV::Unquoted(tok)), te)
                        }
                    }
                },
            },
        },
    }
}

/// The value list of a line: while a space separator stands at `pos`, one
/// more scalar after it.
pub open spec fn spec_parse_values(s: Seq<char>, pos: int) -> (Seq<AttributeV>, int)
    decreases s.len() - pos,
{
    if 0 <= pos < s.len() && s[pos] == ' ' {
        let (a, p2) = spec_parse_attribute(s, pos + 1);
        if pos < p2 <= s.len() {
            let (rest, p3) = spec_parse_values(s, p2);
            (seq![a] + rest, p3)
        } else {
            (seq![a], p2)
        }
    } else {
        (Seq::empty(), pos)
    }
}

/// A line: indentation, a name, then the value list.
pub open spec fn spec_parse_line(s: Seq<char>, pos: int, indent: nat) -> Option<(LineV, int)> {
    if indent_ok(s, pos, indent) {
        let p0 = pos + 2 * indent;
        match spec_parse_name(s, p0) {
            Some((nm, p1)) => {
                let (vs, p2) = spec_parse_values(s, p1);
                Some((LineV { name: nm, values: vs }, p2))
            },
            None => None,
        }
    } else {
        None
    }
}

/// An anonymous parameter: indentation, then a non-empty run of payload
/// characters.
pub open spec fn spec_parse_anon(s: Seq<char>, pos: int, indent: nat) -> Option<(Seq<char>, int)> {
    if indent_ok(s, pos, indent) {
        let p0 = pos + 2 * indent;
        let e = run_end(s, p0, CharClass::Anon);
        if e > p0 {
            Some((s.subrange(p0, e), e))
        } else {
            None
        }
    } else {
        None
    }
}

/// An object: indentation, `<`, a header line at relative depth zero, a
/// newline, the children at the next depth, indentation, `>`.
pub open spec fn spec_parse_object(s: Seq<char>, pos: int, indent: nat) -> Option<(ObjectV, int)>
    decreases s.len() - pos, 0int,
{
    if indent_ok(s, pos, indent) {
        let p0 = pos + 2 * indent;
        if p0 < s.len() && s[p0] == '<' {
            match spec_parse_line(s, p0 + 1, 0) {
                Some((hdr, p1)) => match spec_parse_newline(s, p1) {
                    Some(p2) => if pos < p2 <= s.len() {
                        let (cs, p3) = spec_parse_entries(s, p2, (indent + 1) as nat);
                        if indent_ok(s, p3, indent) {
                            let p4 = p3 + 2 * indent;
                            if p4 < s.len() && s[p4] == '>' {
                                Some((ObjectV { header: hdr, children: cs }, p4 + 1))
                            } else {
                                None
                            }
                        } else {
                            None
                        }
                    } else {
                        None
                    },
                    None => None,
                },
                None => None,
            }
        } else {
            None
        }
    } else {
        None
    }
}

/// One entry of an object's body: an object, a line, or an anonymous
/// parameter, tried in that order, each consuming its trailing newline.
pub open spec fn spec_parse_entry(s: Seq<char>, pos: int, indent: nat) -> Option<(EntryV, int)>
    decreases s.len() - pos, 1int,
{
    let as_object = match spec_parse_object(s, pos, indent) {
        Some((o, p)) => match spec_parse_newline(s, p) {
            Some(p2) => Some((EntryV::Object(o), p2)),
            None => None,
        },
        None => None,
    };
    match as_object {
        Some(r) => Some(r),
        None => {
            let as_line = match spec_parse_line(s, pos, indent) {
                Some((l, p)) => match spec_parse_newline(s, p) {
                    Some(p2) => Some((EntryV::Line(l), p2)),
                    None => None,
                },
                None => None,
            };
            match as_line {
                Some(r) => Some(r),
                None => match spec_parse_anon(s, pos, indent) {
                    Some((t, p)) => match spec_parse_newline(s, p) {
                        Some(p2) => Some((EntryV::AnonymousParameter(t), p2)),
                        None => None,
                    },
                    None => None,
                },
            }
        },
    }
}

/// The children of an object: entries while an entry parses.
pub open spec fn spec_parse_entries(s: Seq<char>, pos: int, indent: nat) -> (Seq<EntryV>, int)
    decreases s.len() - pos, 2int,
{
    match spec_parse_entry(s, pos, indent) {
        None => (Seq::empty(), pos),
        Some((e, p)) => if pos < p <= s.len() {
            let (rest, p2) = spec_parse_entries(s, p, indent);
            (seq![e] + rest, p2)
        } else {
            (seq![e], p)
        },
    }
}


/// Ordered choice is part of the contract, and at its sharpest point: a
/// scalar that the unique-id alternative accepts always becomes a `Uid` and
/// never falls through to a later alternative such as the unquoted-string
/// catch-all.  (That the same input always parses the same way at all holds
/// by construction: every parse result is pinned to these functions of the
/// input alone.)
pub proof fn lemma_uid_wins_ordered_choice(s: Seq<char>, pos: int)
    ensures
        spec_parse_uid(s, pos) matches Some(t) ==> spec_parse_attribute(s, pos) == (
        AttributeV::Uid(t.0),
        t.1,
        ),
{
}

// ---------------------------------------------------------------------------
// bounds of the parsing functions
// ---------------------------------------------------------------------------
/// A scalar parse never moves backwards and never passes the end.
pub proof fn lemma_parse_attribute_bounds(s: Seq<char>, pos: int)
    requires
        0 <= pos <= s.len(),
    ensures
        pos <= spec_parse_attribute(s, pos).1 <= s.len(),
{
    lemma_run_end_bounds(s, pos, CharClass::NotWs);
    lemma_run_end_bounds(s, pos, CharClass::Unum);
    if pos < s.len() {
        lemma_run_end_bounds(s, pos + 1, CharClass::Uid);
        lemma_run_end_bounds(s, pos + 1, CharClass::NotChar('"'));
        lemma_run_end_bounds(s, pos + 1, CharClass::NotChar('\''));
    }
}

/// A value list never moves backwards and never passes the end.
pub proof fn lemma_parse_values_bounds(s: Seq<char>, pos: int)
    requires
        0 <= pos <= s.len(),
    ensures
        pos <= spec_parse_values(s, pos).1 <= s.len(),
    decreases s.len() - pos,
{
    if pos < s.len() && s[pos] == ' ' {
        lemma_parse_attribute_bounds(s, pos + 1);
        let (a, p2) = spec_parse_attribute(s, pos + 1);
        if pos < p2 <= s.len() {
            lemma_parse_values_bounds(s, p2);
        }
    }
}

/// A line parse moves past its name and never passes the end.
pub proof fn lemma_parse_line_bounds(s: Seq<char>, pos: int, indent: nat)
    requires
        0 <= pos <= s.len(),
    ensures
        match spec_parse_line(s, pos, indent) {
            Some((l, p)) => pos + 2 * indent < p <= s.len(),
            None => true,
        },
{
    if indent_ok(s, pos, indent) {
        let p0 = pos + 2 * indent;
        lemma_run_end_bounds(s, p0, CharClass::Name);
        match spec_parse_name(s, p0) {
            Some((nm, p1)) => {
                lemma_parse_values_bounds(s, p1);
            },
            None => {},
        }
    }
}

// ---------------------------------------------------------------------------
// scalars reread as themselves
// ---------------------------------------------------------------------------
/// An unquoted token that no earlier alternative of the ordered choice would
/// claim for itself: non-empty, free of whitespace, not quote-led, not a
/// complete unique id at its front, not an integer, not a float, and not
/// `:U`-suffixed digits.
pub open spec fn wf_unquoted(t: Seq<char>) -> bool {
    &&& t.len() > 0
    &&& (forall|i: int| 0 <= i < t.len() ==> !is_ws_char(#[trigger] t[i]))
    &&& t[0] != '"'
    &&& t[0] != '\''
    &&& (t[0] == '{' ==> {
        let e = run_end(t, 1, CharClass::Uid);
        e == t.len() || t[e] != '}'
    })
    &&& !is_int_token(t)
    &&& !is_float_token(t)
    &&& ({
        let de = run_end(t, 0, CharClass::Unum);
        de + 2 <= t.len() && t[de] == ':' && t[de + 1] == 'U' ==> !is_int_token(
            t.subrange(0, de),
        )
    })
}

/// The scalar's rendering reads back as the same scalar.  Every scalar a
/// parse produces satisfies this, except an unquoted token that begins with
/// a quote character (which only arises from an unterminated quote).
pub open spec fn wf_attr(a: AttributeV) -> bool {
    match a {
        AttributeV::Uid(d) => forall|i: int| 0 <= i < d.len() ==> is_uid_char(#[trigger] d[i]),
        AttributeV::Int(v) => i64::MIN <= v <= i64::MAX,
        AttributeV::Str(st) => match st {
            ReaperStringV::SingleQuote(t) => forall|i: int|
                0 <= i < t.len() ==> #[trigger] t[i] != '\'',
            ReaperStringV::DoubleQuote(t) => forall|i: int|
                0 <= i < t.len() ==> #[trigger] t[i] != '"',
            ReaperStringV::Unquoted(t) => wf_unquoted(t),
        },
        AttributeV::Float(t) => is_float_token(t) && !is_int_token(t),
        AttributeV::UNumber(v) => i64::MIN <= v <= i64::MAX,
    }
}

/// The serializer is the parser's inverse on scalars: wherever a
/// well-formed scalar's rendering stands in a document, followed by
/// whitespace or the end of the input, the scalar choice reads back exactly
/// that scalar, consuming exactly its rendering.
#[verifier::rlimit(60)]
pub proof fn lemma_attr_render_reparse(s: Seq<char>, pos: int, a: AttributeV)
    requires
        wf_attr(a),
        0 <= pos,
        pos + render_attr(a).len() <= s.len(),
        forall|i: int| 0 <= i < render_attr(a).len() ==> s[pos + i] == #[trigger] render_attr(
            a,
        )[i],
        pos + render_attr(a).len() == s.len() || is_ws_char(s[pos + render_attr(a).len()]),
    ensures
        spec_parse_attribute(s, pos) == (a, pos + render_attr(a).len()),
{
    let r = render_attr(a);
    let end = pos + r.len();
    match a {
        AttributeV::Uid(d) => {
            assert(r == seq!['{'] + d + seq!['}']);
            assert(s[pos] == r[0] && r[0] == '{');
            assert(forall|i: int| 0 <= i < d.len() ==> r[1 + i] == d[i]);
            assert(forall|i: int| pos + 1 <= i < pos + 1 + d.len() ==> is_uid_char(
                #[trigger] s[i],
            )) by {
                assert(forall|i: int|
                    pos + 1 <= i < pos + 1 + d.len() ==> s[i] == d[i - pos - 1]);
            }
            assert(r[1 + d.len() as int] == '}');
            assert(s[pos + 1 + d.len()] == '}');
            lemma_run_end_embedded(s, pos + 1, pos + 1 + d.len(), CharClass::Uid);
            assert(s.subrange(pos + 1, pos + 1 + d.len()) =~= d);
            assert(spec_parse_uid(s, pos) == Some((d, end)));
        },
        AttributeV::Int(v) => {
            assert(r == render_int_text(v));
            lemma_int_text_round_trip(v);
            lemma_int_text_chars(v);
            assert(forall|i: int| pos <= i < end ==> !is_ws_char(#[trigger] s[i])) by {
                assert(forall|i: int| pos <= i < end ==> s[i] == r[i - pos]);
            }
            assert(s[pos] != '{' && s[pos] != '"' && s[pos] != '\'');
            lemma_run_end_segment(s, pos, r, 0, CharClass::NotWs);
            assert(run_end(r, 0, CharClass::NotWs) == r.len()) by {
                lemma_run_end_embedded(r, 0, r.len() as int, CharClass::NotWs);
            }
            assert(run_end(s, pos, CharClass::NotWs) == end);
            assert(s.subrange(pos, end) =~= r);
        },
        AttributeV::Str(st) => {
            match st {
                ReaperStringV::DoubleQuote(t) => {
                    assert(r == seq!['"'] + t + seq!['"']);
                    assert(forall|i: int| 0 <= i < t.len() ==> r[1 + i] == t[i]);
                    assert(r[0] == '"');
                    assert(r[1 + t.len() as int] == '"');
                    assert(s[pos] == '"');
                    assert(forall|i: int|
                        pos + 1 <= i < pos + 1 + t.len() ==> s[i] == t[i - pos - 1]) by {
                        assert(forall|i: int|
                            pos + 1 <= i < pos + 1 + t.len() ==> s[i] == r[i - pos]);
                    }
                    assert(s[pos + 1 + t.len()] == r[1 + t.len() as int]);
                    assert(s[pos + 1 + t.len()] == '"');
                    lemma_run_end_embedded(s, pos + 1, pos + 1 + t.len(), CharClass::NotChar('"'));
                    assert(s.subrange(pos + 1, pos + 1 + t.len()) =~= t);
                    assert(spec_parse_uid(s, pos) is None);
                    assert(spec_parse_quoted(s, pos, '"') == Some((t, end)));
                },
                ReaperStringV::SingleQuote(t) => {
                    assert(r == seq!['\''] + t + seq!['\'']);
                    assert(forall|i: int| 0 <= i < t.len() ==> r[1 + i] == t[i]);
                    assert(r[0] == '\'');
                    assert(r[1 + t.len() as int] == '\'');
                    assert(s[pos] == '\'');
                    assert(forall|i: int|
                        pos + 1 <= i < pos + 1 + t.len() ==> s[i] == t[i - pos - 1]) by {
                        assert(forall|i: int|
                            pos + 1 <= i < pos + 1 + t.len() ==> s[i] == r[i - pos]);
                    }
                    assert(s[pos + 1 + t.len()] == r[1 + t.len() as int]);
                    assert(s[pos + 1 + t.len()] == '\'');
                    lemma_run_end_embedded(
                        s,
                        pos + 1,
                        pos + 1 + t.len(),
                        CharClass::NotChar('\''),
                    );
                    assert(s.subrange(pos + 1, pos + 1 + t.len()) =~= t);
                    assert(spec_parse_uid(s, pos) is None);
                    assert(spec_parse_quoted(s, pos, '"') is None);
                    assert(spec_parse_quoted(s, pos, '\'') == Some((t, end)));
                },
                ReaperStringV::Unquoted(t) => {
                    assert(r == t);
                    assert(forall|i: int| 0 <= i < t.len() ==> s[pos + i] == t[i]);
                    // no early alternative claims the token
                    if s[pos] == '{' {
                        assert(t[0] == '{');
                        lemma_run_end_segment(s, pos, t, 1, CharClass::Uid);
                        let e = run_end(t, 1, CharClass::Uid);
                        lemma_run_end_bounds(t, 1, CharClass::Uid);
                        assert(run_end(s, pos + 1, CharClass::Uid) == pos + e);
                        if e == t.len() {
                            if end < s.len() {
                                assert(is_ws_char(s[end]) && s[end] != '}');
                            }
                        } else {
                            assert(t[e] != '}');
                            assert(s[pos + e] == t[e]);
                        }
                        assert(spec_parse_uid(s, pos) is None);
                    }
                    assert(spec_parse_uid(s, pos) is None);
                    assert(spec_parse_quoted(s, pos, '"') is None);
                    assert(spec_parse_quoted(s, pos, '\'') is None);
                    lemma_run_end_segment(s, pos, t, 0, CharClass::NotWs);
                    assert(run_end(t, 0, CharClass::NotWs) == t.len()) by {
                        lemma_run_end_embedded(t, 0, t.len() as int, CharClass::NotWs);
                    }
                    let te = run_end(s, pos, CharClass::NotWs);
                    assert(te == end);
                    assert(s.subrange(pos, end) =~= t);
                    // the :U suffix alternative does not fire either
                    lemma_run_end_segment(s, pos, t, 0, CharClass::Unum);
                    let de_t = run_end(t, 0, CharClass::Unum);
                    let de = run_end(s, pos, CharClass::Unum);
                    assert(de == pos + de_t);
                    lemma_run_end_bounds(t, 0, CharClass::Unum);
                    if de_t == t.len() {
                        if end == s.len() {
                            assert(!(de + 2 <= s.len()));
                        } else {
                            assert(is_ws_char(s[end]) && s[end] != ':');
                        }
                    } else {
                        assert(s[de] == t[de_t]);
                        if t[de_t] == ':' {
                            if de_t + 1 < t.len() {
                                assert(s[de + 1] == t[de_t + 1]);
                                if t[de_t + 1] == 'U' {
                                    assert(s.subrange(pos, de) =~= t.subrange(0, de_t));
                                    assert(!is_int_token(s.subrange(pos, de)));
                                }
                            } else {
                                if end == s.len() {
                                    assert(!(de + 2 <= s.len()));
                                } else {
                                    assert(is_ws_char(s[end]) && s[end] != 'U');
                                }
                            }
                        }
                    }
                },
            }
        },
        AttributeV::Float(t) => {
            assert(r == t);
            lemma_float_token_chars(t);
            assert(forall|i: int| pos <= i < end ==> s[i] == t[i - pos]);
            assert(forall|i: int| pos <= i < end ==> is_float_char(#[trigger] s[i]));
            assert(forall|i: int| pos <= i < end ==> !is_ws_char(#[trigger] s[i]));
            assert(s[pos] != '{' && s[pos] != '"' && s[pos] != '\'');
            assert(spec_parse_uid(s, pos) is None);
            assert(spec_parse_quoted(s, pos, '"') is None);
            assert(spec_parse_quoted(s, pos, '\'') is None);
            lemma_run_end_segment(s, pos, t, 0, CharClass::NotWs);
            assert(run_end(t, 0, CharClass::NotWs) == t.len()) by {
                lemma_run_end_embedded(t, 0, t.len() as int, CharClass::NotWs);
            }
            assert(run_end(s, pos, CharClass::NotWs) == end);
            assert(s.subrange(pos, end) =~= t);
        },
        AttributeV::UNumber(v) => {
            let d = render_int_text(v);
            assert(r == d + seq![':', 'U']);
            lemma_int_text_round_trip(v);
            lemma_int_text_chars(v);
            assert(forall|i: int| 0 <= i < d.len() ==> r[i] == d[i]);
            assert(r[d.len() as int] == ':' && r[d.len() as int + 1] == 'U');
            assert(forall|i: int| pos <= i < end ==> !is_ws_char(#[trigger] s[i])) by {
                assert(forall|i: int| pos <= i < end ==> s[i] == r[i - pos]);
            }
            assert(s[pos] != '{' && s[pos] != '"' && s[pos] != '\'');
            assert(spec_parse_uid(s, pos) is None);
            assert(spec_parse_quoted(s, pos, '"') is None);
            assert(spec_parse_quoted(s, pos, '\'') is None);
            lemma_run_end_segment(s, pos, r, 0, CharClass::NotWs);
            assert(run_end(r, 0, CharClass::NotWs) == r.len()) by {
                lemma_run_end_embedded(r, 0, r.len() as int, CharClass::NotWs);
            }
            let tok = s.subrange(pos, end);
            assert(tok =~= r);
            // the whole token is neither an integer nor a float
            assert(!is_int_token(tok)) by {
                let b = int_body(tok);
                let off: int = if tok[0] == '+' || tok[0] == '-' {
                    1
                } else {
                    0
                };
                assert(b[d.len() - off] == tok[d.len() as int]);
                assert(tok[d.len() as int] == ':');
                assert(!crate::low_level::chars::is_digit_char(':'));
            }
            assert(!is_float_token(tok)) by {
                if is_float_token(tok) {
                    lemma_float_token_chars(tok);
                    assert(is_float_char(tok[d.len() as int]));
                    assert(tok[d.len() as int] == ':');
                }
            }
            // the digits stop exactly at the suffix
            assert(forall|i: int| pos <= i < pos + d.len() ==> crate::low_level::chars::in_class(
                CharClass::Unum,
                #[trigger] s[i],
            )) by {
                assert(forall|i: int| pos <= i < pos + d.len() ==> s[i] == d[i - pos]);
            }
            assert(s[pos + d.len()] == ':');
            lemma_run_end_embedded(s, pos, pos + d.len(), CharClass::Unum);
            assert(s[pos + d.len() + 1] == 'U');
            assert(s.subrange(pos, pos + d.len()) =~= d);
        },
    }
}

/// The characters of a rendered integer: an optional minus sign, then
/// digits — in particular never whitespace, quotes, or braces, and each in
/// the `:U` digit class.
pub proof fn lemma_int_text_chars(v: int)
    ensures
        render_int_text(v).len() > 0,
        forall|i: int| 0 <= i < render_int_text(v).len() ==> crate::low_level::chars::is_unum_char(
            #[trigger] render_int_text(v)[i],
        ),
{
    if v < 0 {
        lemma_dec_digits_all(-v);
    } else {
        lemma_dec_digits_all(v);
    }
}

/// Every rendered digit is a decimal digit.
proof fn lemma_dec_digits_all(n: int)
    requires
        n >= 0,
    ensures
        crate::low_level::numbers::dec_digits(n).len() >= 1,
        forall|i: int| 0 <= i < crate::low_level::numbers::dec_digits(n).len()
            ==> crate::low_level::chars::is_digit_char(
            #[trigger] crate::low_level::numbers::dec_digits(n)[i],
        ),
    decreases n,
{
    if n >= 10 {
        lemma_dec_digits_all(n / 10);
        assert(forall|i: int|
            0 <= i < crate::low_level::numbers::dec_digits(n).len() - 1
                ==> crate::low_level::numbers::dec_digits(n)[i]
                == crate::low_level::numbers::dec_digits(n / 10)[i]);
    }
}

// ---------------------------------------------------------------------------
// rendering
// ---------------------------------------------------------------------------
/// The line terminator that output always uses.
pub open spec fn crlf() -> Seq<char> {
    seq!['\r', '\n']
}

/// A string scalar renders inside its remembered quotes.
pub open spec fn render_string_v(s: ReaperStringV) -> Seq<char> {
    match s {
        ReaperStringV::SingleQuote(t) => seq!['\''] + t + seq!['\''],
        ReaperStringV::DoubleQuote(t) => seq!['"'] + t + seq!['"'],
        ReaperStringV::Unquoted(t) => t,
    }
}

/// A scalar renders to its token text.
pub open spec fn render_attr(a: AttributeV) -> Seq<char> {
    match a {
        AttributeV::Uid(d) => seq!['{'] + d + seq!['}'],
        AttributeV::Int(v) => render_int_text(v),
        AttributeV::Str(st) => render_string_v(st),
        AttributeV::Float(t) => t,
        AttributeV::UNumber(v) => render_int_text(v) + seq![':', 'U'],
    }
}

/// The value list renders as a space before each scalar.
pub open spec fn render_values(vs: Seq<AttributeV>) -> Seq<char>
    decreases vs.len(),
{
    if vs.len() == 0 {
        Seq::empty()
    } else {
        render_values(vs.drop_last()) + seq![' '] + render_attr(vs.last())
    }
}

/// A line renders as indentation, its name, and its values.
pub open spec fn render_line(l: LineV, indent: nat) -> Seq<char> {
    indent_spaces(indent) + l.name + render_values(l.values)
}

/// An object renders as its header between `<` and a newline, its children
/// each followed by a newline at the next depth, and a closing `>` at its
/// own depth.
pub open spec fn render_object_v(o: ObjectV, indent: nat) -> Seq<char>
    decreases o, 1int,
{
    indent_spaces(indent) + seq!['<'] + render_line(o.header, 0) + crlf() + render_children(
        o.children,
        (indent + 1) as nat,
    ) + indent_spaces(indent) + seq!['>']
}

/// The children render in order, each followed by a newline.
pub open spec fn render_children(cs: Seq<EntryV>, indent: nat) -> Seq<char>
    decreases cs, 2int,
{
    if cs.len() == 0 {
        Seq::empty()
    } else {
        render_children(cs.drop_last(), indent) + render_entry(cs.last(), indent) + crlf()
    }
}

/// An entry renders by its variant.
pub open spec fn render_entry(e: EntryV, indent: nat) -> Seq<char>
    decreases e, 3int,
{
    match e {
        EntryV::Object(o) => render_object_v(o, indent),
        EntryV::Line(l) => render_line(l, indent),
        EntryV::AnonymousParameter(t) => indent_spaces(indent) + t,
    }
}


/// The value list's rendering, decomposed at its first element.
proof fn lemma_render_values_cons(vs: Seq<AttributeV>)
    requires
        vs.len() > 0,
    ensures
        render_values(vs) == seq![' '] + render_attr(vs[0]) + render_values(
            vs.subrange(1, vs.len() as int),
        ),
    decreases vs.len(),
{
    if vs.len() == 1 {
        assert(vs.drop_last() =~= Seq::<AttributeV>::empty());
        assert(vs.subrange(1, vs.len() as int) =~= Seq::<AttributeV>::empty());
        assert(render_values(vs) =~= seq![' '] + render_attr(vs[0]) + render_values(
            vs.subrange(1, vs.len() as int),
        ));
    } else {
        let head_dropped = vs.subrange(1, vs.len() as int);
        lemma_render_values_cons(vs.drop_last());
        assert(vs.drop_last()[0] == vs[0]);
        assert(vs.drop_last().subrange(1, vs.len() - 1) =~= head_dropped.drop_last());
        assert(head_dropped.last() == vs.last());
        assert(render_values(vs) == render_values(vs.drop_last()) + seq![' '] + render_attr(
            vs.last(),
        ));
        assert(render_values(head_dropped) == render_values(head_dropped.drop_last()) + seq![
            ' ',
        ] + render_attr(head_dropped.last()));
        assert(render_values(vs) =~= seq![' '] + render_attr(vs[0]) + render_values(
            head_dropped,
        ));
    }
}

/// A line terminator character: what may follow a rendered value list
/// without extending it.
pub open spec fn is_line_end_char(c: char) -> bool {
    is_ws_char(c) && c != ' '
}

/// Every scalar of the list is well formed.
pub open spec fn wf_values(vs: Seq<AttributeV>) -> bool {
    forall|i: int| 0 <= i < vs.len() ==> wf_attr(#[trigger] vs[i])
}

/// A rendered value list reads back as itself, wherever it stands, as long
/// as a line terminator or the end of the input follows it.
proof fn lemma_values_render_reparse(s: Seq<char>, pos: int, vs: Seq<AttributeV>)
    requires
        wf_values(vs),
        0 <= pos,
        pos + render_values(vs).len() <= s.len(),
        forall|i: int| 0 <= i < render_values(vs).len() ==> s[pos + i] == #[trigger] render_values(
            vs,
        )[i],
        pos + render_values(vs).len() == s.len() || is_line_end_char(
            s[pos + render_values(vs).len()],
        ),
    ensures
        spec_parse_values(s, pos) == (vs, pos + render_values(vs).len()),
    decreases vs.len(),
{
    let r = render_values(vs);
    let end = pos + r.len();
    if vs.len() == 0 {
        assert(r =~= Seq::<char>::empty());
        if pos < s.len() {
            assert(!(s[pos] == ' '));
        }
        assert(spec_parse_values(s, pos) == (Seq::<AttributeV>::empty(), pos));
        assert(vs =~= Seq::<AttributeV>::empty());
    } else {
        lemma_render_values_cons(vs);
        let a = vs[0];
        let rest = vs.subrange(1, vs.len() as int);
        let ra = render_attr(a);
        assert(r == seq![' '] + ra + render_values(rest));
        assert(r[0] == ' ');
        assert(s[pos] == ' ');
        assert(forall|i: int| 0 <= i < ra.len() ==> r[1 + i] == ra[i]);
        assert(forall|i: int| 0 <= i < ra.len() ==> s[pos + 1 + i] == #[trigger] ra[i]) by {
            assert(forall|i: int| 0 <= i < ra.len() ==> s[pos + 1 + i] == #[trigger] r[1 + i]);
        }
        let mid = pos + 1 + ra.len();
        assert(forall|i: int| 0 <= i < render_values(rest).len() ==> r[1 + ra.len() + i]
            == render_values(rest)[i]);
        assert(forall|i: int|
            0 <= i < render_values(rest).len() ==> s[mid + i] == #[trigger] render_values(
                rest,
            )[i]) by {
            assert(forall|i: int|
                0 <= i < render_values(rest).len() ==> s[mid + i] == #[trigger] r[1 + ra.len()
                    + i]);
        }
        // the scalar is followed by the next separator space, a line
        // terminator, or the end of the input
        if rest.len() > 0 {
            lemma_render_values_cons(rest);
            assert(render_values(rest)[0] == ' ');
            assert(s[mid] == ' ');
            assert(is_ws_char(' '));
        } else {
            assert(render_values(rest) =~= Seq::<char>::empty());
            assert(mid == end);
        }
        lemma_attr_render_reparse(s, pos + 1, a);
        lemma_values_render_reparse(s, mid, rest);
        assert(spec_parse_values(s, pos).0 =~= seq![a] + rest);
        assert(seq![a] + rest =~= vs);
    }
}

/// A well-formed line: a non-empty name of name characters, and well-formed
/// values.
pub open spec fn wf_line(l: LineV) -> bool {
    &&& l.name.len() > 0
    &&& (forall|i: int| 0 <= i < l.name.len() ==> crate::low_level::chars::is_name_char(
        #[trigger] l.name[i],
    ))
    &&& wf_values(l.values)
}

/// A rendered line reads back as itself at its own depth, as long as a line
/// terminator or the end of the input follows it.
pub proof fn lemma_line_render_reparse(s: Seq<char>, pos: int, l: LineV, indent: nat)
    requires
        wf_line(l),
        0 <= pos,
        pos + render_line(l, indent).len() <= s.len(),
        forall|i: int| 0 <= i < render_line(l, indent).len() ==> s[pos + i]
            == #[trigger] render_line(l, indent)[i],
        pos + render_line(l, indent).len() == s.len() || is_line_end_char(
            s[pos + render_line(l, indent).len()],
        ),
    ensures
        spec_parse_line(s, pos, indent) == Some((l, pos + render_line(l, indent).len())),
{
    let r = render_line(l, indent);
    let end = pos + r.len();
    let ind = indent_spaces(indent);
    assert(r == ind + l.name + render_values(l.values));
    assert(forall|i: int| 0 <= i < ind.len() ==> r[i] == ' ');
    assert(forall|i: int| pos <= i < pos + 2 * indent ==> s[i] == ' ') by {
        assert(forall|i: int| pos <= i < pos + 2 * indent ==> #[trigger] s[i] == r[i - pos]);
    }
    assert(indent_ok(s, pos, indent));
    let p0 = pos + 2 * indent;
    assert(forall|i: int| 0 <= i < l.name.len() ==> r[ind.len() + i] == l.name[i]);
    assert(forall|i: int| 0 <= i < l.name.len() ==> s[p0 + i] == l.name[i]) by {
        assert(forall|i: int| 0 <= i < l.name.len() ==> s[p0 + i] == #[trigger] r[ind.len()
            + i]);
    }
    let p1 = p0 + l.name.len();
    assert forall|i: int| p0 <= i < p1 implies crate::low_level::chars::is_name_char(
        #[trigger] s[i],
    ) by {
        assert(s[p0 + (i - p0)] == l.name[i - p0]);
        assert(crate::low_level::chars::is_name_char(l.name[i - p0]));
    }
    // the name run stops right after the name
    if p1 < s.len() {
        if p1 < end {
            lemma_render_values_cons(l.values);
            assert(l.values.len() > 0);
            assert(render_values(l.values)[0] == ' ');
            assert(s[p1] == r[ind.len() + l.name.len() as int]);
            assert(s[p1] == ' ');
            assert(!crate::low_level::chars::is_name_char(s[p1]));
        } else {
            assert(p1 == end);
            assert(!crate::low_level::chars::is_name_char(s[p1]));
        }
    }
    lemma_run_end_embedded(s, p0, p1, CharClass::Name);
    assert(spec_parse_name(s, p0) == Some((s.subrange(p0, p1), p1)));
    assert(s.subrange(p0, p1) =~= l.name);
    assert forall|i: int| 0 <= i < render_values(l.values).len() implies s[p1 + i]
        == #[trigger] render_values(l.values)[i] by {
        assert(s[pos + (ind.len() + l.name.len() + i)] == r[ind.len() + l.name.len() + i]);
        assert(r[ind.len() + l.name.len() + i] == render_values(l.values)[i]);
        assert(p1 + i == pos + (ind.len() + l.name.len() + i));
    }
    lemma_values_render_reparse(s, p1, l.values);
}


/// A well-formed anonymous parameter: non-empty, made of payload
/// characters, and not entirely of name characters (such a payload would
/// read back as a line).
pub open spec fn wf_anon(t: Seq<char>) -> bool {
    &&& t.len() > 0
    &&& (forall|i: int| 0 <= i < t.len() ==> crate::low_level::chars::is_anon_char(
        #[trigger] t[i],
    ))
    &&& (exists|i: int| 0 <= i < t.len() && !crate::low_level::chars::is_name_char(
        #[trigger] t[i],
    ))
}

/// A well-formed entry, by its variant.
pub open spec fn wf_entry(e: EntryV) -> bool
    decreases e, 3int,
{
    match e {
        EntryV::Object(o) => wf_object(o),
        EntryV::Line(l) => wf_line(l),
        EntryV::AnonymousParameter(t) => wf_anon(t),
    }
}

/// A well-formed object: a well-formed header and well-formed children.
pub open spec fn wf_object(o: ObjectV) -> bool
    decreases o, 1int,
{
    wf_line(o.header) && wf_children(o.children)
}

/// Well-formed children, one after the other.
pub open spec fn wf_children(cs: Seq<EntryV>) -> bool
    decreases cs, 2int,
{
    cs.len() == 0 || (wf_entry(cs[0]) && wf_children(cs.subrange(1, cs.len() as int)))
}

/// The children's rendering, decomposed at the first child.
proof fn lemma_render_children_cons(cs: Seq<EntryV>, indent: nat)
    requires
        cs.len() > 0,
    ensures
        render_children(cs, indent) == render_entry(cs[0], indent) + crlf() + render_children(
            cs.subrange(1, cs.len() as int),
            indent,
        ),
    decreases cs.len(),
{
    if cs.len() == 1 {
        assert(cs.drop_last() =~= Seq::<EntryV>::empty());
        assert(cs.subrange(1, cs.len() as int) =~= Seq::<EntryV>::empty());
        assert(render_children(cs, indent) =~= render_entry(cs[0], indent) + crlf()
            + render_children(cs.subrange(1, cs.len() as int), indent));
    } else {
        let rest = cs.subrange(1, cs.len() as int);
        lemma_render_children_cons(cs.drop_last(), indent);
        assert(cs.drop_last()[0] == cs[0]);
        assert(cs.drop_last().subrange(1, cs.len() - 1) =~= rest.drop_last());
        assert(rest.last() == cs.last());
        assert(render_children(cs, indent) =~= render_entry(cs[0], indent) + crlf()
            + render_children(rest, indent));
    }
}

/// No entry production starts where the parent's closing delimiter stands.
proof fn lemma_entry_fails_at_closer(s: Seq<char>, q: int, indent: nat)
    requires
        0 <= q,
        q + 2 * indent < s.len(),
        forall|i: int| q <= i < q + 2 * indent ==> s[i] == ' ',
        s[q + 2 * indent] == '>',
    ensures
        spec_parse_entry(s, q, (indent + 1) as nat) is None,
{
    assert(!indent_ok(s, q, (indent + 1) as nat));
}

/// Rendered children followed by a failing continuation read back as
/// exactly those children.
proof fn lemma_children_render_reparse(s: Seq<char>, pos: int, cs: Seq<EntryV>, ind1: nat)
    requires
        wf_children(cs),
        0 <= pos,
        pos + render_children(cs, ind1).len() <= s.len(),
        forall|i: int| 0 <= i < render_children(cs, ind1).len() ==> s[pos + i]
            == #[trigger] render_children(cs, ind1)[i],
        spec_parse_entry(s, pos + render_children(cs, ind1).len(), ind1) is None,
    ensures
        spec_parse_entries(s, pos, ind1) == (cs, pos + render_children(cs, ind1).len()),
    decreases cs, 2int,
{
    let r = render_children(cs, ind1);
    let end = pos + r.len();
    if cs.len() == 0 {
        assert(r =~= Seq::<char>::empty());
        assert(spec_parse_entries(s, pos, ind1) == (Seq::<EntryV>::empty(), pos));
        assert(cs =~= Seq::<EntryV>::empty());
    } else {
        lemma_render_children_cons(cs, ind1);
        let e0 = cs[0];
        let rest = cs.subrange(1, cs.len() as int);
        let re = render_entry(e0, ind1);
        assert(r == re + crlf() + render_children(rest, ind1));
        assert(forall|i: int| 0 <= i < re.len() ==> r[i] == re[i]);
        assert forall|i: int| 0 <= i < re.len() implies s[pos + i] == #[trigger] re[i] by {
            assert(s[pos + i] == r[i]);
        }
        assert(r[re.len() as int] == '\r' && r[re.len() as int + 1] == '\n');
        assert(s[pos + re.len()] == '\r' && s[pos + re.len() + 1] == '\n');
        let mid = pos + re.len() + 2;
        lemma_entry_render_reparse(s, pos, e0, ind1);
        assert(spec_parse_entry(s, pos, ind1) == Some((e0, mid)));
        assert forall|i: int| 0 <= i < render_children(rest, ind1).len() implies s[mid + i]
            == #[trigger] render_children(rest, ind1)[i] by {
            assert(s[pos + (re.len() + 2 + i)] == r[re.len() + 2 + i]);
            assert(r[re.len() + 2 + i] == render_children(rest, ind1)[i]);
        }
        lemma_children_render_reparse(s, mid, rest, ind1);
        assert(spec_parse_entries(s, pos, ind1).0 =~= seq![e0] + rest);
        assert(seq![e0] + rest =~= cs);
    }
}

/// A rendered entry followed by a line terminator reads back as exactly
/// that entry, consuming its rendering and the terminator.
proof fn lemma_entry_render_reparse(s: Seq<char>, pos: int, e: EntryV, ind1: nat)
    requires
        wf_entry(e),
        0 <= pos,
        pos + render_entry(e, ind1).len() + 2 <= s.len(),
        forall|i: int| 0 <= i < render_entry(e, ind1).len() ==> s[pos + i]
            == #[trigger] render_entry(e, ind1)[i],
        s[pos + render_entry(e, ind1).len()] == '\r',
        s[pos + render_entry(e, ind1).len() + 1] == '\n',
    ensures
        spec_parse_entry(s, pos, ind1) == Some((e, pos + render_entry(e, ind1).len() + 2)),
    decreases e, 3int,
{
    let r = render_entry(e, ind1);
    let end = pos + r.len();
    match e {
        EntryV::Object(o) => {
            lemma_object_render_reparse(s, pos, o, ind1);
            assert(spec_parse_object(s, pos, ind1) == Some((o, end)));
            assert(spec_parse_newline(s, end) == Some(end + 2));
        },
        EntryV::Line(l) => {
            assert(r == render_line(l, ind1));
            // the object alternative stops at the line's name
            let p0 = pos + 2 * ind1;
            assert(forall|i: int| 0 <= i < 2 * ind1 ==> r[i] == ' ');
            assert(r[2 * ind1 as int] == l.name[0]);
            assert(s[p0] == r[2 * ind1 as int]);
            assert(crate::low_level::chars::is_name_char(l.name[0]));
            assert(s[p0] != '<');
            assert(spec_parse_object(s, pos, ind1) is None);
            assert(is_line_end_char('\r'));
            lemma_line_render_reparse(s, pos, l, ind1);
            assert(spec_parse_newline(s, end) == Some(end + 2));
        },
        EntryV::AnonymousParameter(t) => {
            let p0 = pos + 2 * ind1;
            assert(r == indent_spaces(ind1) + t);
            assert(forall|i: int| 0 <= i < 2 * ind1 ==> r[i] == ' ');
            assert forall|i: int| pos <= i < p0 implies #[trigger] s[i] == ' ' by {
                assert(s[pos + (i - pos)] == r[i - pos]);
            }
            assert(indent_ok(s, pos, ind1));
            assert(forall|i: int| 0 <= i < t.len() ==> r[2 * ind1 + i] == t[i]);
            assert forall|i: int| 0 <= i < t.len() implies s[p0 + i] == #[trigger] t[i] by {
                assert(s[pos + (2 * ind1 + i)] == r[2 * ind1 + i]);
            }
            // the object alternative stops at the payload
            assert(s[p0] == t[0]);
            assert(crate::low_level::chars::is_anon_char(t[0]));
            assert(s[p0] != '<');
            assert(spec_parse_object(s, pos, ind1) is None);
            // the line alternative cannot reach the terminator
            lemma_run_end_segment(s, p0, t, 0, CharClass::Name);
            let k = run_end(t, 0, CharClass::Name);
            lemma_run_end_bounds(t, 0, CharClass::Name);
            assert(k < t.len()) by {
                if k == t.len() {
                    lemma_name_prefix(t, 0);
                    let j = choose|i: int|
                        0 <= i < t.len() && !crate::low_level::chars::is_name_char(
                            #[trigger] t[i],
                        );
                    assert(crate::low_level::chars::is_name_char(t[j]));
                }
            }
            assert(run_end(s, p0, CharClass::Name) == p0 + k);
            assert(s[p0 + k] == t[k]);
            assert(!crate::low_level::chars::is_name_char(t[k])) by {
                lemma_run_stop_out_of_class(t, 0, CharClass::Name);
            }
            assert(crate::low_level::chars::is_anon_char(t[k]));
            assert(t[k] != ' ' && t[k] != '\r' && t[k] != '\n');
            if k > 0 {
                assert(spec_parse_values(s, p0 + k).1 == p0 + k);
                assert(spec_parse_line(s, pos, ind1) matches Some(tt) && tt.1 == p0 + k);
                assert(spec_parse_newline(s, p0 + k) is None);
            } else {
                assert(spec_parse_name(s, p0) is None);
                assert(spec_parse_line(s, pos, ind1) is None);
            }
            // the anonymous alternative reads the payload
            lemma_run_end_segment_anon(s, p0, t);
            assert(spec_parse_anon(s, pos, ind1) == Some((s.subrange(p0, p0 + t.len()), p0
                + t.len())));
            assert(s.subrange(p0, p0 + t.len()) =~= t);
            assert(spec_parse_newline(s, end) == Some(end + 2));
        },
    }
}

/// Everything before a run's end is in the run's class.
proof fn lemma_name_prefix(t: Seq<char>, pos: int)
    requires
        0 <= pos <= t.len(),
    ensures
        forall|i: int| pos <= i < run_end(t, pos, CharClass::Name)
            ==> crate::low_level::chars::is_name_char(#[trigger] t[i]),
    decreases t.len() - pos,
{
    if pos < t.len() && crate::low_level::chars::in_class(CharClass::Name, t[pos]) {
        lemma_name_prefix(t, pos + 1);
    }
}

/// The character a run stops on, when inside the input, is out of the class.
proof fn lemma_run_stop_out_of_class(t: Seq<char>, pos: int, cc: CharClass)
    requires
        0 <= pos <= t.len(),
        run_end(t, pos, cc) < t.len(),
    ensures
        !crate::low_level::chars::in_class(cc, t[run_end(t, pos, cc)]),
    decreases t.len() - pos,
{
    if pos < t.len() && crate::low_level::chars::in_class(cc, t[pos]) {
        lemma_run_stop_out_of_class(t, pos + 1, cc);
    }
}

/// A payload's run through the anonymous character class spans the whole
/// payload (the following terminator is out of the class).
proof fn lemma_run_end_segment_anon(s: Seq<char>, p0: int, t: Seq<char>)
    requires
        wf_anon(t),
        0 <= p0,
        p0 + t.len() < s.len(),
        forall|i: int| 0 <= i < t.len() ==> s[p0 + i] == #[trigger] t[i],
        s[p0 + t.len()] == '\r',
    ensures
        run_end(s, p0, CharClass::Anon) == p0 + t.len(),
{
    assert forall|i: int| p0 <= i < p0 + t.len() implies crate::low_level::chars::in_class(
        CharClass::Anon,
        #[trigger] s[i],
    ) by {
        assert(s[p0 + (i - p0)] == t[i - p0]);
    }
    lemma_run_end_embedded(s, p0, p0 + t.len(), CharClass::Anon);
}

/// A rendered object reads back as exactly that object, consuming exactly
/// its rendering.
pub proof fn lemma_object_render_reparse(s: Seq<char>, pos: int, o: ObjectV, indent: nat)
    requires
        wf_object(o),
        0 <= pos,
        pos + render_object_v(o, indent).len() <= s.len(),
        forall|i: int| 0 <= i < render_object_v(o, indent).len() ==> s[pos + i]
            == #[trigger] render_object_v(o, indent)[i],
    ensures
        spec_parse_object(s, pos, indent) == Some((o, pos + render_object_v(o, indent).len())),
    decreases o, 1int,
{
    let r = render_object_v(o, indent);
    let end = pos + r.len();
    let hl = render_line(o.header, 0);
    let cl = render_children(o.children, (indent + 1) as nat);
    let w: int = 2 * indent as int;
    assert(r == indent_spaces(indent) + seq!['<'] + hl + crlf() + cl + indent_spaces(indent)
        + seq!['>']);
    let off2 = w + 1;
    let off3 = off2 + hl.len();
    let off4 = off3 + 2;
    let off5 = off4 + cl.len();
    let off6 = off5 + w;
    assert(r.len() == off6 + 1);
    assert(forall|i: int| 0 <= i < w ==> r[i] == ' ');
    assert(r[w] == '<');
    assert(forall|i: int| 0 <= i < hl.len() ==> r[off2 + i] == hl[i]);
    assert(r[off3] == '\r' && r[off3 + 1] == '\n');
    assert(forall|i: int| 0 <= i < cl.len() ==> r[off4 + i] == cl[i]);
    assert(forall|i: int| 0 <= i < w ==> #[trigger] r[off5 + i] == ' ');
    assert(r[off6] == '>');
    assert forall|i: int| pos <= i < pos + w implies #[trigger] s[i] == ' ' by {
        assert(s[pos + (i - pos)] == r[i - pos]);
    }
    assert(indent_ok(s, pos, indent));
    let p0 = pos + w;
    assert(s[p0] == r[w]);
    assert forall|i: int| 0 <= i < hl.len() implies s[p0 + 1 + i] == #[trigger] hl[i] by {
        assert(s[pos + (off2 + i)] == r[off2 + i]);
    }
    let p1 = p0 + 1 + hl.len();
    assert(s[p1] == r[off3] && s[p1 + 1] == r[off3 + 1]);
    assert(is_line_end_char('\r'));
    lemma_line_render_reparse(s, p0 + 1, o.header, 0);
    assert(spec_parse_line(s, p0 + 1, 0) == Some((o.header, p1)));
    assert(spec_parse_newline(s, p1) == Some(p1 + 2));
    let p2 = p1 + 2;
    assert forall|i: int| 0 <= i < cl.len() implies s[p2 + i] == #[trigger] cl[i] by {
        assert(s[pos + (off4 + i)] == r[off4 + i]);
    }
    let q = p2 + cl.len();
    assert forall|i: int| q <= i < q + w implies #[trigger] s[i] == ' ' by {
        assert(s[pos + (off5 + (i - q))] == r[off5 + (i - q)]);
    }
    assert(s[q + w] == r[off6]);
    assert(q + w < s.len());
    lemma_entry_fails_at_closer(s, q, indent);
    lemma_children_render_reparse(s, p2, o.children, (indent + 1) as nat);
    assert(spec_parse_entries(s, p2, (indent + 1) as nat) == (o.children, q));
    assert(indent_ok(s, q, indent));
    assert(s[q + w] == '>');
    assert(pos < p2 <= s.len());
}

/// The serializer is the parser's inverse: a well-formed document renders
/// to text that parses back to exactly the same tree, consuming the whole
/// rendering.  (The converse direction — that parsing and re-rendering
/// reproduces the input text byte for byte — does not hold in general: the
/// grammar normalizes line endings, signs, and leading zeros.)
pub proof fn lemma_document_round_trip(o: ObjectV)
    requires
        wf_object(o),
    ensures
        spec_parse_object(render_object_v(o, 0) + crlf(), 0, 0) == Some(
            (o, render_object_v(o, 0).len() as int),
        ),
{
    let s = render_object_v(o, 0) + crlf();
    assert(forall|i: int| 0 <= i < render_object_v(o, 0).len() ==> s[0 + i]
        == #[trigger] render_object_v(o, 0)[i]);
    lemma_object_render_reparse(s, 0, o, 0);
}

} // verus!
