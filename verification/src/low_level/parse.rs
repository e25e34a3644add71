//! The executable recursive-descent parser, proved equal to the grammar's
//! spec functions.  Every function takes the whole input, its character
//! count, a position, and (where the production is indented) a depth.

use vstd::prelude::*;

use crate::low_level::chars::{scan, CharClass};
use crate::low_level::float::is_float_token_exec;
use crate::low_level::grammar::{
    indent_ok, spec_parse_anon, spec_parse_attribute, spec_parse_entries, spec_parse_entry,
    spec_parse_line, spec_parse_newline, spec_parse_object, spec_parse_reaper_string,
    spec_parse_uid, spec_parse_values,
};
use crate::low_level::grammar::lemma_parse_attribute_bounds;
use crate::low_level::grammar::lemma_parse_line_bounds;
use crate::low_level::numbers::parse_int_token;
use crate::low_level::{
    entries_view, values_view, AnonymousParameter, Attribute, AttributeName, Entry, Int, Line,
    Object, ReaperFloat, ReaperString, ReaperUid,
};

verus! {

/// Consumes a line terminator.
pub(crate) fn parse_newline(s: &str, n: usize, pos: usize) -> (r: Option<usize>)
    requires
        n == s@.len(),
        pos <= n,
    ensures
        match r {
            Some(p) => spec_parse_newline(s@, pos as int) == Some(p as int) && pos < p <= n,
            None => spec_parse_newline(s@, pos as int) is None,
        },
{
    if pos < n && s.get_char(pos) == '\r' {
        if pos + 1 < n && s.get_char(pos + 1) == '\n' {
            return Some(pos + 2);
        }
    }
    if pos < n && s.get_char(pos) == '\n' {
        return Some(pos + 1);
    }
    None
}

/// Consumes exactly the indentation of the given depth, or fails.
#[verifier::loop_isolation(false)]
pub(crate) fn check_indent(s: &str, n: usize, pos: usize, indent: usize) -> (r: Option<usize>)
    requires
        n == s@.len(),
        pos <= n,
    ensures
        match r {
            Some(p0) => indent_ok(s@, pos as int, indent as nat) && p0 == pos + 2 * indent && p0
                <= n,
            None => !indent_ok(s@, pos as int, indent as nat),
        },
{
    if indent > (n - pos) / 2 {
        proof {
            assert(2 * (indent as int) > n - pos);
        }
        return None;
    }
    let width = 2 * indent;
    let mut j: usize = 0;
    while j < width
        invariant
            0 <= j <= width,
            forall|k: int| pos <= k < pos + j ==> s@[k] == ' ',
        decreases width - j,
    {
        if s.get_char(pos + j) != ' ' {
            return None;
        }
        j = j + 1;
    }
    Some(pos + width)
}

/// Parses one scalar value; the unquoted fallback makes this total.
pub(crate) fn parse_attribute(s: &str, n: usize, pos: usize) -> (r: (Attribute, usize))
    requires
        n == s@.len(),
        pos <= n,
    ensures
        spec_parse_attribute(s@, pos as int) == (r.0@, r.1 as int),
        pos <= r.1 <= n,
{
    proof {
        lemma_parse_attribute_bounds(s@, pos as int);
    }
    if pos < n && s.get_char(pos) == '{' {
        let e = scan(s, n, pos + 1, CharClass::Uid);
        if e < n && s.get_char(e) == '}' {
            let digits = s.substring_char(pos + 1, e).to_owned();
            return (Attribute::ReaperUid(ReaperUid(digits)), e + 1);
        }
    }
    if pos < n && s.get_char(pos) == '"' {
        let e = scan(s, n, pos + 1, CharClass::NotChar('"'));
        if e < n {
            let text = s.substring_char(pos + 1, e).to_owned();
            return (Attribute::String(ReaperString::DoubleQuote(text)), e + 1);
        }
    }
    if pos < n && s.get_char(pos) == '\'' {
        let e = scan(s, n, pos + 1, CharClass::NotChar('\''));
        if e < n {
            let text = s.substring_char(pos + 1, e).to_owned();
            return (Attribute::String(ReaperString::SingleQuote(text)), e + 1);
        }
    }
    let te = scan(s, n, pos, CharClass::NotWs);
    let tok = s.substring_char(pos, te);
    match parse_int_token(tok, te - pos) {
        Some(v) => {
            return (Attribute::Int(Int(v)), te);
        },
        None => {},
    }
    if is_float_token_exec(tok, te - pos) {
        return (Attribute::Float(ReaperFloat(tok.to_owned())), te);
    }
    let de = scan(s, n, pos, CharClass::Unum);
    if de < n && de + 1 < n && s.get_char(de) == ':' && s.get_char(de + 1) == 'U' {
        let ntok = s.substring_char(pos, de);
        match parse_int_token(ntok, de - pos) {
            Some(v) => {
                return (Attribute::UNumber(Int(v)), de + 2);
            },
            None => {},
        }
    }
    (Attribute::String(ReaperString::Unquoted(tok.to_owned())), te)
}

/// Parses the value list of a line: while a space stands at the position,
/// one more scalar after it.
#[verifier::loop_isolation(false)]
pub(crate) fn parse_values(s: &str, n: usize, pos: usize) -> (r: (Vec<Attribute>, usize))
    requires
        n == s@.len(),
        pos <= n,
    ensures
        spec_parse_values(s@, pos as int) == (values_view(r.0@), r.1 as int),
        pos <= r.1 <= n,
{
    let mut vals: Vec<Attribute> = Vec::new();
    let mut p = pos;
    proof {
        assert(values_view(vals@) =~= Seq::<crate::low_level::AttributeV>::empty());
    }
    while p < n && s.get_char(p) == ' '
        invariant
            pos <= p <= n,
            spec_parse_values(s@, pos as int).0 == values_view(vals@) + spec_parse_values(
                s@,
                p as int,
            ).0,
            spec_parse_values(s@, pos as int).1 == spec_parse_values(s@, p as int).1,
        decreases n - p,
    {
        let (a, p2) = parse_attribute(s, n, p + 1);
        let ghost old_vals = vals@;
        vals.push(a);
        proof {
            assert(values_view(vals@) =~= values_view(old_vals) + seq![a@]);
            let (sa, sp2) = spec_parse_attribute(s@, p + 1);
            let (rest, p3) = spec_parse_values(s@, sp2);
            assert(spec_parse_values(s@, p as int).0 == seq![sa] + rest);
            assert(values_view(old_vals) + (seq![sa] + rest) =~= values_view(vals@) + rest);
        }
        p = p2;
    }
    proof {
        assert(spec_parse_values(s@, p as int).0 =~= Seq::<crate::low_level::AttributeV>::empty());
        assert(values_view(vals@) + Seq::<crate::low_level::AttributeV>::empty() =~= values_view(
            vals@,
        ));
    }
    (vals, p)
}

/// Parses a line: indentation, a name, the value list.
pub(crate) fn parse_line(s: &str, n: usize, pos: usize, indent: usize) -> (r: Option<
    (Line, usize),
>)
    requires
        n == s@.len(),
        pos <= n,
    ensures
        match r {
            Some((l, p)) => spec_parse_line(s@, pos as int, indent as nat) == Some(
                (l@, p as int),
            ) && pos < p <= n,
            None => spec_parse_line(s@, pos as int, indent as nat) is None,
        },
{
    proof {
        lemma_parse_line_bounds(s@, pos as int, indent as nat);
    }
    let p0 = match check_indent(s, n, pos, indent) {
        Some(p0) => p0,
        None => {
            return None;
        },
    };
    let e = scan(s, n, p0, CharClass::Name);
    if e == p0 {
        return None;
    }
    let nm = s.substring_char(p0, e).to_owned();
    let (vals, p2) = parse_values(s, n, e);
    Some((Line { attribute: AttributeName::new(nm), values: vals }, p2))
}

/// Parses an anonymous parameter: indentation, then a non-empty payload run.
pub(crate) fn parse_anon(s: &str, n: usize, pos: usize, indent: usize) -> (r: Option<
    (AnonymousParameter, usize),
>)
    requires
        n == s@.len(),
        pos <= n,
    ensures
        match r {
            Some((a, p)) => spec_parse_anon(s@, pos as int, indent as nat) == Some(
                (a.0@, p as int),
            ) && pos < p <= n,
            None => spec_parse_anon(s@, pos as int, indent as nat) is None,
        },
{
    let p0 = match check_indent(s, n, pos, indent) {
        Some(p0) => p0,
        None => {
            return None;
        },
    };
    let e = scan(s, n, p0, CharClass::Anon);
    if e == p0 {
        return None;
    }
    let text = s.substring_char(p0, e).to_owned();
    Some((AnonymousParameter(text), e))
}

/// Parses an object: indentation, `<`, the header line, a newline, the
/// children one depth further in, indentation, `>`.
#[verifier::loop_isolation(false)]
pub(crate) fn parse_object(s: &str, n: usize, pos: usize, indent: usize) -> (r: Option<
    (Object, usize),
>)
    requires
        n == s@.len(),
        pos <= n,
    ensures
        match r {
            Some((o, p)) => spec_parse_object(s@, pos as int, indent as nat) == Some(
                (o@, p as int),
            ) && pos < p <= n,
            None => spec_parse_object(s@, pos as int, indent as nat) is None,
        },
    decreases n - pos, 0int,
{
    let p0 = match check_indent(s, n, pos, indent) {
        Some(p0) => p0,
        None => {
            return None;
        },
    };
    if !(p0 < n && s.get_char(p0) == '<') {
        return None;
    }
    let (hdr, p1) = match parse_line(s, n, p0 + 1, 0) {
        Some(t) => t,
        None => {
            return None;
        },
    };
    let p2 = match parse_newline(s, n, p1) {
        Some(p2) => p2,
        None => {
            return None;
        },
    };
    let ghost ind1 = (indent + 1) as nat;
    let mut children: Vec<Entry> = Vec::new();
    let mut p = p2;
    let mut done = false;
    proof {
        assert(entries_view(children@) =~= Seq::<crate::low_level::EntryV>::empty());
    }
    while !done
        invariant
            p2 <= p <= n,
            spec_parse_entries(s@, p2 as int, ind1).0 == entries_view(children@)
                + spec_parse_entries(s@, p as int, ind1).0,
            spec_parse_entries(s@, p2 as int, ind1).1 == spec_parse_entries(s@, p as int, ind1).1,
            done ==> spec_parse_entry(s@, p as int, ind1) is None,
        decreases 2 * (n - p) + (if done { 0int } else { 1int }),
    {
        // the indentation check above bounded the depth, so one more
        // level still fits in the machine word
        assert(2 * (indent as int) <= n);
        match parse_entry(s, n, p, indent + 1) {
            Some((e, pe)) => {
                let ghost old_children = children@;
                children.push(e);
                proof {
                    assert(entries_view(children@) =~= entries_view(old_children) + seq![e@])
                        by {
                        crate::low_level::lemma_entries_view(children@);
                        crate::low_level::lemma_entries_view(old_children);
                        assert(forall|k: int|
                            0 <= k < old_children.len() ==> children@[k] == old_children[k]);
                    }
                    let (se, spe) = match spec_parse_entry(s@, p as int, ind1) {
                        Some(t) => t,
                        None => arbitrary(),
                    };
                    let (rest, p3) = spec_parse_entries(s@, spe, ind1);
                    assert(spec_parse_entries(s@, p as int, ind1).0 == seq![se] + rest);
                    assert(entries_view(old_children) + (seq![se] + rest) =~= entries_view(
                        children@,
                    ) + rest);
                }
                p = pe;
            },
            None => {
                done = true;
            },
        }
    }
    proof {
        assert(spec_parse_entries(s@, p as int, ind1).0 =~= Seq::<
            crate::low_level::EntryV,
        >::empty());
        assert(entries_view(children@) + Seq::<crate::low_level::EntryV>::empty() =~= entries_view(
            children@,
        ));
        assert(spec_parse_entries(s@, p2 as int, ind1) == (entries_view(children@), p as int));
    }
    let p4 = match check_indent(s, n, p, indent) {
        Some(p4) => p4,
        None => {
            return None;
        },
    };
    if p4 < n && s.get_char(p4) == '>' {
        Some((Object { header: hdr, values: children }, p4 + 1))
    } else {
        None
    }
}

/// Parses one entry: an object, a line, or an anonymous parameter, in that
/// order, each with its trailing newline.
pub(crate) fn parse_entry(s: &str, n: usize, pos: usize, indent: usize) -> (r: Option<
    (Entry, usize),
>)
    requires
        n == s@.len(),
        pos <= n,
    ensures
        match r {
            Some((e, p)) => spec_parse_entry(s@, pos as int, indent as nat) == Some(
                (e@, p as int),
            ) && pos < p <= n,
            None => spec_parse_entry(s@, pos as int, indent as nat) is None,
        },
    decreases n - pos, 1int,
{
    match parse_object(s, n, pos, indent) {
        Some((o, p)) => {
            match parse_newline(s, n, p) {
                Some(p2) => {
                    return Some((Entry::Object(o), p2));
                },
                None => {},
            }
        },
        None => {},
    }
    match parse_line(s, n, pos, indent) {
        Some((l, p)) => {
            match parse_newline(s, n, p) {
                Some(p2) => {
                    return Some((Entry::Line(l), p2));
                },
                None => {},
            }
        },
        None => {},
    }
    match parse_anon(s, n, pos, indent) {
        Some((a, p)) => {
            match parse_newline(s, n, p) {
                Some(p2) => {
                    return Some((Entry::AnonymousParameter(a), p2));
                },
                None => {},
            }
        },
        None => {},
    }
    None
}


/// Parses a unique id: `{`, hex digits and hyphens, `}`.
pub(crate) fn parse_uid(s: &str, n: usize, pos: usize) -> (r: Option<(ReaperUid, usize)>)
    requires
        n == s@.len(),
        pos <= n,
    ensures
        match r {
            Some((u, p)) => spec_parse_uid(s@, pos as int) == Some((u@, p as int)) && pos < p
                <= n,
            None => spec_parse_uid(s@, pos as int) is None,
        },
{
    if pos < n && s.get_char(pos) == '{' {
        let e = scan(s, n, pos + 1, CharClass::Uid);
        if e < n && s.get_char(e) == '}' {
            let digits = s.substring_char(pos + 1, e).to_owned();
            return Some((ReaperUid(digits), e + 1));
        }
    }
    None
}

/// Parses a quoted string scalar: double quotes, then single quotes.
pub(crate) fn parse_reaper_string(s: &str, n: usize, pos: usize) -> (r: Option<
    (ReaperString, usize),
>)
    requires
        n == s@.len(),
        pos <= n,
    ensures
        match r {
            Some((t, p)) => spec_parse_reaper_string(s@, pos as int) == Some((t@, p as int))
                && pos < p <= n,
            None => spec_parse_reaper_string(s@, pos as int) is None,
        },
{
    if pos < n && s.get_char(pos) == '"' {
        let e = scan(s, n, pos + 1, CharClass::NotChar('"'));
        if e < n {
            let text = s.substring_char(pos + 1, e).to_owned();
            return Some((ReaperString::DoubleQuote(text), e + 1));
        }
        return None;
    }
    if pos < n && s.get_char(pos) == '\'' {
        let e = scan(s, n, pos + 1, CharClass::NotChar('\''));
        if e < n {
            let text = s.substring_char(pos + 1, e).to_owned();
            return Some((ReaperString::SingleQuote(text), e + 1));
        }
    }
    None
}

/// Parses an attribute name: a non-empty run of name characters.
pub(crate) fn parse_name(s: &str, n: usize, pos: usize) -> (r: Option<(AttributeName, usize)>)
    requires
        n == s@.len(),
        pos <= n,
    ensures
        match r {
            Some((a, p)) => crate::low_level::grammar::spec_parse_name(s@, pos as int) == Some(
                (a@, p as int),
            ) && pos < p <= n,
            None => crate::low_level::grammar::spec_parse_name(s@, pos as int) is None,
        },
{
    let e = scan(s, n, pos, CharClass::Name);
    if e == pos {
        return None;
    }
    let nm = s.substring_char(pos, e).to_owned();
    Some((AttributeName::new(nm), e))
}

} // verus!
