//! The lossless document tree: scalar values, lines, anonymous parameters and
//! nested objects, together with the recursive-descent parser and the
//! serializer that are each other's counterparts.

use vstd::prelude::*;

pub mod chars;
pub mod error;
pub mod grammar;
pub mod float;
pub mod numbers;
pub mod parse;

verus! {

/// A spec-level mirror of [`ReaperString`]: the payload together with the
/// quoting style that must be reproduced on re-serialization.
pub enum ReaperStringV {
    SingleQuote(Seq<char>),
    DoubleQuote(Seq<char>),
    Unquoted(Seq<char>),
}

/// A spec-level mirror of [`Attribute`].  A float appears as its token text.
pub enum AttributeV {
    Uid(Seq<char>),
    Int(int),
    Str(ReaperStringV),
    Float(Seq<char>),
    UNumber(int),
}

/// A spec-level mirror of [`Line`].
#[verifier::ext_equal]
pub struct LineV {
    pub name: Seq<char>,
    pub values: Seq<AttributeV>,
}

/// A spec-level mirror of [`Entry`].
pub enum EntryV {
    Object(ObjectV),
    Line(LineV),
    AnonymousParameter(Seq<char>),
}

/// A spec-level mirror of [`Object`].
#[verifier::ext_equal]
pub struct ObjectV {
    pub header: LineV,
    pub children: Seq<EntryV>,
}

/// A unique id token: the run of hex digits and hyphens between `{` and `}`.
#[derive(Debug, PartialEq, Eq)]
pub struct ReaperUid(pub String);

/// A signed 64-bit integer scalar, written in decimal.
#[derive(Debug, PartialEq, Eq)]
pub struct Int(pub i64);

/// A 64-bit float scalar, held as the token text it was parsed from, which
/// is also exactly what serialization writes back.  Comparing the text
/// compares floats by a total order without holding a float directly.
#[derive(Debug, PartialEq, Eq)]
pub struct ReaperFloat(pub String);

/// A string scalar; the variant remembers which quoting the source used.
#[derive(Debug, PartialEq, Eq)]
pub enum ReaperString {
    SingleQuote(String),
    DoubleQuote(String),
    Unquoted(String),
}

/// One scalar value of a line, in its closed set of variants.
#[derive(Debug, PartialEq, Eq)]
pub enum Attribute {
    ReaperUid(ReaperUid),
    Int(Int),
    String(ReaperString),
    Float(ReaperFloat),
    UNumber(Int),
}

/// An opaque token line with no attribute name, e.g. a base64 payload chunk.
#[derive(Debug, PartialEq, Eq)]
pub struct AnonymousParameter(pub String);

/// The tag of a line or of an object header: uppercase letters, digits and
/// underscores.
#[derive(Debug, PartialEq, Eq)]
pub struct AttributeName(String);

impl AttributeName {
    pub fn new(name: String) -> (r: AttributeName)
        ensures
            r@ == name@,
    {
        AttributeName(name)
    }

    pub fn as_ref(&self) -> (r: &String)
        ensures
            r@ == self@,
    {
        &self.0
    }
}

impl View for AttributeName {
    type V = Seq<char>;

    closed spec fn view(&self) -> Seq<char> {
        self.0@
    }
}

/// A named statement: an attribute name plus its ordered scalar values.
#[derive(Debug, PartialEq, Eq)]
pub struct Line {
    pub attribute: AttributeName,
    pub values: Vec<Attribute>,
}

/// A nested block: a header line plus ordered child entries.
pub struct Object {
    pub header: Line,
    pub values: Vec<Entry>,
}

/// Anything that may appear in an object's body.
pub enum Entry {
    Object(Object),
    Line(Line),
    AnonymousParameter(AnonymousParameter),
}

impl View for ReaperString {
    type V = ReaperStringV;

    open spec fn view(&self) -> ReaperStringV {
        match self {
            ReaperString::SingleQuote(s) => ReaperStringV::SingleQuote(s@),
            ReaperString::DoubleQuote(s) => ReaperStringV::DoubleQuote(s@),
            ReaperString::Unquoted(s) => ReaperStringV::Unquoted(s@),
        }
    }
}

impl View for Attribute {
    type V = AttributeV;

    open spec fn view(&self) -> AttributeV {
        match self {
            Attribute::ReaperUid(u) => AttributeV::Uid(u.0@),
            Attribute::Int(i) => AttributeV::Int(i.0 as int),
            Attribute::String(s) => AttributeV::Str(s@),
            Attribute::Float(f) => AttributeV::Float(f.0@),
            Attribute::UNumber(i) => AttributeV::UNumber(i.0 as int),
        }
    }
}

impl View for Line {
    type V = LineV;

    open spec fn view(&self) -> LineV {
        LineV {
            name: self.attribute@,
            values: Seq::new(self.values@.len(), |i: int| self.values@[i]@),
        }
    }
}

/// The view of an object, defined by mutual recursion with [`entry_view`].
pub open spec fn object_view(o: Object) -> ObjectV
    decreases o,
    via object_view_decreases
{
    ObjectV { header: o.header@, children: entries_view(o.values@) }
}

#[via_fn]
proof fn object_view_decreases(o: Object) {
    assert(decreases_to!(o => o.values));
    assert(decreases_to!(o.values => o.values@));
}

/// The views of a sequence of entries, element by element.
pub open spec fn entries_view(vs: Seq<Entry>) -> Seq<EntryV>
    decreases vs,
{
    if vs.len() == 0 {
        Seq::empty()
    } else {
        seq![entry_view(vs[0])] + entries_view(vs.subrange(1, vs.len() as int))
    }
}

/// The view of an entry, defined by mutual recursion with [`object_view`].
pub open spec fn entry_view(e: Entry) -> EntryV
    decreases e,
{
    match e {
        Entry::Object(o) => EntryV::Object(object_view(o)),
        Entry::Line(l) => EntryV::Line(l@),
        Entry::AnonymousParameter(a) => EntryV::AnonymousParameter(a.0@),
    }
}

/// `entries_view` maps the view over the elements, index by index.
pub proof fn lemma_entries_view(vs: Seq<Entry>)
    ensures
        entries_view(vs).len() == vs.len(),
        forall|i: int| 0 <= i < vs.len() ==> entries_view(vs)[i] == entry_view(vs[i]),
    decreases vs,
{
    if vs.len() > 0 {
        lemma_entries_view(vs.subrange(1, vs.len() as int));
        assert forall|i: int| 0 <= i < vs.len() implies entries_view(vs)[i] == entry_view(
            vs[i],
        ) by {
            if i > 0 {
                assert(vs.subrange(1, vs.len() as int)[i - 1] == vs[i]);
            }
        }
    }
}

impl View for Object {
    type V = ObjectV;

    open spec fn view(&self) -> ObjectV {
        object_view(*self)
    }
}

impl View for Entry {
    type V = EntryV;

    open spec fn view(&self) -> EntryV {
        entry_view(*self)
    }
}

/// The sequence of spaces that introduces a nesting depth: two per level.
pub open spec fn indent_spaces(indent: nat) -> Seq<char> {
    Seq::new(2 * indent, |i: int| ' ')
}

/// Renders the indentation for the given nesting depth.
pub fn to_indent(indent: usize) -> (r: String)
    ensures
        r@ == indent_spaces(indent as nat),
{
    let mut out = String::new();
    let mut i: usize = 0;
    while i < indent
        invariant
            i <= indent,
            out@ == indent_spaces(i as nat),
        decreases indent - i,
    {
        out.append("  ");
        proof {
            reveal_strlit("  ");
            assert(out@ =~= indent_spaces((i + 1) as nat));
        }
        i = i + 1;
    }
    out
}

/// Appends the indentation for the given nesting depth to the output.
pub fn write_indent(out: &mut String, indent: usize)
    ensures
        final(out)@ == old(out)@ + indent_spaces(indent as nat),
{
    let spaces = to_indent(indent);
    out.append(spaces.as_str());
}


/// The views of a sequence of attributes, element by element.
pub open spec fn values_view(vs: Seq<Attribute>) -> Seq<AttributeV> {
    Seq::new(vs.len(), |i: int| vs[i]@)
}

/// Appends the rendering of one scalar.
fn serialize_attribute(a: &Attribute, out: &mut String)
    ensures
        final(out)@ == old(out)@ + grammar::render_attr(a@),
{
    match a {
        Attribute::ReaperUid(u) => {
            proof {
                reveal_strlit("{");
                reveal_strlit("}");
            }
            out.append("{");
            out.append(u.0.as_str());
            out.append("}");
            assert(out@ =~= old(out)@ + grammar::render_attr(a@));
        },
        Attribute::Int(i) => {
            numbers::append_int(i.0, out);
        },
        Attribute::String(st) => {
            match st {
                ReaperString::SingleQuote(t) => {
                    proof {
                        reveal_strlit("'");
                    }
                    out.append("'");
                    out.append(t.as_str());
                    out.append("'");
                },
                ReaperString::DoubleQuote(t) => {
                    proof {
                        reveal_strlit("\"");
                    }
                    out.append("\"");
                    out.append(t.as_str());
                    out.append("\"");
                },
                ReaperString::Unquoted(t) => {
                    out.append(t.as_str());
                },
            }
            assert(out@ =~= old(out)@ + grammar::render_attr(a@));
        },
        Attribute::Float(f) => {
            out.append(f.0.as_str());
        },
        Attribute::UNumber(i) => {
            proof {
                reveal_strlit(":U");
            }
            numbers::append_int(i.0, out);
            out.append(":U");
            assert(out@ =~= old(out)@ + grammar::render_attr(a@));
        },
    }
}

/// Appends the rendering of a line: the given indentation, the name, then
/// each value preceded by one space.
#[verifier::loop_isolation(false)]
fn serialize_line(l: &Line, out: &mut String, ind: &str, Ghost(indent): Ghost<nat>)
    requires
        ind@ == indent_spaces(indent),
    ensures
        final(out)@ == old(out)@ + grammar::render_line(l@, indent),
{
    out.append(ind);
    out.append(l.attribute.as_ref().as_str());
    let ghost vs = l@.values;
    let mut i: usize = 0;
    while i < l.values.len()
        invariant
            i <= l.values.len(),
            vs == values_view(l.values@),
            out@ == old(out)@ + indent_spaces(indent) + l@.name + grammar::render_values(
                vs.subrange(0, i as int),
            ),
        decreases l.values.len() - i,
    {
        proof {
            reveal_strlit(" ");
        }
        out.append(" ");
        serialize_attribute(&l.values[i], out);
        proof {
            let pre = vs.subrange(0, i as int);
            let post = vs.subrange(0, i + 1);
            assert(post.drop_last() =~= pre);
            assert(post.last() == l.values@[i as int]@);
            assert(grammar::render_values(post) == grammar::render_values(pre) + seq![' ']
                + grammar::render_attr(l.values@[i as int]@));
            assert(out@ =~= old(out)@ + indent_spaces(indent) + l@.name
                + grammar::render_values(post));
        }
        i = i + 1;
    }
    proof {
        assert(vs.subrange(0, vs.len() as int) =~= vs);
        assert(out@ =~= old(out)@ + grammar::render_line(l@, indent));
    }
}

/// Appends the rendering of an entry at the given depth.
fn serialize_entry(e: &Entry, out: &mut String, ind: &str, Ghost(indent): Ghost<nat>)
    requires
        ind@ == indent_spaces(indent),
    ensures
        final(out)@ == old(out)@ + grammar::render_entry(e@, indent),
    decreases *e,
{
    match e {
        Entry::Object(o) => {
            proof {
                assert(decreases_to!(*e => *o));
            }
            serialize_object(o, out, ind, Ghost(indent));
        },
        Entry::Line(l) => {
            serialize_line(l, out, ind, Ghost(indent));
        },
        Entry::AnonymousParameter(a) => {
            out.append(ind);
            out.append(a.0.as_str());
            assert(out@ =~= old(out)@ + grammar::render_entry(e@, indent));
        },
    }
}

/// Appends the rendering of an object at the given depth.
#[verifier::loop_isolation(false)]
fn serialize_object(o: &Object, out: &mut String, ind: &str, Ghost(indent): Ghost<nat>)
    requires
        ind@ == indent_spaces(indent),
    ensures
        final(out)@ == old(out)@ + grammar::render_object_v(o@, indent),
    decreases *o,
{
    proof {
        reveal_strlit("<");
        reveal_strlit(">");
        reveal_strlit("\r\n");
        reveal_strlit("  ");
        lemma_entries_view(o.values@);
    }
    let mut deeper = ind.to_owned();
    deeper.append("  ");
    proof {
        assert(deeper@ =~= indent_spaces(indent + 1));
    }
    out.append(ind);
    out.append("<");
    proof {
        reveal_strlit("");
        assert(""@ =~= indent_spaces(0nat));
    }
    serialize_line(&o.header, out, "", Ghost(0nat));
    out.append("\r\n");
    let ghost cs = o@.children;
    let mut i: usize = 0;
    while i < o.values.len()
        invariant
            i <= o.values.len(),
            cs == entries_view(o.values@),
            cs.len() == o.values.len(),
            deeper@ == indent_spaces(indent + 1),
            forall|k: int| 0 <= k < o.values.len() ==> cs[k] == entry_view(o.values@[k]),
            out@ == old(out)@ + indent_spaces(indent) + seq!['<'] + grammar::render_line(
                o@.header,
                0,
            ) + grammar::crlf() + grammar::render_children(
                cs.subrange(0, i as int),
                indent + 1,
            ),
        decreases o.values.len() - i,
    {
        proof {
            assert(decreases_to!(*o => o.values));
            assert(decreases_to!(o.values => o.values@));
        }
        serialize_entry(&o.values[i], out, deeper.as_str(), Ghost(indent + 1));
        out.append("\r\n");
        proof {
            let pre = cs.subrange(0, i as int);
            let post = cs.subrange(0, i + 1);
            assert(post.drop_last() =~= pre);
            assert(post.last() == cs[i as int]);
            assert(grammar::render_children(post, indent + 1) == grammar::render_children(
                pre,
                indent + 1,
            ) + grammar::render_entry(cs[i as int], indent + 1) + grammar::crlf());
            assert(out@ =~= old(out)@ + indent_spaces(indent) + seq!['<'] + grammar::render_line(
                o@.header,
                0,
            ) + grammar::crlf() + grammar::render_children(post, indent + 1));
        }
        i = i + 1;
    }
    out.append(ind);
    out.append(">");
    proof {
        assert(cs.subrange(0, cs.len() as int) =~= cs);
        assert(out@ =~= old(out)@ + grammar::render_object_v(o@, indent));
    }
}


impl View for ReaperUid {
    type V = Seq<char>;

    open spec fn view(&self) -> Seq<char> {
        self.0@
    }
}

impl View for Int {
    type V = int;

    open spec fn view(&self) -> int {
        self.0 as int
    }
}

impl View for ReaperFloat {
    type V = Seq<char>;

    open spec fn view(&self) -> Seq<char> {
        self.0@
    }
}

impl View for AnonymousParameter {
    type V = Seq<char>;

    open spec fn view(&self) -> Seq<char> {
        self.0@
    }
}

/// String equality, stated over the views.
pub fn string_eq(a: &String, b: &String) -> (r: bool)
    ensures
        r == (a@ == b@),
{
    a.eq(b)
}

impl Clone for ReaperUid {
    fn clone(&self) -> (r: Self)
        ensures
            r@ == self@,
    {
        ReaperUid(self.0.clone())
    }
}

impl Clone for Int {
    fn clone(&self) -> (r: Self)
        ensures
            r@ == self@,
    {
        Int(self.0)
    }
}

impl Clone for ReaperFloat {
    fn clone(&self) -> (r: Self)
        ensures
            r@ == self@,
    {
        ReaperFloat(self.0.clone())
    }
}

impl Clone for ReaperString {
    fn clone(&self) -> (r: Self)
        ensures
            r@ == self@,
    {
        match self {
            ReaperString::SingleQuote(t) => ReaperString::SingleQuote(t.clone()),
            ReaperString::DoubleQuote(t) => ReaperString::DoubleQuote(t.clone()),
            ReaperString::Unquoted(t) => ReaperString::Unquoted(t.clone()),
        }
    }
}

impl Clone for Attribute {
    fn clone(&self) -> (r: Self)
        ensures
            r@ == self@,
    {
        match self {
            Attribute::ReaperUid(u) => Attribute::ReaperUid(u.clone()),
            Attribute::Int(i) => Attribute::Int(i.clone()),
            Attribute::String(st) => Attribute::String(st.clone()),
            Attribute::Float(f) => Attribute::Float(f.clone()),
            Attribute::UNumber(i) => Attribute::UNumber(i.clone()),
        }
    }
}

impl Clone for AnonymousParameter {
    fn clone(&self) -> (r: Self)
        ensures
            r@ == self@,
    {
        AnonymousParameter(self.0.clone())
    }
}

impl Clone for AttributeName {
    fn clone(&self) -> (r: Self)
        ensures
            r@ == self@,
    {
        AttributeName(self.0.clone())
    }
}

impl Clone for Line {
    fn clone(&self) -> (r: Self)
        ensures
            r@ == self@,
    {
        let mut values: Vec<Attribute> = Vec::new();
        let mut i: usize = 0;
        while i < self.values.len()
            invariant
                i <= self.values.len(),
                values@.len() == i,
                forall|k: int| 0 <= k < i ==> values@[k]@ == self.values@[k]@,
            decreases self.values.len() - i,
        {
            values.push(self.values[i].clone());
            i = i + 1;
        }
        let r = Line { attribute: self.attribute.clone(), values };
        proof {
            assert(r@.values =~= self@.values);
        }
        r
    }
}

/// A deep copy of an object, proved view-preserving.
fn clone_object(o: &Object) -> (r: Object)
    ensures
        r@ == o@,
    decreases *o,
{
    proof {
        lemma_entries_view(o.values@);
    }
    let mut values: Vec<Entry> = Vec::new();
    let mut i: usize = 0;
    while i < o.values.len()
        invariant
            i <= o.values.len(),
            values@.len() == i,
            forall|k: int| 0 <= k < i ==> values@[k]@ == o.values@[k]@,
        decreases o.values.len() - i,
    {
        proof {
            assert(decreases_to!(*o => o.values));
            assert(decreases_to!(o.values => o.values@));
        }
        values.push(clone_entry(&o.values[i]));
        i = i + 1;
    }
    let r = Object { header: o.header.clone(), values };
    proof {
        lemma_entries_view(r.values@);
        assert(r@.children =~= o@.children);
    }
    r
}

/// A deep copy of an entry, proved view-preserving.
fn clone_entry(e: &Entry) -> (r: Entry)
    ensures
        r@ == e@,
    decreases *e,
{
    match e {
        Entry::Object(o) => {
            proof {
                assert(decreases_to!(*e => *o));
            }
            Entry::Object(clone_object(o))
        },
        Entry::Line(l) => Entry::Line(l.clone()),
        Entry::AnonymousParameter(a) => Entry::AnonymousParameter(a.clone()),
    }
}

impl Clone for Object {
    fn clone(&self) -> (r: Self)
        ensures
            r@ == self@,
    {
        clone_object(self)
    }
}

impl Clone for Entry {
    fn clone(&self) -> (r: Self)
        ensures
            r@ == self@,
    {
        clone_entry(self)
    }
}


/// The uniform surface of every tree node: it renders at a depth, and it
/// parses from the front of an input at a depth, each against the grammar.
pub trait SerializeAndDeserialize: View + Sized {
    /// The text this value renders to at the given depth.
    spec fn rendered(&self, indent: nat) -> Seq<char>;

    /// What the grammar reads from the front of `s` at the given depth.
    spec fn parsed(s: Seq<char>, indent: nat) -> Option<(Self::V, int)>;

    /// Appends the rendering of `self` to the output.
    fn serialize(&self, out: &mut String, indent: usize)
        ensures
            final(out)@ == old(out)@ + self.rendered(indent as nat),
    ;

    /// Reads one value from the front of the input, returning it with the
    /// count of characters consumed.
    fn deserialize(input: &str, indent: usize) -> (r: Option<(Self, usize)>)
        ensures
            match r {
                Some((v, p)) => Self::parsed(input@, indent as nat) == Some((v@, p as int)) && p
                    <= input@.len(),
                None => Self::parsed(input@, indent as nat) is None,
            },
    ;

    /// Renders `self` at depth zero into a fresh string.
    fn serialize_inline(&self) -> (r: String)
        ensures
            r@ == self.rendered(0),
    {
        let mut out = String::new();
        self.serialize(&mut out, 0);
        out
    }
}

impl SerializeAndDeserialize for ReaperUid {
    open spec fn rendered(&self, indent: nat) -> Seq<char> {
        seq!['{'] + self@ + seq!['}']
    }

    open spec fn parsed(s: Seq<char>, indent: nat) -> Option<(Seq<char>, int)> {
        grammar::spec_parse_uid(s, 0)
    }

    fn serialize(&self, out: &mut String, indent: usize) {
        proof {
            reveal_strlit("{");
            reveal_strlit("}");
        }
        out.append("{");
        out.append(self.0.as_str());
        out.append("}");
        assert(out@ =~= old(out)@ + self.rendered(indent as nat));
    }

    fn deserialize(input: &str, indent: usize) -> (r: Option<(Self, usize)>) {
        let n = input.unicode_len();
        parse::parse_uid(input, n, 0)
    }
}

impl SerializeAndDeserialize for ReaperString {
    open spec fn rendered(&self, indent: nat) -> Seq<char> {
        grammar::render_string_v(self@)
    }

    open spec fn parsed(s: Seq<char>, indent: nat) -> Option<(ReaperStringV, int)> {
        grammar::spec_parse_reaper_string(s, 0)
    }

    fn serialize(&self, out: &mut String, indent: usize) {
        match self {
            ReaperString::SingleQuote(t) => {
                proof {
                    reveal_strlit("'");
                }
                out.append("'");
                out.append(t.as_str());
                out.append("'");
            },
            ReaperString::DoubleQuote(t) => {
                proof {
                    reveal_strlit("\"");
                }
                out.append("\"");
                out.append(t.as_str());
                out.append("\"");
            },
            ReaperString::Unquoted(t) => {
                out.append(t.as_str());
            },
        }
        assert(out@ =~= old(out)@ + self.rendered(indent as nat));
    }

    fn deserialize(input: &str, indent: usize) -> (r: Option<(Self, usize)>) {
        let n = input.unicode_len();
        parse::parse_reaper_string(input, n, 0)
    }
}

impl SerializeAndDeserialize for AnonymousParameter {
    open spec fn rendered(&self, indent: nat) -> Seq<char> {
        indent_spaces(indent) + self@
    }

    open spec fn parsed(s: Seq<char>, indent: nat) -> Option<(Seq<char>, int)> {
        match grammar::spec_parse_anon(s, 0, indent) {
            Some((t, p)) => Some((t, p)),
            None => None,
        }
    }

    fn serialize(&self, out: &mut String, indent: usize) {
        write_indent(out, indent);
        out.append(self.0.as_str());
        assert(out@ =~= old(out)@ + self.rendered(indent as nat));
    }

    fn deserialize(input: &str, indent: usize) -> (r: Option<(Self, usize)>) {
        let n = input.unicode_len();
        match parse::parse_anon(input, n, 0, indent) {
            Some((a, p)) => Some((a, p)),
            None => None,
        }
    }
}

impl SerializeAndDeserialize for AttributeName {
    open spec fn rendered(&self, indent: nat) -> Seq<char> {
        self@
    }

    open spec fn parsed(s: Seq<char>, indent: nat) -> Option<(Seq<char>, int)> {
        grammar::spec_parse_name(s, 0)
    }

    fn serialize(&self, out: &mut String, indent: usize) {
        out.append(self.0.as_str());
    }

    fn deserialize(input: &str, indent: usize) -> (r: Option<(Self, usize)>) {
        let n = input.unicode_len();
        parse::parse_name(input, n, 0)
    }
}

impl SerializeAndDeserialize for Attribute {
    open spec fn rendered(&self, indent: nat) -> Seq<char> {
        grammar::render_attr(self@)
    }

    open spec fn parsed(s: Seq<char>, indent: nat) -> Option<(AttributeV, int)> {
        Some(grammar::spec_parse_attribute(s, 0))
    }

    fn serialize(&self, out: &mut String, indent: usize) {
        serialize_attribute(self, out);
    }

    fn deserialize(input: &str, indent: usize) -> (r: Option<(Self, usize)>) {
        let n = input.unicode_len();
        let (a, p) = parse::parse_attribute(input, n, 0);
        Some((a, p))
    }
}

impl SerializeAndDeserialize for Line {
    open spec fn rendered(&self, indent: nat) -> Seq<char> {
        grammar::render_line(self@, indent)
    }

    open spec fn parsed(s: Seq<char>, indent: nat) -> Option<(LineV, int)> {
        grammar::spec_parse_line(s, 0, indent)
    }

    fn serialize(&self, out: &mut String, indent: usize) {
        let ind = to_indent(indent);
        serialize_line(self, out, ind.as_str(), Ghost(indent as nat));
    }

    fn deserialize(input: &str, indent: usize) -> (r: Option<(Self, usize)>) {
        let n = input.unicode_len();
        parse::parse_line(input, n, 0, indent)
    }
}

impl SerializeAndDeserialize for Object {
    open spec fn rendered(&self, indent: nat) -> Seq<char> {
        grammar::render_object_v(self@, indent)
    }

    open spec fn parsed(s: Seq<char>, indent: nat) -> Option<(ObjectV, int)> {
        grammar::spec_parse_object(s, 0, indent)
    }

    fn serialize(&self, out: &mut String, indent: usize) {
        let ind = to_indent(indent);
        serialize_object(self, out, ind.as_str(), Ghost(indent as nat));
    }

    fn deserialize(input: &str, indent: usize) -> (r: Option<(Self, usize)>) {
        let n = input.unicode_len();
        parse::parse_object(input, n, 0, indent)
    }
}

impl SerializeAndDeserialize for Entry {
    open spec fn rendered(&self, indent: nat) -> Seq<char> {
        grammar::render_entry(self@, indent)
    }

    open spec fn parsed(s: Seq<char>, indent: nat) -> Option<(EntryV, int)> {
        grammar::spec_parse_entry(s, 0, indent)
    }

    fn serialize(&self, out: &mut String, indent: usize) {
        let ind = to_indent(indent);
        serialize_entry(self, out, ind.as_str(), Ghost(indent as nat));
    }

    fn deserialize(input: &str, indent: usize) -> (r: Option<(Self, usize)>) {
        let n = input.unicode_len();
        parse::parse_entry(input, n, 0, indent)
    }
}

/// Renders a whole document: the object at depth zero, then the final line
/// terminator.  Rendering into a string cannot fail.
pub fn to_string(save_file: Object) -> (r: Result<String, error::Error>)
    ensures
        (match r {
            Ok(s) => s@ == grammar::render_object_v(save_file@, 0) + grammar::crlf(),
            Err(_) => false,
        }),
{
    let mut out = String::new();
    proof {
        reveal_strlit("");
        reveal_strlit("\r\n");
        assert(""@ =~= indent_spaces(0nat));
    }
    serialize_object(&save_file, &mut out, "", Ghost(0nat));
    out.append("\r\n");
    assert(out@ =~= grammar::render_object_v(save_file@, 0) + grammar::crlf());
    Ok(out)
}

/// Reads a whole document: an object at depth zero.  Succeeds exactly when
/// the grammar accepts an object at the start of the input; what follows the
/// closing `>` is left unread.
pub fn from_str(input: &str) -> (r: Result<Object, error::Error>)
    ensures
        (match r {
            Ok(o) => grammar::spec_parse_object(input@, 0, 0) matches Some(t) && t.0 == o@,
            Err(e) => grammar::spec_parse_object(input@, 0, 0) is None && (e matches
                error::Error::ParseError { .. }),
        }),
{
    let n = input.unicode_len();
    match parse::parse_object(input, n, 0, 0) {
        Some((o, _)) => Ok(o),
        None => {
            let report = String::from_str("no parse alternative matched an object here");
            Err(error::Error::ParseError { report })
        },
    }
}


/// The index of the first line child with the given name, at or after `i`.
pub open spec fn find_line_from(cs: Seq<EntryV>, name: Seq<char>, i: int) -> Option<int>
    decreases cs.len() - i,
{
    if 0 <= i < cs.len() {
        if cs[i] matches EntryV::Line(l) && l.name == name {
            Some(i)
        } else {
            find_line_from(cs, name, i + 1)
        }
    } else {
        None
    }
}

/// The index of the first object child with the given header name, at or
/// after `i`.
pub open spec fn find_object_from(cs: Seq<EntryV>, name: Seq<char>, i: int) -> Option<int>
    decreases cs.len() - i,
{
    if 0 <= i < cs.len() {
        if cs[i] matches EntryV::Object(o) && o.header.name == name {
            Some(i)
        } else {
            find_object_from(cs, name, i + 1)
        }
    } else {
        None
    }
}

/// What a found index points at is in range and of the right shape.
pub proof fn lemma_find_line_from(cs: Seq<EntryV>, name: Seq<char>, i: int)
    requires
        0 <= i,
    ensures
        match find_line_from(cs, name, i) {
            Some(j) => i <= j < cs.len() && (cs[j] matches EntryV::Line(l) && l.name == name),
            None => true,
        },
    decreases cs.len() - i,
{
    if 0 <= i < cs.len() {
        if !(cs[i] matches EntryV::Line(l) && l.name == name) {
            lemma_find_line_from(cs, name, i + 1);
        }
    }
}

/// What a found index points at is in range and of the right shape.
pub proof fn lemma_find_object_from(cs: Seq<EntryV>, name: Seq<char>, i: int)
    requires
        0 <= i,
    ensures
        match find_object_from(cs, name, i) {
            Some(j) => i <= j < cs.len() && (cs[j] matches EntryV::Object(o) && o.header.name
                == name),
            None => true,
        },
    decreases cs.len() - i,
{
    if 0 <= i < cs.len() {
        if !(cs[i] matches EntryV::Object(o) && o.header.name == name) {
            lemma_find_object_from(cs, name, i + 1);
        }
    }
}

/// The scalar kinds an [`Attribute`] can take, used to report mismatches.
#[derive(Debug, Clone, Copy, PartialEq, Eq, Structural)]
pub enum AttributeKind {
    ReaperUid,
    Int,
    String,
    Float,
    UNumber,
}

/// The kind of a scalar, at the spec level.
pub open spec fn kind_of(a: AttributeV) -> AttributeKind {
    match a {
        AttributeV::Uid(_) => AttributeKind::ReaperUid,
        AttributeV::Int(_) => AttributeKind::Int,
        AttributeV::Str(_) => AttributeKind::String,
        AttributeV::Float(_) => AttributeKind::Float,
        AttributeV::UNumber(_) => AttributeKind::UNumber,
    }
}

impl Attribute {
    /// The kind of this scalar.
    pub fn kind(&self) -> (r: AttributeKind)
        ensures
            r == kind_of(self@),
    {
        match self {
            Attribute::ReaperUid(_) => AttributeKind::ReaperUid,
            Attribute::Int(_) => AttributeKind::Int,
            Attribute::String(_) => AttributeKind::String,
            Attribute::Float(_) => AttributeKind::Float,
            Attribute::UNumber(_) => AttributeKind::UNumber,
        }
    }
}

impl Entry {
    /// This entry, if it is an object.
    pub fn as_object(&self) -> (r: Option<&Object>)
        ensures
            (match r {
                Some(o) => self@ == EntryV::Object(o@),
                None => !(self@ matches EntryV::Object(_)),
            }),
    {
        match self {
            Entry::Object(o) => Some(o),
            _ => None,
        }
    }

    /// This entry, if it is a line.
    pub fn as_line(&self) -> (r: Option<&Line>)
        ensures
            (match r {
                Some(l) => self@ == EntryV::Line(l@),
                None => !(self@ matches EntryV::Line(_)),
            }),
    {
        match self {
            Entry::Line(l) => Some(l),
            _ => None,
        }
    }

    /// This entry, if it is an anonymous parameter.
    pub fn as_anonymous_parameter(&self) -> (r: Option<&AnonymousParameter>)
        ensures
            (match r {
                Some(a) => self@ == EntryV::AnonymousParameter(a@),
                None => !(self@ matches EntryV::AnonymousParameter(_)),
            }),
    {
        match self {
            Entry::AnonymousParameter(a) => Some(a),
            _ => None,
        }
    }
}

impl Object {
    /// The first child object with the given header name.
    #[verifier::loop_isolation(false)]
    pub fn child_object(&self, name: &str) -> (r: Option<&Object>)
        ensures
            (match r {
                Some(o) => find_object_from(self@.children, name@, 0) matches Some(j)
                    && self@.children[j] == EntryV::Object(o@),
                None => find_object_from(self@.children, name@, 0) is None,
            }),
    {
        let nm = name.to_owned();
        let ghost cs = self@.children;
        proof {
            lemma_entries_view(self.values@);
        }
        let mut i: usize = 0;
        while i < self.values.len()
            invariant
                0 <= i <= self.values.len(),
                find_object_from(cs, name@, 0) == find_object_from(cs, name@, i as int),
            decreases self.values.len() - i,
        {
            match &self.values[i] {
                Entry::Object(o) => {
                    if string_eq(o.header.attribute.as_ref(), &nm) {
                        return Some(o);
                    }
                },
                _ => {},
            }
            i = i + 1;
        }
        None
    }

    /// The values of the first line child with the given name.
    #[verifier::loop_isolation(false)]
    pub fn attributes(&self, param: &str) -> (r: Option<&Vec<Attribute>>)
        ensures
            (match r {
                Some(v) => find_line_from(self@.children, param@, 0) matches Some(j)
                    && self@.children[j] == EntryV::Line(
                    (LineV { name: param@, values: values_view(v@) }),
                ),
                None => find_line_from(self@.children, param@, 0) is None,
            }),
    {
        let nm = param.to_owned();
        let ghost cs = self@.children;
        proof {
            lemma_entries_view(self.values@);
        }
        let mut i: usize = 0;
        while i < self.values.len()
            invariant
                0 <= i <= self.values.len(),
                find_line_from(cs, param@, 0) == find_line_from(cs, param@, i as int),
            decreases self.values.len() - i,
        {
            match &self.values[i] {
                Entry::Line(l) => {
                    if string_eq(l.attribute.as_ref(), &nm) {
                        return Some(&l.values);
                    }
                },
                _ => {},
            }
            i = i + 1;
        }
        None
    }

    /// The single value of the named line: absent lines give `None`; a line
    /// with any other value count gives the count mismatch.
    pub fn single_attribute(&self, param: &str) -> (r: Option<
        Result<&Attribute, error::Error>,
    >)
        ensures
            (match find_line_from(self@.children, param@, 0) {
                Some(j) => {
                    &&& (self@.children[j] matches EntryV::Line(l) ==> {
                        if l.values.len() == 1 {
                            r matches Some(Ok(a)) && a@ == l.values[0]
                        } else {
                            r matches Some(Err(error::Error::BadParamCount { expected, found }))
                                && expected == 1 && found == l.values.len()
                        }
                    })
                },
                None => r is None,
            }),
    {
        proof {
            lemma_find_line_from(self@.children, param@, 0);
        }
        match self.attributes(param) {
            Some(vals) => {
                if vals.len() == 1 {
                    Some(Ok(&vals[0]))
                } else {
                    Some(Err(error::Error::BadParamCount { expected: 1, found: vals.len() }))
                }
            },
            None => None,
        }
    }
}


/// The single value of the named line, where that line exists and carries
/// exactly one value.
pub open spec fn single_value(cs: Seq<EntryV>, name: Seq<char>) -> Option<AttributeV> {
    match find_line_from(cs, name, 0) {
        Some(j) => match cs[j] {
            EntryV::Line(l) => if l.values.len() == 1 {
                Some(l.values[0])
            } else {
                None
            },
            _ => None,
        },
        None => None,
    }
}

impl Object {
    /// Finds the index of the first line child with the given name.
    #[verifier::loop_isolation(false)]
    pub(crate) fn find_line_index(&self, param: &String) -> (r: Option<usize>)
        ensures
            (match r {
                Some(i) => find_line_from(self@.children, param@, 0) == Some(i as int) && i
                    < self.values@.len(),
                None => find_line_from(self@.children, param@, 0) is None,
            }),
    {
        let ghost cs = self@.children;
        proof {
            lemma_entries_view(self.values@);
        }
        let mut i: usize = 0;
        while i < self.values.len()
            invariant
                0 <= i <= self.values.len(),
                find_line_from(cs, param@, 0) == find_line_from(cs, param@, i as int),
            decreases self.values.len() - i,
        {
            match &self.values[i] {
                Entry::Line(l) => {
                    if string_eq(l.attribute.as_ref(), param) {
                        return Some(i);
                    }
                },
                _ => {},
            }
            i = i + 1;
        }
        None
    }

    /// Finds the index of the first object child with the given header name.
    #[verifier::loop_isolation(false)]
    pub(crate) fn find_object_index(&self, name: &String) -> (r: Option<usize>)
        ensures
            (match r {
                Some(i) => find_object_from(self@.children, name@, 0) == Some(i as int) && i
                    < self.values@.len(),
                None => find_object_from(self@.children, name@, 0) is None,
            }),
    {
        let ghost cs = self@.children;
        proof {
            lemma_entries_view(self.values@);
        }
        let mut i: usize = 0;
        while i < self.values.len()
            invariant
                0 <= i <= self.values.len(),
                find_object_from(cs, name@, 0) == find_object_from(cs, name@, i as int),
            decreases self.values.len() - i,
        {
            match &self.values[i] {
                Entry::Object(o) => {
                    if string_eq(o.header.attribute.as_ref(), name) {
                        return Some(i);
                    }
                },
                _ => {},
            }
            i = i + 1;
        }
        None
    }

    /// Applies the mutation to the single value of the named line.  A
    /// missing line and a wrong value count report their errors and leave
    /// the object unchanged; mutation replaces exactly that one value.
    pub fn single_attribute_mut<F: FnOnce(Attribute) -> Attribute>(
        &mut self,
        param: &str,
        f: F,
    ) -> (r: Result<(), error::Error>)
        requires
            (match single_value(old(self)@.children, param@) {
                Some(av) => forall|a: Attribute| a@ == av ==> call_requires(f, (a,)),
                None => true,
            }),
        ensures
            (match find_line_from(old(self)@.children, param@, 0) {
                None => final(self)@ == old(self)@ && (r matches Err(
                    error::Error::ObjectNoSuchParam { param: p },
                ) && p@ == param@),
                Some(j) => (old(self)@.children[j] matches EntryV::Line(l) ==> {
                    if l.values.len() == 1 {
                        &&& r is Ok
                        &&& exists|a_in: Attribute, a_out: Attribute|
                            {
                                &&& a_in@ == l.values[0]
                                &&& #[trigger] call_ensures(f, (a_in,), a_out)
                                &&& final(self)@ == (ObjectV {
                                    header: old(self)@.header,
                                    children: old(self)@.children.update(
                                        j,
                                        EntryV::Line(
                                            (LineV { name: l.name, values: seq![a_out@] }),
                                        ),
                                    ),
                                })
                            }
                    } else {
                        &&& final(self)@ == old(self)@
                        &&& (r matches Err(error::Error::BadParamCount { expected, found })
                            && expected == 1 && found == l.values.len())
                    }
                }),
            }),
    {
        let ghost cs = old(self)@.children;
        proof {
            lemma_find_line_from(cs, param@, 0);
            lemma_entries_view(self.values@);
        }
        let nm = param.to_owned();
        let i = match self.find_line_index(&nm) {
            Some(i) => i,
            None => {
                return Err(error::Error::ObjectNoSuchParam { param: nm });
            },
        };
        let ghost j = i as int;
        let entry = self.values.remove(i);
        match entry {
            Entry::Line(mut l) => {
                if l.values.len() != 1 {
                    let found = l.values.len();
                    self.values.insert(i, Entry::Line(l));
                    proof {
                        assert(self.values@ =~= old(self).values@);
                        assert(self@ =~= old(self)@);
                    }
                    return Err(error::Error::BadParamCount { expected: 1, found });
                }
                let a = match l.values.pop() {
                    Some(a) => a,
                    None => unreached(),
                };
                assert(a@ == cs[j]->Line_0.values[0]);
                let a2 = f(a);
                l.values.push(a2);
                let ghost new_line = l@;
                self.values.insert(i, Entry::Line(l));
                proof {
                    lemma_entries_view(self.values@);
                    assert(new_line.values =~= seq![a2@]);
                    assert(entries_view(self.values@) =~= cs.update(j, EntryV::Line(new_line)));
                    assert(final(self)@ =~= (ObjectV {
                        header: old(self)@.header,
                        children: cs.update(
                            j,
                            EntryV::Line(
                                (LineV { name: cs[j]->Line_0.name, values: seq![a2@] }),
                            ),
                        ),
                    }));
                }
                Ok(())
            },
            _ => unreached(),
        }
    }

    /// Applies the mutation to the whole value list of the named line,
    /// returning whether such a line was found.
    pub fn attributes_mut<F: FnOnce(Vec<Attribute>) -> Vec<Attribute>>(
        &mut self,
        param: &str,
        f: F,
    ) -> (r: bool)
        requires
            (match find_line_from(old(self)@.children, param@, 0) {
                Some(j) => old(self)@.children[j] matches EntryV::Line(l) ==> forall|
                    v: Vec<Attribute>,
                |
                    values_view(v@) == l.values ==> call_requires(f, (v,)),
                None => true,
            }),
        ensures
            (match find_line_from(old(self)@.children, param@, 0) {
                None => final(self)@ == old(self)@ && r == false,
                Some(j) => (old(self)@.children[j] matches EntryV::Line(l) ==> {
                    &&& r == true
                    &&& exists|v_in: Vec<Attribute>, v_out: Vec<Attribute>|
                        {
                            &&& values_view(v_in@) == l.values
                            &&& #[trigger] call_ensures(f, (v_in,), v_out)
                            &&& final(self)@ == (ObjectV {
                                header: old(self)@.header,
                                children: old(self)@.children.update(
                                    j,
                                    EntryV::Line(
                                        (LineV { name: l.name, values: values_view(v_out@) }),
                                    ),
                                ),
                            })
                        }
                }),
            }),
    {
        let ghost cs = old(self)@.children;
        proof {
            lemma_find_line_from(cs, param@, 0);
            lemma_entries_view(self.values@);
        }
        let nm = param.to_owned();
        let i = match self.find_line_index(&nm) {
            Some(i) => i,
            None => {
                return false;
            },
        };
        let ghost j = i as int;
        let entry = self.values.remove(i);
        match entry {
            Entry::Line(l) => {
                let Line { attribute, values } = l;
                assert(values_view(values@) == cs[j]->Line_0.values);
                let new_values = f(values);
                let ghost nl = LineV {
                    name: cs[j]->Line_0.name,
                    values: values_view(new_values@),
                };
                self.values.insert(i, Entry::Line(Line { attribute, values: new_values }));
                proof {
                    lemma_entries_view(self.values@);
                    assert(entries_view(self.values@) =~= cs.update(j, EntryV::Line(nl)));
                    assert(final(self)@ =~= (ObjectV {
                        header: old(self)@.header,
                        children: cs.update(j, EntryV::Line(nl)),
                    }));
                }
                true
            },
            _ => unreached(),
        }
    }

    /// Applies the mutation to the first child object with the given header
    /// name, returning whether such a child was found.
    pub fn child_object_mut<F: FnOnce(Object) -> Object>(&mut self, name: &str, f: F) -> (r:
        bool)
        requires
            (match find_object_from(old(self)@.children, name@, 0) {
                Some(j) => old(self)@.children[j] matches EntryV::Object(o) ==> forall|
                    c: Object,
                |
                    c@ == o ==> call_requires(f, (c,)),
                None => true,
            }),
        ensures
            (match find_object_from(old(self)@.children, name@, 0) {
                None => final(self)@ == old(self)@ && r == false,
                Some(j) => (old(self)@.children[j] matches EntryV::Object(o) ==> {
                    &&& r == true
                    &&& exists|c_in: Object, c_out: Object|
                        {
                            &&& c_in@ == o
                            &&& #[trigger] call_ensures(f, (c_in,), c_out)
                            &&& final(self)@ == (ObjectV {
                                header: old(self)@.header,
                                children: old(self)@.children.update(j, EntryV::Object(c_out@)),
                            })
                        }
                }),
            }),
    {
        let ghost cs = old(self)@.children;
        proof {
            lemma_find_object_from(cs, name@, 0);
            lemma_entries_view(self.values@);
        }
        let nm = name.to_owned();
        let i = match self.find_object_index(&nm) {
            Some(i) => i,
            None => {
                return false;
            },
        };
        let ghost j = i as int;
        let entry = self.values.remove(i);
        match entry {
            Entry::Object(c) => {
                assert(c@ == cs[j]->Object_0);
                let c2 = f(c);
                self.values.insert(i, Entry::Object(c2));
                proof {
                    lemma_entries_view(self.values@);
                    assert(entries_view(self.values@) =~= cs.update(j, EntryV::Object(c2@)));
                    assert(final(self)@ =~= (ObjectV {
                        header: old(self)@.header,
                        children: cs.update(j, EntryV::Object(c2@)),
                    }));
                }
                true
            },
            _ => unreached(),
        }
    }
}


/// The payload of a string scalar, whatever its quoting.
pub open spec fn payload_of(st: ReaperStringV) -> Seq<char> {
    match st {
        ReaperStringV::SingleQuote(t) => t,
        ReaperStringV::DoubleQuote(t) => t,
        ReaperStringV::Unquoted(t) => t,
    }
}

/// The same quoting with a new payload.
pub open spec fn with_payload(st: ReaperStringV, p: Seq<char>) -> ReaperStringV {
    match st {
        ReaperStringV::SingleQuote(_) => ReaperStringV::SingleQuote(p),
        ReaperStringV::DoubleQuote(_) => ReaperStringV::DoubleQuote(p),
        ReaperStringV::Unquoted(_) => ReaperStringV::Unquoted(p),
    }
}

impl ReaperString {
    /// The payload, whatever the quoting.
    pub fn as_ref(&self) -> (r: &String)
        ensures
            r@ == payload_of(self@),
    {
        match self {
            ReaperString::SingleQuote(t) => t,
            ReaperString::DoubleQuote(t) => t,
            ReaperString::Unquoted(t) => t,
        }
    }

    /// Mutable access to the payload; the quoting stays whatever it was.
    pub fn as_mut(&mut self) -> (r: &mut String)
        ensures
            (*r)@ == payload_of(old(self)@),
            final(self)@ == with_payload(old(self)@, (*final(r))@),
    {
        match self {
            ReaperString::SingleQuote(t) => t,
            ReaperString::DoubleQuote(t) => t,
            ReaperString::Unquoted(t) => t,
        }
    }

    /// This string with its payload replaced and its quoting kept.
    pub fn with_text(self, p: String) -> (r: ReaperString)
        ensures
            r@ == with_payload(self@, p@),
    {
        match self {
            ReaperString::SingleQuote(_) => ReaperString::SingleQuote(p),
            ReaperString::DoubleQuote(_) => ReaperString::DoubleQuote(p),
            ReaperString::Unquoted(_) => ReaperString::Unquoted(p),
        }
    }
}


/// Ordered-choice determinism: two reads of the same scalar input always
/// yield the same value and consume the same amount — the grammar leaves the
/// parser no choice.  The companion fact, that the choice order is fixed, is
/// [`grammar::lemma_uid_wins_ordered_choice`].
pub proof fn lemma_scalar_parse_deterministic(
    input: &str,
    r1: Option<(Attribute, usize)>,
    r2: Option<(Attribute, usize)>,
)
    requires
        call_ensures(Attribute::deserialize, (input, 0usize), r1),
        call_ensures(Attribute::deserialize, (input, 0usize), r2),
    ensures
        r1 matches Some(t1) ==> (r2 matches Some(t2) && t1.0@ == t2.0@ && t1.1 == t2.1),
{
}

} // verus!
