//! Tag-checked views over the generic document tree: project, track, item
//! and media source.  A view owns one object whose header carries the
//! expected tag; everything the view does not understand stays inside that
//! object untouched.

use vstd::prelude::*;

pub mod error;

use crate::low_level::grammar;
use crate::low_level::{
    entries_view, entry_view, find_line_from, find_object_from, kind_of, lemma_entries_view,
    lemma_find_line_from, payload_of, string_eq, values_view, with_payload, Attribute,
    AttributeKind, AttributeName, AttributeV, Entry, EntryV, Line, LineV, Object, ObjectV,
    ReaperString, SerializeAndDeserialize,
};

verus! {

/// The header tag of a project object.
pub open spec fn project_tag() -> Seq<char> {
    "REAPER_PROJECT"@
}

/// The header tag of a track object.
pub open spec fn track_tag() -> Seq<char> {
    "TRACK"@
}

/// The header tag of an item object.
pub open spec fn item_tag() -> Seq<char> {
    "ITEM"@
}

/// The header tag of a media-source object.
pub open spec fn source_tag() -> Seq<char> {
    "SOURCE"@
}

/// The views of a sequence of viewable values, element by element.
pub open spec fn views_of<T: View>(s: Seq<T>) -> Seq<T::V> {
    Seq::new(s.len(), |i: int| s[i]@)
}

/// The entry is an object whose header carries the tag.
pub open spec fn is_tagged_object(e: EntryV, tag: Seq<char>) -> bool {
    e matches EntryV::Object(o) && o.header.name == tag
}

/// The objects among the entries that carry the tag, in order.
pub open spec fn matching_objects(cs: Seq<EntryV>, tag: Seq<char>) -> Seq<ObjectV>
    decreases cs.len(),
{
    if cs.len() == 0 {
        Seq::empty()
    } else {
        let rest = matching_objects(cs.subrange(1, cs.len() as int), tag);
        match cs[0] {
            EntryV::Object(o) => if o.header.name == tag {
                seq![o] + rest
            } else {
                rest
            },
            _ => rest,
        }
    }
}

/// A cheap, distinctly-tagged object used as the placeholder while a child
/// is temporarily taken out of its slot.
fn dummy_object() -> (r: Object) {
    Object {
        header: Line {
            attribute: AttributeName::new(String::from_str("DUMMY")),
            values: Vec::new(),
        },
        values: Vec::new(),
    }
}

/// A capability over one owned object whose header name equals the view
/// type's expected tag.
pub trait ObjectWrapper: View<V = ObjectV> + Sized {
    /// The tag this view type expects on its object's header.
    spec fn expected_tag() -> Seq<char>;

    /// The expected tag, as a string.
    fn tag_name() -> (r: String)
        ensures
            r@ == Self::expected_tag(),
    ;

    /// Wraps an object without checking its tag.
    fn from_object_raw(inner: Object) -> (r: Self)
        ensures
            r@ == inner@,
    ;

    /// Unwraps the view back into the object it owns; nothing is lost.
    fn destroy(self) -> (r: Object)
        ensures
            r@ == self@,
    ;

    /// Borrows the object the view owns.
    fn as_object(&self) -> (r: &Object)
        ensures
            r@ == self@,
    ;

    /// The serialized text of the owned object, for any view type alike:
    /// one rendering function serves every wrapper.
    fn display_text(&self) -> (r: String)
        ensures
            r@ == grammar::render_object_v(self@, 0),
    {
        self.as_object().serialize_inline()
    }

    /// Whether the object's header carries the expected tag.
    fn matches_object(inner: &Object) -> (r: bool)
        ensures
            r == (inner@.header.name == Self::expected_tag()),
    {
        let tag = Self::tag_name();
        string_eq(inner.header.attribute.as_ref(), &tag)
    }

    /// The checked conversion: succeeds exactly when the header carries the
    /// expected tag; a failure reports the expected and the found tag.
    fn from_object(inner: Object) -> (r: Result<Self, error::Error>)
        ensures
            (match r {
                Ok(w) => inner@.header.name == Self::expected_tag() && w@ == inner@,
                Err(e) => inner@.header.name != Self::expected_tag() && (e matches
                    error::Error::InvalidObject { expected, got } && expected@
                    == Self::expected_tag() && got@ == inner@.header.name),
            }),
    {
        let tag = Self::tag_name();
        if string_eq(inner.header.attribute.as_ref(), &tag) {
            Ok(Self::from_object_raw(inner))
        } else {
            let got = inner.header.attribute.clone();
            Err(error::Error::InvalidObject { expected: AttributeName::new(tag), got })
        }
    }

    /// The scoped in-place mutation protocol: take the object out of the
    /// slot behind a placeholder, convert, mutate, and put the result back;
    /// when the conversion fails, the slot keeps exactly its old content.
    fn with_as_object_mut<T, F: FnOnce(Self) -> (Self, T)>(inner: &mut Object, f: F) -> (r:
        Result<T, error::Error>)
        requires
            forall|w: Self| w@ == old(inner)@ ==> call_requires(f, (w,)),
        ensures
            (if old(inner)@.header.name == Self::expected_tag() {
                exists|w_in: Self, w_out: Self, t: T|
                    {
                        &&& w_in@ == old(inner)@
                        &&& #[trigger] call_ensures(f, (w_in,), (w_out, t))
                        &&& final(inner)@ == w_out@
                        &&& r == Ok::<T, error::Error>(t)
                    }
            } else {
                final(inner)@ == old(inner)@ && (r matches Err(
                    error::Error::InvalidObject { expected, got },
                ) && expected@ == Self::expected_tag() && got@ == old(inner)@.header.name)
            }),
    {
        if Self::matches_object(inner) {
            let mut original = dummy_object();
            core::mem::swap(inner, &mut original);
            let w = Self::from_object_raw(original);
            let (w2, t) = f(w);
            let restored = w2.destroy();
            *inner = restored;
            Ok(t)
        } else {
            let tag = Self::tag_name();
            let got = inner.header.attribute.clone();
            Err(error::Error::InvalidObject { expected: AttributeName::new(tag), got })
        }
    }
}

/// A whole parsed document, tagged as a project.
pub struct ReaperProject {
    inner: Object,
}

/// A track of a project.
pub struct Track {
    inner: Object,
}

/// A media item of a track.
pub struct Item {
    inner: Object,
}

/// A media-source block of an item.
pub struct SourceWave {
    inner: Object,
}

impl View for ReaperProject {
    type V = ObjectV;

    closed spec fn view(&self) -> ObjectV {
        self.inner@
    }
}

impl View for Track {
    type V = ObjectV;

    closed spec fn view(&self) -> ObjectV {
        self.inner@
    }
}

impl View for Item {
    type V = ObjectV;

    closed spec fn view(&self) -> ObjectV {
        self.inner@
    }
}

impl View for SourceWave {
    type V = ObjectV;

    closed spec fn view(&self) -> ObjectV {
        self.inner@
    }
}

impl ObjectWrapper for ReaperProject {
    open spec fn expected_tag() -> Seq<char> {
        project_tag()
    }

    fn tag_name() -> (r: String) {
        String::from_str("REAPER_PROJECT")
    }

    fn from_object_raw(inner: Object) -> (r: Self) {
        ReaperProject { inner }
    }

    fn destroy(self) -> (r: Object) {
        self.inner
    }

    fn as_object(&self) -> (r: &Object) {
        &self.inner
    }
}

impl ObjectWrapper for Track {
    open spec fn expected_tag() -> Seq<char> {
        track_tag()
    }

    fn tag_name() -> (r: String) {
        String::from_str("TRACK")
    }

    fn from_object_raw(inner: Object) -> (r: Self) {
        Track { inner }
    }

    fn destroy(self) -> (r: Object) {
        self.inner
    }

    fn as_object(&self) -> (r: &Object) {
        &self.inner
    }
}

impl ObjectWrapper for Item {
    open spec fn expected_tag() -> Seq<char> {
        item_tag()
    }

    fn tag_name() -> (r: String) {
        String::from_str("ITEM")
    }

    fn from_object_raw(inner: Object) -> (r: Self) {
        Item { inner }
    }

    fn destroy(self) -> (r: Object) {
        self.inner
    }

    fn as_object(&self) -> (r: &Object) {
        &self.inner
    }
}

impl ObjectWrapper for SourceWave {
    open spec fn expected_tag() -> Seq<char> {
        source_tag()
    }

    fn tag_name() -> (r: String) {
        String::from_str("SOURCE")
    }

    fn from_object_raw(inner: Object) -> (r: Self) {
        SourceWave { inner }
    }

    fn destroy(self) -> (r: Object) {
        self.inner
    }

    fn as_object(&self) -> (r: &Object) {
        &self.inner
    }
}

impl Clone for ReaperProject {
    fn clone(&self) -> (r: Self)
        ensures
            r@ == self@,
    {
        ReaperProject { inner: self.inner.clone() }
    }
}

impl Clone for Track {
    fn clone(&self) -> (r: Self)
        ensures
            r@ == self@,
    {
        Track { inner: self.inner.clone() }
    }
}

impl Clone for Item {
    fn clone(&self) -> (r: Self)
        ensures
            r@ == self@,
    {
        Item { inner: self.inner.clone() }
    }
}

impl Clone for SourceWave {
    fn clone(&self) -> (r: Self)
        ensures
            r@ == self@,
    {
        SourceWave { inner: self.inner.clone() }
    }
}

/// Unwrap identity, for every view type: whenever the checked conversion
/// accepts an object and the view it produced is unwrapped again, what comes
/// out is structurally the object that went in.  The hypotheses say exactly
/// that the two values are possible outcomes of `from_object` and `destroy`.
pub proof fn lemma_unwrap_identity<W: ObjectWrapper>(o: Object, w: W, o2: Object)
    requires
        call_ensures(W::from_object, (o,), Ok::<W, error::Error>(w)),
        call_ensures(W::destroy, (w,), o2),
    ensures
        o2@ == o@,
{
}


/// How many entries carry the tag.
pub open spec fn count_matching(cs: Seq<EntryV>, tag: Seq<char>) -> int
    decreases cs.len(),
{
    if cs.len() == 0 {
        0int
    } else {
        count_matching(cs.drop_last(), tag) + if is_tagged_object(cs.last(), tag) {
            1int
        } else {
            0int
        }
    }
}

/// Counting one more entry adds one exactly for a tagged object.
pub proof fn lemma_count_matching_step(cs: Seq<EntryV>, tag: Seq<char>, j: int)
    requires
        0 <= j < cs.len(),
    ensures
        count_matching(cs.subrange(0, j + 1), tag) == count_matching(cs.subrange(0, j), tag) + (
        if is_tagged_object(cs[j], tag) {
            1int
        } else {
            0int
        }),
{
    let p = cs.subrange(0, j + 1);
    assert(p.drop_last() =~= cs.subrange(0, j));
    assert(p.last() == cs[j]);
}

/// A count of matching entries is never negative.
pub proof fn lemma_count_matching_nonneg(cs: Seq<EntryV>, tag: Seq<char>)
    ensures
        count_matching(cs, tag) >= 0,
    decreases cs.len(),
{
    if cs.len() > 0 {
        lemma_count_matching_nonneg(cs.drop_last(), tag);
    }
}

/// Counting over a longer prefix never counts less.
pub proof fn lemma_count_matching_mono(cs: Seq<EntryV>, tag: Seq<char>, a: int, b: int)
    requires
        0 <= a <= b <= cs.len(),
    ensures
        count_matching(cs.subrange(0, a), tag) <= count_matching(cs.subrange(0, b), tag),
    decreases b - a,
{
    if a < b {
        lemma_count_matching_mono(cs, tag, a, b - 1);
        lemma_count_matching_step(cs, tag, b - 1);
    }
}

/// Collects a clone of every child object that carries the view's tag.
#[verifier::loop_isolation(false)]
fn collect_matching<W: ObjectWrapper>(parent: &Object) -> (r: Vec<W>)
    ensures
        views_of(r@) == matching_objects(parent@.children, W::expected_tag()),
{
    let tag = W::tag_name();
    let ghost cs = parent@.children;
    proof {
        lemma_entries_view(parent.values@);
    }
    let mut out: Vec<W> = Vec::new();
    let mut i: usize = 0;
    proof {
        assert(views_of(out@) =~= Seq::<ObjectV>::empty());
        assert(cs.subrange(0, cs.len() as int) =~= cs);
    }
    while i < parent.values.len()
        invariant
            0 <= i <= parent.values.len(),
            matching_objects(cs, W::expected_tag()) == views_of(out@) + matching_objects(
                cs.subrange(i as int, cs.len() as int),
                W::expected_tag(),
            ),
        decreases parent.values.len() - i,
    {
        let ghost rem = cs.subrange(i as int, cs.len() as int);
        proof {
            assert(rem[0] == cs[i as int]);
            assert(rem.subrange(1, rem.len() as int) =~= cs.subrange(
                i + 1,
                cs.len() as int,
            ));
        }
        match &parent.values[i] {
            Entry::Object(o) => {
                if string_eq(o.header.attribute.as_ref(), &tag) {
                    let c = o.clone();
                    let ghost old_out = out@;
                    out.push(W::from_object_raw(c));
                    proof {
                        assert(views_of(out@) =~= views_of(old_out) + seq![o@]);
                        assert(views_of(old_out) + (seq![o@] + matching_objects(
                            cs.subrange(i + 1, cs.len() as int),
                            W::expected_tag(),
                        )) =~= views_of(out@) + matching_objects(
                            cs.subrange(i + 1, cs.len() as int),
                            W::expected_tag(),
                        ));
                    }
                }
            },
            _ => {},
        }
        i = i + 1;
    }
    proof {
        assert(cs.subrange(i as int, cs.len() as int) =~= Seq::<EntryV>::empty());
        assert(views_of(out@) + Seq::<ObjectV>::empty() =~= views_of(out@));
    }
    out
}

impl ReaperProject {
    /// Parses a whole document and checks that it is tagged as a project.
    pub fn parse_from_str(input: &str) -> (r: Result<Self, error::Error>)
        ensures
            (match grammar::spec_parse_object(input@, 0, 0) {
                Some(t) => if t.0.header.name == project_tag() {
                    r matches Ok(p) && p@ == t.0
                } else {
                    r matches Err(error::Error::InvalidObject { expected, got }) && expected@
                        == project_tag() && got@ == t.0.header.name
                },
                None => r matches Err(error::Error::LowLevel { source }) && source matches
                    crate::low_level::error::Error::ParseError { .. },
            }),
    {
        match crate::low_level::from_str(input) {
            Ok(o) => Self::from_object(o),
            Err(e) => Err(error::Error::LowLevel { source: e }),
        }
    }

    /// Renders the project back to text; rendering cannot fail.
    pub fn serialize_to_string(self) -> (r: Result<String, error::Error>)
        ensures
            (match r {
                Ok(s) => s@ == grammar::render_object_v(self@, 0) + grammar::crlf(),
                Err(_) => false,
            }),
    {
        match crate::low_level::to_string(self.inner) {
            Ok(s) => Ok(s),
            Err(e) => Err(error::Error::LowLevel { source: e }),
        }
    }

    /// All direct children tagged as tracks, in document order.
    pub fn tracks(&self) -> (r: Vec<Track>)
        ensures
            views_of(r@) == matching_objects(self@.children, track_tag()),
    {
        collect_matching::<Track>(&self.inner)
    }
}

impl Track {
    /// All direct children tagged as items, in document order.
    pub fn items(&self) -> (r: Vec<Item>)
        ensures
            views_of(r@) == matching_objects(self@.children, item_tag()),
    {
        collect_matching::<Item>(&self.inner)
    }

    /// The rendering of the first value of the track's `NAME` line; a track
    /// without such a value has no name.
    pub fn name(&self) -> (r: Result<String, error::Error>)
        ensures
            (match find_line_from(self@.children, "NAME"@, 0) {
                None => r matches Err(error::Error::MissingAttribute { attribute }) && attribute@
                    == "NAME"@,
                Some(j) => self@.children[j] matches EntryV::Line(l) ==> if l.values.len() == 0 {
                    r matches Err(error::Error::MissingAttribute { attribute }) && attribute@
                        == "NAME"@
                } else {
                    r matches Ok(s) && s@ == grammar::render_attr(l.values[0])
                },
            }),
    {
        proof {
            lemma_find_line_from(self@.children, "NAME"@, 0);
        }
        match self.inner.attributes("NAME") {
            Some(vals) => {
                if vals.len() == 0 {
                    Err(error::Error::MissingAttribute {
                        attribute: AttributeName::new(String::from_str("NAME")),
                    })
                } else {
                    Ok(vals[0].serialize_inline())
                }
            },
            None => Err(error::Error::MissingAttribute {
                attribute: AttributeName::new(String::from_str("NAME")),
            }),
        }
    }
}

impl Item {
    /// The first child tagged as a media source, if any.
    pub fn source_wave(&self) -> (r: Option<SourceWave>)
        ensures
            (match r {
                Some(w) => find_object_from(self@.children, source_tag(), 0) matches Some(j)
                    && self@.children[j] == EntryV::Object(w@),
                None => find_object_from(self@.children, source_tag(), 0) is None,
            }),
    {
        match self.inner.child_object("SOURCE") {
            Some(o) => Some(SourceWave::from_object_raw(o.clone())),
            None => None,
        }
    }
}

impl SourceWave {
    /// The referenced media file path: `None` where no `FILE` line exists;
    /// an error where the line has the wrong value count or a value of the
    /// wrong kind; otherwise the path text.
    pub fn file(&self) -> (r: Option<Result<String, error::Error>>)
        ensures
            (match find_line_from(self@.children, "FILE"@, 0) {
                None => r is None,
                Some(j) => self@.children[j] matches EntryV::Line(l) ==> {
                    if l.values.len() != 1 {
                        r matches Some(Err(error::Error::LowLevel { source })) && (source
                            matches crate::low_level::error::Error::BadParamCount {
                                expected,
                                found,
                            } && expected == 1 && found == l.values.len())
                    } else if !(l.values[0] matches AttributeV::Str(_)) {
                        r matches Some(Err(error::Error::InvalidAttributeType {
                            field,
                            expected,
                            found,
                        })) && field@ == "FILE"@ && expected == AttributeKind::String && found
                            == kind_of(l.values[0])
                    } else {
                        r matches Some(Ok(s)) && (l.values[0] matches AttributeV::Str(st) && s@
                            == payload_of(st))
                    }
                },
            }),
    {
        proof {
            lemma_find_line_from(self@.children, "FILE"@, 0);
        }
        match self.inner.single_attribute("FILE") {
            None => None,
            Some(Err(e)) => Some(Err(error::Error::LowLevel { source: e })),
            Some(Ok(a)) => match a {
                Attribute::String(st) => Some(Ok(st.as_ref().clone())),
                other => Some(Err(error::Error::InvalidAttributeType {
                    field: "FILE",
                    expected: AttributeKind::String,
                    found: other.kind(),
                })),
            },
        }
    }
}


/// Converts each child object that carries the view's tag, applies the
/// mutation, and writes the result back into the same slot; other children
/// are untouched.  Returns the mutation's outputs in document order.
#[verifier::loop_isolation(false)]
fn map_matching_children<W: ObjectWrapper, T, F: Fn(W) -> (W, T)>(parent: &mut Object, f: F) -> (r:
    Vec<T>)
    requires
        forall|w: W| w@.header.name == W::expected_tag() ==> call_requires(f, (w,)),
    ensures
        final(parent)@.header == old(parent)@.header,
        final(parent)@.children.len() == old(parent)@.children.len(),
        r@.len() == count_matching(old(parent)@.children, W::expected_tag()),
        forall|j: int|
            0 <= j < old(parent)@.children.len() && !is_tagged_object(
                old(parent)@.children[j],
                W::expected_tag(),
            ) ==> final(parent)@.children[j] == old(parent)@.children[j],
        forall|j: int|
            0 <= j < old(parent)@.children.len() && is_tagged_object(
                old(parent)@.children[j],
                W::expected_tag(),
            ) ==> exists|w_in: W, w_out: W, t: T|
                {
                    &&& w_in@ == old(parent)@.children[j]->Object_0
                    &&& #[trigger] call_ensures(f, (w_in,), (w_out, t))
                    &&& final(parent)@.children[j] == EntryV::Object(w_out@)
                    &&& r@[count_matching(
                        old(parent)@.children.subrange(0, j),
                        W::expected_tag(),
                    )] == t
                },
{
    let tag = W::tag_name();
    let ghost cs = old(parent)@.children;
    proof {
        lemma_entries_view(parent.values@);
        assert(cs.subrange(0, 0) =~= Seq::<EntryV>::empty());
    }
    let mut out: Vec<T> = Vec::new();
    let mut i: usize = 0;
    while i < parent.values.len()
        invariant
            0 <= i <= parent.values@.len(),
            parent.values@.len() == cs.len(),
            parent.header == old(parent).header,
            out@.len() == count_matching(cs.subrange(0, i as int), W::expected_tag()),
            forall|j: int| i <= j < cs.len() ==> entry_view(parent.values@[j]) == cs[j],
            forall|j: int|
                0 <= j < i && !is_tagged_object(cs[j], W::expected_tag()) ==> entry_view(
                    parent.values@[j],
                ) == cs[j],
            forall|j: int|
                0 <= j < i && is_tagged_object(cs[j], W::expected_tag()) ==> exists|
                    w_in: W,
                    w_out: W,
                    t: T,
                |
                    {
                        &&& w_in@ == cs[j]->Object_0
                        &&& #[trigger] call_ensures(f, (w_in,), (w_out, t))
                        &&& entry_view(parent.values@[j]) == EntryV::Object(w_out@)
                        &&& out@[count_matching(cs.subrange(0, j), W::expected_tag())] == t
                    },
        decreases parent.values@.len() - i,
    {
        proof {
            lemma_count_matching_step(cs, W::expected_tag(), i as int);
        }
        let matches_here = match &parent.values[i] {
            Entry::Object(o) => string_eq(o.header.attribute.as_ref(), &tag),
            _ => false,
        };
        if matches_here {
            let ghost before = parent.values@;
            let ghost old_out = out@;
            let entry = parent.values.remove(i);
            match entry {
                Entry::Object(o) => {
                    proof {
                        assert(entry_view(before[i as int]) == cs[i as int]);
                        assert(o@ == cs[i as int]->Object_0);
                        assert(is_tagged_object(cs[i as int], W::expected_tag()));
                    }
                    let w = W::from_object_raw(o);
                    let (w2, t) = f(w);
                    parent.values.insert(i, Entry::Object(w2.destroy()));
                    out.push(t);
                    proof {
                        assert(parent.values@ =~= before.update(
                            i as int,
                            parent.values@[i as int],
                        ));
                        assert(entry_view(parent.values@[i as int]) == EntryV::Object(w2@));
                        assert(out@ == old_out.push(t));
                        assert(out@[count_matching(cs.subrange(0, i as int), W::expected_tag())]
                            == t);
                        assert forall|j: int|
                            0 <= j < i && is_tagged_object(cs[j], W::expected_tag()) implies
                            exists|w_in: W, w_out: W, tt: T|
                            {
                                &&& w_in@ == cs[j]->Object_0
                                &&& #[trigger] call_ensures(f, (w_in,), (w_out, tt))
                                &&& entry_view(parent.values@[j]) == EntryV::Object(w_out@)
                                &&& out@[count_matching(cs.subrange(0, j), W::expected_tag())]
                                    == tt
                            } by {
                            lemma_count_matching_nonneg(cs.subrange(0, j), W::expected_tag());
                            lemma_count_matching_step(cs, W::expected_tag(), j);
                            lemma_count_matching_mono(cs, W::expected_tag(), j + 1, i as int);
                            assert(count_matching(cs.subrange(0, j), W::expected_tag())
                                < old_out.len());
                            assert(parent.values@[j] == before[j]);
                        }
                    }
                },
                _ => {
                    proof {
                        assert(false);
                    }
                },
            }
        } else {
            proof {
                assert(!is_tagged_object(cs[i as int], W::expected_tag()));
            }
        }
        i = i + 1;
    }
    proof {
        assert(cs.subrange(0, cs.len() as int) =~= cs);
        lemma_entries_view(parent.values@);
        assert(final(parent)@.children.len() == cs.len());
        assert forall|j: int|
            0 <= j < cs.len() && !is_tagged_object(cs[j], W::expected_tag()) implies final(
            parent)@.children[j] == cs[j] by {
            assert(final(parent)@.children[j] == entry_view(parent.values@[j]));
        }
        assert forall|j: int|
            0 <= j < cs.len() && is_tagged_object(cs[j], W::expected_tag()) implies exists|
            w_in: W,
            w_out: W,
            t: T,
        |
            {
                &&& w_in@ == cs[j]->Object_0
                &&& #[trigger] call_ensures(f, (w_in,), (w_out, t))
                &&& final(parent)@.children[j] == EntryV::Object(w_out@)
                &&& out@[count_matching(cs.subrange(0, j), W::expected_tag())] == t
            } by {
            assert(final(parent)@.children[j] == entry_view(parent.values@[j]));
        }
    }
    out
}

impl Track {
    /// Applies the mutation to every item child in place, collecting the
    /// mutation's outputs in document order; all other children and the
    /// order of everything are untouched.
    pub fn modify_items<T, F: Fn(Item) -> (Item, T)>(&mut self, f: F) -> (r: Vec<T>)
        requires
            forall|w: Item| w@.header.name == item_tag() ==> call_requires(f, (w,)),
        ensures
            final(self)@.header == old(self)@.header,
            final(self)@.children.len() == old(self)@.children.len(),
            r@.len() == count_matching(old(self)@.children, item_tag()),
            forall|j: int|
                0 <= j < old(self)@.children.len() && !is_tagged_object(
                    old(self)@.children[j],
                    item_tag(),
                ) ==> final(self)@.children[j] == old(self)@.children[j],
            forall|j: int|
                0 <= j < old(self)@.children.len() && is_tagged_object(
                    old(self)@.children[j],
                    item_tag(),
                ) ==> exists|w_in: Item, w_out: Item, t: T|
                    {
                        &&& w_in@ == old(self)@.children[j]->Object_0
                        &&& #[trigger] call_ensures(f, (w_in,), (w_out, t))
                        &&& final(self)@.children[j] == EntryV::Object(w_out@)
                        &&& r@[count_matching(old(self)@.children.subrange(0, j), item_tag())]
                            == t
                    },
    {
        map_matching_children::<Item, T, F>(&mut self.inner, f)
    }
}

impl Item {
    /// Applies the mutation to every media-source child in place, collecting
    /// the mutation's outputs in document order.
    pub fn with_source_waves_mut<T, F: Fn(SourceWave) -> (SourceWave, T)>(&mut self, f: F) -> (r:
        Vec<T>)
        requires
            forall|w: SourceWave| w@.header.name == source_tag() ==> call_requires(f, (w,)),
        ensures
            final(self)@.header == old(self)@.header,
            final(self)@.children.len() == old(self)@.children.len(),
            r@.len() == count_matching(old(self)@.children, source_tag()),
            forall|j: int|
                0 <= j < old(self)@.children.len() && !is_tagged_object(
                    old(self)@.children[j],
                    source_tag(),
                ) ==> final(self)@.children[j] == old(self)@.children[j],
            forall|j: int|
                0 <= j < old(self)@.children.len() && is_tagged_object(
                    old(self)@.children[j],
                    source_tag(),
                ) ==> exists|w_in: SourceWave, w_out: SourceWave, t: T|
                    {
                        &&& w_in@ == old(self)@.children[j]->Object_0
                        &&& #[trigger] call_ensures(f, (w_in,), (w_out, t))
                        &&& final(self)@.children[j] == EntryV::Object(w_out@)
                        &&& r@[count_matching(old(self)@.children.subrange(0, j), source_tag())]
                            == t
                    },
    {
        map_matching_children::<SourceWave, T, F>(&mut self.inner, f)
    }
}


impl SourceWave {
    /// Rewrites the referenced media file path in place, keeping the
    /// quoting: `None` where no `FILE` line exists; an error, and no change,
    /// where the line has the wrong value count or a value of the wrong
    /// kind.
    pub fn file_mut<F: FnOnce(String) -> String>(&mut self, f: F) -> (r: Option<
        Result<(), error::Error>,
    >)
        requires
            (match crate::low_level::single_value(old(self)@.children, "FILE"@) {
                Some(av) => av matches AttributeV::Str(st) ==> forall|s: String|
                    s@ == payload_of(st) ==> call_requires(f, (s,)),
                None => true,
            }),
        ensures
            (match find_line_from(old(self)@.children, "FILE"@, 0) {
                None => r is None && final(self)@ == old(self)@,
                Some(j) => old(self)@.children[j] matches EntryV::Line(l) ==> {
                    if l.values.len() != 1 {
                        &&& final(self)@ == old(self)@
                        &&& r matches Some(Err(error::Error::LowLevel { source })) && (source
                            matches crate::low_level::error::Error::BadParamCount {
                                expected,
                                found,
                            } && expected == 1 && found == l.values.len())
                    } else if !(l.values[0] matches AttributeV::Str(_)) {
                        &&& final(self)@ == old(self)@
                        &&& r matches Some(Err(error::Error::InvalidAttributeType {
                            field,
                            expected,
                            found,
                        })) && field@ == "FILE"@ && expected == AttributeKind::String && found
                            == kind_of(l.values[0])
                    } else {
                        &&& r matches Some(Ok(_))
                        &&& exists|s_in: String, s_out: String|
                            {
                                &&& l.values[0] matches AttributeV::Str(st)
                                &&& s_in@ == payload_of(st)
                                &&& #[trigger] call_ensures(f, (s_in,), s_out)
                                &&& final(self)@ == (ObjectV {
                                    header: old(self)@.header,
                                    children: old(self)@.children.update(
                                        j,
                                        EntryV::Line(
                                            (LineV {
                                                name: l.name,
                                                values: seq![
                                                    AttributeV::Str(with_payload(st, s_out@)),
                                                ],
                                            }),
                                        ),
                                    ),
                                })
                            }
                    }
                },
            }),
    {
        let ghost cs = old(self)@.children;
        proof {
            lemma_find_line_from(cs, "FILE"@, 0);
            lemma_entries_view(self.inner.values@);
        }
        let nm = String::from_str("FILE");
        let i = match self.inner.find_line_index(&nm) {
            Some(i) => i,
            None => {
                return None;
            },
        };
        let ghost j = i as int;
        let entry = self.inner.values.remove(i);
        match entry {
            Entry::Line(mut l) => {
                if l.values.len() != 1 {
                    let found = l.values.len();
                    self.inner.values.insert(i, Entry::Line(l));
                    proof {
                        assert(self.inner.values@ =~= old(self).inner.values@);
                        assert(self.inner@ =~= old(self).inner@);
                    }
                    return Some(Err(error::Error::LowLevel {
                        source: crate::low_level::error::Error::BadParamCount {
                            expected: 1,
                            found,
                        },
                    }));
                }
                let a = match l.values.pop() {
                    Some(a) => a,
                    None => unreached(),
                };
                assert(a@ == cs[j]->Line_0.values[0]);
                match a {
                    Attribute::String(st) => {
                        let p = st.as_ref().clone();
                        let p2 = f(p);
                        let st2 = st.with_text(p2);
                        l.values.push(Attribute::String(st2));
                        let ghost new_line = l@;
                        self.inner.values.insert(i, Entry::Line(l));
                        proof {
                            lemma_entries_view(self.inner.values@);
                            assert(entries_view(self.inner.values@) =~= cs.update(
                                j,
                                EntryV::Line(new_line),
                            ));
                            assert(new_line.values =~= seq![
                                AttributeV::Str(
                                    with_payload(cs[j]->Line_0.values[0]->Str_0, p2@),
                                ),
                            ]);
                            assert(self.inner@ =~= (ObjectV {
                                header: old(self)@.header,
                                children: cs.update(
                                    j,
                                    EntryV::Line(
                                        (LineV {
                                            name: cs[j]->Line_0.name,
                                            values: seq![
                                                AttributeV::Str(
                                                    with_payload(
                                                        cs[j]->Line_0.values[0]->Str_0,
                                                        p2@,
                                                    ),
                                                ),
                                            ],
                                        }),
                                    ),
                                ),
                            }));
                        }
                        Some(Ok(()))
                    },
                    other => {
                        let k = other.kind();
                        l.values.push(other);
                        let ghost lv = l@;
                        self.inner.values.insert(i, Entry::Line(l));
                        proof {
                            lemma_entries_view(self.inner.values@);
                            assert(lv.values =~= cs[j]->Line_0.values);
                            assert(lv =~= cs[j]->Line_0);
                            assert(entries_view(self.inner.values@) =~= cs);
                            assert(self.inner@ =~= old(self).inner@);
                        }
                        Some(Err(error::Error::InvalidAttributeType {
                            field: "FILE",
                            expected: AttributeKind::String,
                            found: k,
                        }))
                    },
                }
            },
            _ => unreached(),
        }
    }
}


/// The entries that do not carry the tag, in order.
pub open spec fn non_matching(cs: Seq<EntryV>, tag: Seq<char>) -> Seq<EntryV>
    decreases cs.len(),
{
    if cs.len() == 0 {
        Seq::empty()
    } else {
        let rest = non_matching(cs.subrange(1, cs.len() as int), tag);
        if is_tagged_object(cs[0], tag) {
            rest
        } else {
            seq![cs[0]] + rest
        }
    }
}

/// The index of the first entry that carries the tag, or the length where
/// none does.
pub open spec fn first_match_index(cs: Seq<EntryV>, tag: Seq<char>) -> int
    decreases cs.len(),
{
    if cs.len() == 0 {
        0int
    } else if is_tagged_object(cs[0], tag) {
        0int
    } else {
        1 + first_match_index(cs.subrange(1, cs.len() as int), tag)
    }
}

/// Objects wrapped back into entries, in order.
pub open spec fn objects_as_entries(ts: Seq<ObjectV>) -> Seq<EntryV> {
    Seq::new(ts.len(), |i: int| EntryV::Object(ts[i]))
}

/// The child sequence after extract-transform-reinsert: the non-matching
/// entries keep their relative order, and the new objects stand as one
/// contiguous block at the position of the first old match (or at the end,
/// where nothing matched).
pub open spec fn modify_tracks_result(cs: Seq<EntryV>, tag: Seq<char>, new: Seq<ObjectV>) -> Seq<
    EntryV,
> {
    let kept = non_matching(cs, tag);
    let fm = first_match_index(cs, tag);
    let k = if fm <= kept.len() {
        fm
    } else {
        kept.len() as int
    };
    kept.subrange(0, k) + objects_as_entries(new) + kept.subrange(k, kept.len() as int)
}

/// The anchor index never passes the count of kept entries, and never lies
/// below zero.
pub proof fn lemma_first_match_bounds(cs: Seq<EntryV>, tag: Seq<char>)
    ensures
        0 <= first_match_index(cs, tag),
        first_match_index(cs, tag) <= non_matching(cs, tag).len(),
        non_matching(cs, tag).len() <= cs.len(),
    decreases cs.len(),
{
    if cs.len() > 0 {
        lemma_first_match_bounds(cs.subrange(1, cs.len() as int), tag);
    }
}

impl ReaperProject {
    /// Extract-transform-reinsert over the track children: pulls every
    /// track out in order, hands the list to the transform, and reinserts
    /// what comes back as one contiguous block at the position of the first
    /// old track (or at the end, where there was none).  A project without
    /// any children has nowhere to anchor and is refused unchanged.
    #[verifier::loop_isolation(false)]
    pub fn modify_tracks<F: FnOnce(Vec<Track>) -> Vec<Track>>(&mut self, modifier: F) -> (r:
        Result<(), error::Error>)
        requires
            forall|ts: Vec<Track>|
                views_of(ts@) == matching_objects(old(self)@.children, track_tag())
                    ==> call_requires(modifier, (ts,)),
        ensures
            old(self)@.children.len() == 0 ==> final(self)@ == old(self)@ && (r matches Err(
                error::Error::EmptyProject,
            )),
            old(self)@.children.len() > 0 ==> {
                &&& r is Ok
                &&& final(self)@.header == old(self)@.header
                &&& exists|ts_in: Vec<Track>, ts_out: Vec<Track>|
                    {
                        &&& views_of(ts_in@) == matching_objects(
                            old(self)@.children,
                            track_tag(),
                        )
                        &&& #[trigger] call_ensures(modifier, (ts_in,), ts_out)
                        &&& final(self)@.children == modify_tracks_result(
                            old(self)@.children,
                            track_tag(),
                            views_of(ts_out@),
                        )
                    }
            },
    {
        let ghost cs = old(self)@.children;
        let ghost tagv = track_tag();
        proof {
            lemma_entries_view(self.inner.values@);
            lemma_first_match_bounds(cs, tagv);
        }
        if self.inner.values.len() == 0 {
            return Err(error::Error::EmptyProject);
        }
        let tag = String::from_str("TRACK");
        let mut rest: Vec<Entry> = Vec::new();
        core::mem::swap(&mut self.inner.values, &mut rest);
        let mut kept: Vec<Entry> = Vec::new();
        let mut popped: Vec<Track> = Vec::new();
        let mut seen = false;
        let mut anchor: usize = 0;
        let ghost total = cs.len();
        proof {
            assert(entries_view(rest@) =~= cs.subrange(0, total as int));
            assert(cs.subrange(0, total as int) =~= cs);
            assert(entries_view(kept@) =~= Seq::<EntryV>::empty());
            assert(views_of(popped@) =~= Seq::<ObjectV>::empty());
        }
        while rest.len() > 0
            invariant
                rest@.len() <= total == cs.len(),
                entries_view(rest@) == cs.subrange(
                    total - rest@.len(),
                    total as int,
                ),
                non_matching(cs, tagv) == entries_view(kept@) + non_matching(
                    cs.subrange(total - rest@.len(), total as int),
                    tagv,
                ),
                matching_objects(cs, tagv) == views_of(popped@) + matching_objects(
                    cs.subrange(total - rest@.len(), total as int),
                    tagv,
                ),
                seen ==> anchor == first_match_index(cs, tagv) && anchor <= kept@.len(),
                !seen ==> kept@.len() == total - rest@.len() && first_match_index(cs, tagv)
                    == total - rest@.len() + first_match_index(
                    cs.subrange(total - rest@.len(), total as int),
                    tagv,
                ),
            decreases rest@.len(),
        {
            let ghost c = total - rest@.len();
            let ghost rem = cs.subrange(c as int, total as int);
            proof {
                lemma_entries_view(rest@);
                assert(rem[0] == entries_view(rest@)[0]);
                assert(rem.subrange(1, rem.len() as int) =~= cs.subrange(
                    c + 1,
                    total as int,
                ));
            }
            let e = rest.remove(0);
            let ghost ev = e@;
            proof {
                lemma_entries_view(rest@);
                assert(entries_view(rest@) =~= cs.subrange(c + 1, total as int));
                assert(ev == rem[0]);
            }
            let matches_here: bool;
            match &e {
                Entry::Object(o) => {
                    matches_here = string_eq(o.header.attribute.as_ref(), &tag);
                    proof {
                        assert(ev == EntryV::Object(o@));
                        assert(matches_here == is_tagged_object(ev, tagv));
                    }
                },
                _ => {
                    matches_here = false;
                    proof {
                        assert(matches_here == is_tagged_object(ev, tagv));
                    }
                },
            }
            if matches_here {
                match e {
                    Entry::Object(o) => {
                        let ghost old_popped = popped@;
                        if !seen {
                            seen = true;
                            anchor = kept.len();
                        }
                        popped.push(Track::from_object_raw(o));
                        proof {
                            assert(views_of(popped@) =~= views_of(old_popped) + seq![
                                rem[0]->Object_0,
                            ]);
                            assert(views_of(old_popped) + (seq![rem[0]->Object_0]
                                + matching_objects(cs.subrange(c + 1, total as int), tagv))
                                =~= views_of(popped@) + matching_objects(
                                cs.subrange(c + 1, total as int),
                                tagv,
                            ));
                        }
                    },
                    _ => {
                        proof {
                            assert(false);
                        }
                    },
                }
            } else {
                let ghost old_kept = kept@;
                kept.push(e);
                proof {
                    lemma_entries_view(kept@);
                    lemma_entries_view(old_kept);
                    assert(entries_view(kept@) =~= entries_view(old_kept) + seq![rem[0]]);
                    assert(entries_view(old_kept) + (seq![rem[0]] + non_matching(
                        cs.subrange(c + 1, total as int),
                        tagv,
                    )) =~= entries_view(kept@) + non_matching(
                        cs.subrange(c + 1, total as int),
                        tagv,
                    ));
                }
            }
        }
        proof {
            assert(cs.subrange(total as int, total as int) =~= Seq::<EntryV>::empty());
            assert(entries_view(kept@) + Seq::<EntryV>::empty() =~= entries_view(kept@));
            assert(views_of(popped@) + Seq::<ObjectV>::empty() =~= views_of(popped@));
            assert(non_matching(cs, tagv) == entries_view(kept@));
            assert(matching_objects(cs, tagv) == views_of(popped@));
        }
        if !seen {
            anchor = kept.len();
        }
        let ghost anchor_k = anchor as int;
        proof {
            let fm = first_match_index(cs, tagv);
            let kk = if fm <= non_matching(cs, tagv).len() {
                fm
            } else {
                non_matching(cs, tagv).len() as int
            };
            assert(anchor_k == kk);
        }
        let ghost popped_views = views_of(popped@);
        let mut new_tracks = modifier(popped);
        let ghost new_views = views_of(new_tracks@);
        let ghost kept_full = kept@;
        let ghost kept_views = non_matching(cs, tagv);
        proof {
            assert(anchor_k <= kept_views.len());
        }
        let mut tail = kept.split_off(anchor);
        proof {
            lemma_entries_view(kept_full);
            lemma_entries_view(kept@);
            lemma_entries_view(tail@);
            assert(entries_view(kept_full) == kept_views);
            assert forall|x: int| 0 <= x < anchor_k implies entries_view(kept@)[x]
                == kept_views[x] by {
                assert(kept@[x] == kept_full[x]);
            }
            assert(entries_view(kept@) =~= kept_views.subrange(0, anchor_k));
            assert forall|x: int| 0 <= x < kept_views.len() - anchor_k implies entries_view(
                tail@,
            )[x] == kept_views[anchor_k + x] by {
                assert(tail@[x] == kept_full[anchor_k + x]);
            }
            assert(entries_view(tail@) =~= kept_views.subrange(
                anchor_k,
                kept_views.len() as int,
            ));
        }
        let mut result = kept;
        let total_new: usize = new_tracks.len();
        let ghost mid_total = total_new as int;
        let mut taken: usize = 0;
        proof {
            assert(objects_as_entries(new_views.subrange(0, 0)) =~= Seq::<EntryV>::empty());
            assert(entries_view(result@) =~= kept_views.subrange(0, anchor_k)
                + objects_as_entries(new_views.subrange(0, 0)));
            assert(new_views.subrange(0, mid_total as int) =~= new_views);
        }
        while new_tracks.len() > 0
            invariant
                taken <= total_new,
                taken + new_tracks@.len() == mid_total == new_views.len(),
                views_of(new_tracks@) == new_views.subrange(taken as int, mid_total as int),
                entries_view(result@) == kept_views.subrange(0, anchor_k) + objects_as_entries(
                    new_views.subrange(0, taken as int),
                ),
            decreases new_tracks@.len(),
        {
            let ghost old_nt = new_tracks@;
            let t = new_tracks.remove(0);
            proof {
                assert(views_of(old_nt) == new_views.subrange(taken as int, mid_total as int));
                assert(t == old_nt[0]);
                assert(views_of(old_nt)[0] == old_nt[0]@);
                assert(t@ == new_views[taken as int]);
                assert(new_tracks@ =~= old_nt.subrange(1, old_nt.len() as int));
                assert forall|x: int| 0 <= x < new_tracks@.len() implies views_of(
                    new_tracks@,
                )[x] == new_views[taken + 1 + x] by {
                    assert(new_tracks@[x] == old_nt[x + 1]);
                    assert(old_nt[x + 1]@ == views_of(old_nt)[x + 1]);
                }
                assert(views_of(new_tracks@) =~= new_views.subrange(
                    taken + 1,
                    mid_total as int,
                ));
            }
            let ghost old_result = result@;
            result.push(Entry::Object(t.destroy()));
            proof {
                lemma_entries_view(result@);
                lemma_entries_view(old_result);
                assert(entries_view(result@) =~= entries_view(old_result) + seq![
                    EntryV::Object(new_views[taken as int]),
                ]);
                assert(entries_view(result@) =~= kept_views.subrange(0, anchor_k)
                    + objects_as_entries(new_views.subrange(0, taken + 1)));
            }
            taken = taken + 1;
        }
        proof {
            assert(new_views.subrange(0, taken as int) =~= new_views);
        }
        let ghost before_tail = result@;
        let ghost tail_before = tail@;
        result.append(&mut tail);
        proof {
            lemma_entries_view(result@);
            lemma_entries_view(before_tail);
            lemma_entries_view(tail_before);
            assert(entries_view(result@) =~= entries_view(before_tail) + entries_view(
                tail_before,
            ));
            assert(entries_view(result@) =~= kept_views.subrange(0, anchor_k)
                + objects_as_entries(new_views) + kept_views.subrange(
                anchor_k,
                kept_views.len() as int,
            ));
        }
        self.inner.values = result;
        proof {
            assert(final(self)@.children =~= modify_tracks_result(cs, tagv, new_views));
        }
        Ok(())
    }
}


/// The tagged children stand as one contiguous block (possibly empty).
pub open spec fn contiguous_tagged(cs: Seq<EntryV>, tag: Seq<char>) -> bool {
    forall|a: int, b: int, c: int|
        0 <= a <= b <= c < cs.len() && is_tagged_object(cs[a], tag) && is_tagged_object(
            cs[c],
            tag,
        ) ==> is_tagged_object(cs[b], tag)
}

/// Where no entry carries the tag, nothing is extracted, everything is
/// kept, and there is no first match.
proof fn lemma_no_match(cs: Seq<EntryV>, tag: Seq<char>)
    requires
        forall|i: int| 0 <= i < cs.len() ==> !is_tagged_object(cs[i], tag),
    ensures
        matching_objects(cs, tag) =~= Seq::<ObjectV>::empty(),
        non_matching(cs, tag) =~= cs,
        first_match_index(cs, tag) == cs.len(),
    decreases cs.len(),
{
    if cs.len() > 0 {
        let rest = cs.subrange(1, cs.len() as int);
        assert(forall|i: int| 0 <= i < rest.len() ==> rest[i] == cs[i + 1]);
        lemma_no_match(rest, tag);
        assert(non_matching(cs, tag) =~= seq![cs[0]] + rest);
        assert(seq![cs[0]] + rest =~= cs);
    }
}

/// Where the tagged entries form a prefix, the sequence is exactly the
/// tagged block followed by the kept entries.
proof fn lemma_prefix_block(cs: Seq<EntryV>, tag: Seq<char>)
    requires
        forall|i: int, j: int|
            0 <= i < j < cs.len() && is_tagged_object(cs[j], tag) ==> is_tagged_object(
                cs[i],
                tag,
            ),
    ensures
        cs =~= objects_as_entries(matching_objects(cs, tag)) + non_matching(cs, tag),
    decreases cs.len(),
{
    if cs.len() > 0 {
        let rest = cs.subrange(1, cs.len() as int);
        assert(forall|i: int| 0 <= i < rest.len() ==> rest[i] == cs[i + 1]);
        if is_tagged_object(cs[0], tag) {
            assert(forall|i: int, j: int|
                0 <= i < j < rest.len() && is_tagged_object(rest[j], tag) ==> is_tagged_object(
                    rest[i],
                    tag,
                ));
            lemma_prefix_block(rest, tag);
            assert(matching_objects(cs, tag) == seq![cs[0]->Object_0] + matching_objects(
                rest,
                tag,
            ));
            assert(objects_as_entries(matching_objects(cs, tag)) =~= seq![cs[0]]
                + objects_as_entries(matching_objects(rest, tag)));
            assert(cs =~= seq![cs[0]] + rest);
        } else {
            assert(forall|j: int| 0 <= j < rest.len() ==> !is_tagged_object(rest[j], tag)) by {
                assert forall|j: int| 0 <= j < rest.len() implies !is_tagged_object(
                    rest[j],
                    tag,
                ) by {
                    if is_tagged_object(rest[j], tag) {
                        assert(is_tagged_object(cs[0], tag));
                    }
                }
            }
            lemma_no_match(rest, tag);
            assert(objects_as_entries(matching_objects(cs, tag)) =~= Seq::<EntryV>::empty());
            assert(non_matching(cs, tag) =~= seq![cs[0]] + rest);
            assert(seq![cs[0]] + rest =~= cs);
        }
    } else {
        assert(objects_as_entries(matching_objects(cs, tag)) =~= Seq::<EntryV>::empty());
    }
}

/// Extract-transform-reinsert with the identity transform: where the tagged
/// children already stand as one contiguous block, reinserting exactly the
/// extracted objects reproduces the original child sequence, order and
/// content alike.  (Where the block is scattered, the algorithm gathers it
/// at the first match, so the hypothesis is needed.)
pub proof fn lemma_modify_tracks_identity(cs: Seq<EntryV>, tag: Seq<char>)
    requires
        contiguous_tagged(cs, tag),
    ensures
        modify_tracks_result(cs, tag, matching_objects(cs, tag)) == cs,
    decreases cs.len(),
{
    lemma_first_match_bounds(cs, tag);
    let kept = non_matching(cs, tag);
    let m = matching_objects(cs, tag);
    let fm = first_match_index(cs, tag);
    let k = if fm <= kept.len() {
        fm
    } else {
        kept.len() as int
    };
    if cs.len() == 0 {
        assert(kept.subrange(0, k) =~= Seq::<EntryV>::empty());
        assert(objects_as_entries(m) =~= Seq::<EntryV>::empty());
        assert(modify_tracks_result(cs, tag, m) =~= cs);
    } else if is_tagged_object(cs[0], tag) {
        assert forall|i: int, j: int|
            0 <= i < j < cs.len() && is_tagged_object(cs[j], tag) implies is_tagged_object(
            cs[i],
            tag,
        ) by {
            assert(is_tagged_object(cs[0], tag));
        }
        lemma_prefix_block(cs, tag);
        assert(fm == 0 && k == 0);
        assert(kept.subrange(0, 0) =~= Seq::<EntryV>::empty());
        assert(kept.subrange(0, kept.len() as int) =~= kept);
        assert(modify_tracks_result(cs, tag, m) =~= objects_as_entries(m) + kept);
        assert(modify_tracks_result(cs, tag, m) =~= cs);
    } else {
        let rest = cs.subrange(1, cs.len() as int);
        assert(forall|i: int| 0 <= i < rest.len() ==> rest[i] == cs[i + 1]);
        assert(contiguous_tagged(rest, tag)) by {
            assert forall|a: int, b: int, c: int|
                0 <= a <= b <= c < rest.len() && is_tagged_object(rest[a], tag)
                    && is_tagged_object(rest[c], tag) implies is_tagged_object(rest[b], tag) by {
                assert(rest[a] == cs[a + 1] && rest[b] == cs[b + 1] && rest[c] == cs[c + 1]);
            }
        }
        lemma_modify_tracks_identity(rest, tag);
        lemma_first_match_bounds(rest, tag);
        let kept_r = non_matching(rest, tag);
        let m_r = matching_objects(rest, tag);
        let fm_r = first_match_index(rest, tag);
        let k_r = if fm_r <= kept_r.len() {
            fm_r
        } else {
            kept_r.len() as int
        };
        assert(kept == seq![cs[0]] + kept_r);
        assert(m == m_r);
        assert(fm == 1 + fm_r);
        assert(k == 1 + k_r);
        assert(kept.subrange(0, k) =~= seq![cs[0]] + kept_r.subrange(0, k_r));
        assert(kept.subrange(k, kept.len() as int) =~= kept_r.subrange(
            k_r,
            kept_r.len() as int,
        ));
        assert(modify_tracks_result(rest, tag, m_r) == rest);
        assert(modify_tracks_result(cs, tag, m) =~= seq![cs[0]] + (kept_r.subrange(0, k_r)
            + objects_as_entries(m_r) + kept_r.subrange(k_r, kept_r.len() as int)));
        assert(seq![cs[0]] + rest =~= cs);
        assert(modify_tracks_result(cs, tag, m) =~= cs);
    }
}

} // verus!
