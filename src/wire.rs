use vstd::prelude::*;
use indexmap::IndexMap;

verus! {

/// Leaves that stand for R values which would otherwise collide on the wire.
/// On the wire each is a one-entry map from the key `$R_TYPE` to its name.
#[derive(Clone, Copy, Debug, PartialEq, Eq, Structural)]
pub enum SpecialTaggedValue {
    Null,
    NA,
    EmptyList,
    EmptyLogicalVec,
    EmptyIntegerVec,
    EmptyFloatVec,
    EmptyStringVec,
}

/// A value of the wire model. Numbers are held as their IEEE-754 bit pattern.
#[derive(Debug, PartialEq)]
pub enum RValue {
    Special(SpecialTaggedValue),
    Float(u64),
    Bool(bool),
    String(String),
    Array(Vec<RValue>),
    Object(Fields),
}

/// The fields of a map value: names distinct, in the order they were first
/// put in. Two are equal when they hold the same entries, in any order.
#[verifier::external_body]
#[derive(Debug, PartialEq)]
pub struct Fields {
    map: IndexMap<String, RValue>,
}

/// What a `Fields` holds, in order.
pub uninterp spec fn field_entries(f: Fields) -> Seq<(Seq<char>, WireView)>;

/// The mathematical model of an `RValue`.
pub enum WireView {
    Special(SpecialTaggedValue),
    Float(u64),
    Bool(bool),
    Text(Seq<char>),
    Array(Seq<WireView>),
    Object(Seq<(Seq<char>, WireView)>),
}

pub open spec fn wire_view(v: RValue) -> WireView
    decreases v,
{
    match v {
        RValue::Special(t) => WireView::Special(t),
        RValue::Float(b) => WireView::Float(b),
        RValue::Bool(b) => WireView::Bool(b),
        RValue::String(s) => WireView::Text(s@),
        RValue::Array(items) => WireView::Array(items_view(items@)),
        RValue::Object(fields) => WireView::Object(field_entries(fields)),
    }
}

pub open spec fn items_view(s: Seq<RValue>) -> Seq<WireView>
    decreases s,
{
    if s.len() == 0 {
        Seq::empty()
    } else {
        items_view(s.subrange(0, s.len() - 1)).push(wire_view(s[s.len() - 1]))
    }
}

pub proof fn lemma_items_view(s: Seq<RValue>)
    ensures
        items_view(s).len() == s.len(),
        forall|i: int| 0 <= i < s.len() ==> #[trigger] items_view(s)[i] == wire_view(s[i]),
    decreases s.len(),
{
    if s.len() > 0 {
        lemma_items_view(s.subrange(0, s.len() - 1));
    }
}

impl View for RValue {
    type V = WireView;

    open spec fn view(&self) -> WireView {
        wire_view(*self)
    }
}

pub open spec fn keys_distinct(fs: Seq<(Seq<char>, WireView)>) -> bool {
    forall|i: int, j: int| 0 <= i < j < fs.len() ==> fs[i].0 != fs[j].0
}

/// `fs` with `(k, v)` put in: an existing field `k` takes the new value in
/// its place, else the field is appended.
pub open spec fn put_field(fs: Seq<(Seq<char>, WireView)>, k: Seq<char>, v: WireView) -> Seq<
    (Seq<char>, WireView),
> {
    if exists|i: int| 0 <= i < fs.len() && fs[i].0 == k {
        let i = choose|i: int| 0 <= i < fs.len() && fs[i].0 == k;
        fs.update(i, (k, v))
    } else {
        fs.push((k, v))
    }
}

/// Relies on `IndexMap::new`: a map with no entries.
#[verifier::external_body]
fn map_new() -> (r: Fields)
    ensures
        field_entries(r) == Seq::<(Seq<char>, WireView)>::empty(),
{
    Fields { map: IndexMap::new() }
}

/// Relies on `IndexMap::insert`: an entry with an equal key keeps its place
/// and takes the new value; otherwise the entry is appended.
#[verifier::external_body]
fn map_insert(f: &mut Fields, k: String, v: RValue)
    ensures
        field_entries(*final(f)) == put_field(field_entries(*old(f)), k@, v@),
{
    f.map.insert(k, v);
}

/// Relies on `IndexMap::len`: the number of entries.
#[verifier::external_body]
fn map_len(f: &Fields) -> (r: usize)
    ensures
        r == field_entries(*f).len(),
{
    f.map.len()
}

/// Relies on `IndexMap::get_index`: the entry at position `i`, if there is one.
#[verifier::external_body]
fn map_get_index(f: &Fields, i: usize) -> (r: Option<(&String, &RValue)>)
    ensures
        i < field_entries(*f).len() ==> r is Some && ((r->Some_0).0@, (r->Some_0).1@) == field_entries(*f)[i as int],
        i >= field_entries(*f).len() ==> r is None,
{
    f.map.get_index(i)
}

impl Fields {
    /// No fields.
    pub fn new() -> (r: Fields)
        ensures
            field_entries(r) == Seq::<(Seq<char>, WireView)>::empty(),
    {
        map_new()
    }

    /// Puts a field in: a field of the same name takes the new value in its
    /// place, else the field goes last.
    pub fn insert(&mut self, k: String, v: RValue)
        ensures
            field_entries(*final(self)) == put_field(field_entries(*old(self)), k@, v@),
    {
        map_insert(self, k, v)
    }

    /// The number of fields.
    pub fn len(&self) -> (r: usize)
        ensures
            r == field_entries(*self).len(),
    {
        map_len(self)
    }

    /// The field at position `i`, if there is one.
    pub fn entry(&self, i: usize) -> (r: Option<(&String, &RValue)>)
        ensures
            i < field_entries(*self).len() ==> r is Some && ((r->Some_0).0@, (r->Some_0).1@)
                == field_entries(*self)[i as int],
            i >= field_entries(*self).len() ==> r is None,
    {
        map_get_index(self, i)
    }
}

} // verus!
