use vstd::prelude::*;

verus! {

/// An R value as the adapter sees it. Doubles are held as IEEE-754 bit
/// patterns; `None` in a vector is R's `NA`.
#[derive(Debug, PartialEq)]
pub enum RObject {
    Null,
    Logical(Vec<Option<bool>>),
    Double(Vec<Option<u64>>),
    Character(Vec<Option<String>>),
    List(Vec<RObject>),
    NamedList(Vec<(String, RObject)>),
    /// A value of a type with no wire mapping, with the name of its type.
    Unsupported(String),
}

/// The mathematical model of an `RObject`.
pub enum HostView {
    Null,
    Logical(Seq<Option<bool>>),
    Double(Seq<Option<u64>>),
    Character(Seq<Option<Seq<char>>>),
    List(Seq<HostView>),
    NamedList(Seq<(Seq<char>, HostView)>),
    Unsupported(Seq<char>),
}

pub open spec fn opt_str_view(x: Option<String>) -> Option<Seq<char>> {
    match x {
        Some(s) => Some(s@),
        None => None,
    }
}

pub open spec fn host_view(h: RObject) -> HostView
    decreases h,
{
    match h {
        RObject::Null => HostView::Null,
        RObject::Logical(xs) => HostView::Logical(xs@),
        RObject::Double(xs) => HostView::Double(xs@),
        RObject::Character(xs) => HostView::Character(xs@.map_values(|x: Option<String>| opt_str_view(x))),
        RObject::List(items) => HostView::List(objects_view(items@)),
        RObject::NamedList(fields) => HostView::NamedList(named_view(fields@)),
        RObject::Unsupported(name) => HostView::Unsupported(name@),
    }
}

pub open spec fn objects_view(s: Seq<RObject>) -> Seq<HostView>
    decreases s,
{
    if s.len() == 0 {
        Seq::empty()
    } else {
        objects_view(s.subrange(0, s.len() - 1)).push(host_view(s[s.len() - 1]))
    }
}

pub open spec fn named_view(s: Seq<(String, RObject)>) -> Seq<(Seq<char>, HostView)>
    decreases s,
{
    if s.len() == 0 {
        Seq::empty()
    } else {
        let last = s[s.len() - 1];
        named_view(s.subrange(0, s.len() - 1)).push((last.0@, host_view(last.1)))
    }
}

pub proof fn lemma_objects_view(s: Seq<RObject>)
    ensures
        objects_view(s).len() == s.len(),
        forall|i: int| 0 <= i < s.len() ==> #[trigger] objects_view(s)[i] == host_view(s[i]),
    decreases s.len(),
{
    if s.len() > 0 {
        lemma_objects_view(s.subrange(0, s.len() - 1));
    }
}

pub proof fn lemma_named_view(s: Seq<(String, RObject)>)
    ensures
        named_view(s).len() == s.len(),
        forall|i: int|
            0 <= i < s.len() ==> #[trigger] named_view(s)[i] == (s[i].0@, host_view(s[i].1)),
    decreases s.len(),
{
    if s.len() > 0 {
        lemma_named_view(s.subrange(0, s.len() - 1));
    }
}

impl View for RObject {
    type V = HostView;

    open spec fn view(&self) -> HostView {
        host_view(*self)
    }
}

/// Exponent field all ones and a non-zero fraction.
pub open spec fn is_nan_bits(b: u64) -> bool {
    (b >> 52u64) & 0x7ffu64 == 0x7ffu64 && b & 0xf_ffff_ffff_ffffu64 != 0
}

/// The bit pattern of the quiet NaN that every NaN is written as.
pub const CANONICAL_NAN: u64 = 0x7ff8_0000_0000_0000;

pub open spec fn canonical_bits(b: u64) -> u64 {
    if is_nan_bits(b) {
        CANONICAL_NAN
    } else {
        b
    }
}

/// Replaces any NaN bit pattern by the canonical one; other numbers,
/// infinities included, keep their bits.
pub fn canonicalize_nan(b: u64) -> (r: u64)
    ensures
        r == canonical_bits(b),
        is_nan_bits(b) <==> is_nan_bits(r),
{
    assert(is_nan_bits(CANONICAL_NAN)) by (bit_vector);
    if (b >> 52u64) & 0x7ffu64 == 0x7ffu64 && b & 0xf_ffff_ffff_ffffu64 != 0 {
        CANONICAL_NAN
    } else {
        b
    }
}

} // verus!
