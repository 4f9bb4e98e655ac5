use vstd::prelude::*;
use crate::error::{EncodeError, EncodeFailure};
use crate::host::{
    HostView, RObject, canonical_bits, canonicalize_nan, lemma_named_view, lemma_objects_view,
    named_view, objects_view, opt_str_view,
};
use crate::wire::{
    Fields, RValue, SpecialTaggedValue, WireView, field_entries, items_view, lemma_items_view,
    put_field,
};

verus! {

/// The key of the one-entry map that stands for a special leaf on the wire.
pub open spec fn reserved_key() -> Seq<char> {
    seq!['$', 'R', '_', 'T', 'Y', 'P', 'E']
}

pub fn reserved_key_string() -> (r: String)
    ensures
        r@ == reserved_key(),
{
    let r = String::from_str("$R_TYPE");
    proof {
        reveal_strlit("$R_TYPE");
        assert(r@ =~= reserved_key());
    }
    r
}

pub open spec fn logical_wire(x: Option<bool>) -> WireView {
    match x {
        Some(b) => WireView::Bool(b),
        None => WireView::Special(SpecialTaggedValue::NA),
    }
}

pub open spec fn double_wire(x: Option<u64>) -> WireView {
    match x {
        Some(b) => WireView::Float(canonical_bits(b)),
        None => WireView::Special(SpecialTaggedValue::NA),
    }
}

pub open spec fn character_wire(x: Option<Seq<char>>) -> WireView {
    match x {
        Some(s) => WireView::Text(s),
        None => WireView::Special(SpecialTaggedValue::NA),
    }
}

/// An atomic vector: a tag when empty, its element alone when of length one,
/// and an array of its elements otherwise.
pub open spec fn vector_wire(ws: Seq<WireView>, empty: SpecialTaggedValue) -> WireView {
    if ws.len() == 0 {
        WireView::Special(empty)
    } else if ws.len() == 1 {
        ws[0]
    } else {
        WireView::Array(ws)
    }
}

/// The fields with repeated names merged: each name once, where it first
/// appeared, with the value it was last given.
pub open spec fn collapse(fs: Seq<(Seq<char>, WireView)>) -> Seq<(Seq<char>, WireView)>
    decreases fs.len(),
{
    if fs.len() == 0 {
        Seq::empty()
    } else {
        let last = fs[fs.len() - 1];
        put_field(collapse(fs.subrange(0, fs.len() - 1)), last.0, last.1)
    }
}

/// The wire value of an R value (meaningful where `encode_failure` is `None`).
pub open spec fn wire_of(h: HostView) -> WireView
    decreases h,
{
    match h {
        HostView::Null => WireView::Special(SpecialTaggedValue::Null),
        HostView::Logical(xs) => vector_wire(
            xs.map_values(|x: Option<bool>| logical_wire(x)),
            SpecialTaggedValue::EmptyLogicalVec,
        ),
        HostView::Double(xs) => vector_wire(
            xs.map_values(|x: Option<u64>| double_wire(x)),
            SpecialTaggedValue::EmptyFloatVec,
        ),
        HostView::Character(xs) => vector_wire(
            xs.map_values(|x: Option<Seq<char>>| character_wire(x)),
            SpecialTaggedValue::EmptyStringVec,
        ),
        HostView::List(items) => if items.len() == 0 {
            WireView::Special(SpecialTaggedValue::EmptyList)
        } else {
            WireView::Array(wire_list(items))
        },
        HostView::NamedList(fs) => if fs.len() == 0 {
            WireView::Special(SpecialTaggedValue::EmptyList)
        } else {
            WireView::Object(collapse(wire_named(fs)))
        },
        HostView::Unsupported(_) => WireView::Special(SpecialTaggedValue::Null),
    }
}

pub open spec fn wire_list(s: Seq<HostView>) -> Seq<WireView>
    decreases s,
{
    if s.len() == 0 {
        Seq::empty()
    } else {
        wire_list(s.subrange(0, s.len() - 1)).push(wire_of(s[s.len() - 1]))
    }
}

pub open spec fn wire_named(s: Seq<(Seq<char>, HostView)>) -> Seq<(Seq<char>, WireView)>
    decreases s,
{
    if s.len() == 0 {
        Seq::empty()
    } else {
        let last = s[s.len() - 1];
        wire_named(s.subrange(0, s.len() - 1)).push((last.0, wire_of(last.1)))
    }
}

/// The first failure met in a depth-first walk of `h`, if any.
pub open spec fn encode_failure(h: HostView) -> Option<EncodeFailure>
    decreases h,
{
    match h {
        HostView::Unsupported(n) => Some(EncodeFailure::UnsupportedType(n)),
        HostView::List(items) => list_failure(items),
        HostView::NamedList(fs) => named_failure(fs),
        _ => None,
    }
}

pub open spec fn list_failure(s: Seq<HostView>) -> Option<EncodeFailure>
    decreases s,
{
    if s.len() == 0 {
        None
    } else {
        match list_failure(s.subrange(0, s.len() - 1)) {
            Some(e) => Some(e),
            None => encode_failure(s[s.len() - 1]),
        }
    }
}

pub open spec fn named_failure(s: Seq<(Seq<char>, HostView)>) -> Option<EncodeFailure>
    decreases s,
{
    if s.len() == 0 {
        None
    } else {
        match named_failure(s.subrange(0, s.len() - 1)) {
            Some(e) => Some(e),
            None => if s[s.len() - 1].0 == reserved_key() {
                Some(EncodeFailure::ReservedName)
            } else {
                encode_failure(s[s.len() - 1].1)
            },
        }
    }
}

pub proof fn lemma_wire_list(s: Seq<HostView>)
    ensures
        wire_list(s).len() == s.len(),
        forall|i: int| 0 <= i < s.len() ==> #[trigger] wire_list(s)[i] == wire_of(s[i]),
    decreases s.len(),
{
    if s.len() > 0 {
        lemma_wire_list(s.subrange(0, s.len() - 1));
    }
}

pub proof fn lemma_wire_named(s: Seq<(Seq<char>, HostView)>)
    ensures
        wire_named(s).len() == s.len(),
        forall|i: int|
            0 <= i < s.len() ==> #[trigger] wire_named(s)[i] == (s[i].0, wire_of(s[i].1)),
    decreases s.len(),
{
    if s.len() > 0 {
        lemma_wire_named(s.subrange(0, s.len() - 1));
    }
}

/// A failure in a prefix is the failure of the whole list.
pub proof fn lemma_list_failure_prefix(s: Seq<HostView>, k: int)
    requires
        0 <= k <= s.len(),
        list_failure(s.subrange(0, k)) is Some,
    ensures
        list_failure(s) == list_failure(s.subrange(0, k)),
    decreases s.len() - k,
{
    if k < s.len() {
        assert(s.subrange(0, k + 1).subrange(0, k) =~= s.subrange(0, k));
        lemma_list_failure_prefix(s, k + 1);
    } else {
        assert(s.subrange(0, k) =~= s);
    }
}

pub proof fn lemma_named_failure_prefix(s: Seq<(Seq<char>, HostView)>, k: int)
    requires
        0 <= k <= s.len(),
        named_failure(s.subrange(0, k)) is Some,
    ensures
        named_failure(s) == named_failure(s.subrange(0, k)),
    decreases s.len() - k,
{
    if k < s.len() {
        assert(s.subrange(0, k + 1).subrange(0, k) =~= s.subrange(0, k));
        lemma_named_failure_prefix(s, k + 1);
    } else {
        assert(s.subrange(0, k) =~= s);
    }
}

/// An atomic vector's wire value from the wire values of its elements.
fn finish_vector(out: Vec<RValue>, empty: SpecialTaggedValue) -> (r: RValue)
    ensures
        r@ == vector_wire(items_view(out@), empty),
{
    proof {
        lemma_items_view(out@);
    }
    if out.len() == 0 {
        RValue::Special(empty)
    } else if out.len() == 1 {
        let mut out = out;
        match out.pop() {
            Some(x) => x,
            None => RValue::Special(empty),
        }
    } else {
        RValue::Array(out)
    }
}

fn logical_to_wire(xs: &Vec<Option<bool>>) -> (r: RValue)
    ensures
        r@ == wire_of(HostView::Logical(xs@)),
{
    let mut out: Vec<RValue> = Vec::new();
    let mut i: usize = 0;
    while i < xs.len()
        invariant
            i <= xs.len(),
            out.len() == i,
            forall|j: int| 0 <= j < i ==> (#[trigger] out@[j])@ == logical_wire(xs@[j]),
        decreases xs.len() - i,
    {
        let w = match xs[i] {
            Some(b) => RValue::Bool(b),
            None => RValue::Special(SpecialTaggedValue::NA),
        };
        out.push(w);
        i = i + 1;
    }
    proof {
        lemma_items_view(out@);
        assert(items_view(out@) =~= xs@.map_values(|x: Option<bool>| logical_wire(x)));
    }
    finish_vector(out, SpecialTaggedValue::EmptyLogicalVec)
}

fn double_to_wire(xs: &Vec<Option<u64>>) -> (r: RValue)
    ensures
        r@ == wire_of(HostView::Double(xs@)),
{
    let mut out: Vec<RValue> = Vec::new();
    let mut i: usize = 0;
    while i < xs.len()
        invariant
            i <= xs.len(),
            out.len() == i,
            forall|j: int| 0 <= j < i ==> (#[trigger] out@[j])@ == double_wire(xs@[j]),
        decreases xs.len() - i,
    {
        let w = match xs[i] {
            Some(b) => RValue::Float(canonicalize_nan(b)),
            None => RValue::Special(SpecialTaggedValue::NA),
        };
        out.push(w);
        i = i + 1;
    }
    proof {
        lemma_items_view(out@);
        assert(items_view(out@) =~= xs@.map_values(|x: Option<u64>| double_wire(x)));
    }
    finish_vector(out, SpecialTaggedValue::EmptyFloatVec)
}

fn character_to_wire(xs: &Vec<Option<String>>) -> (r: RValue)
    ensures
        r@ == wire_of(HostView::Character(xs@.map_values(|x: Option<String>| opt_str_view(x)))),
{
    let ghost xv = xs@.map_values(|x: Option<String>| opt_str_view(x));
    let mut out: Vec<RValue> = Vec::new();
    let mut i: usize = 0;
    while i < xs.len()
        invariant
            i <= xs.len(),
            out.len() == i,
            xv == xs@.map_values(|x: Option<String>| opt_str_view(x)),
            forall|j: int| 0 <= j < i ==> (#[trigger] out@[j])@ == character_wire(xv[j]),
        decreases xs.len() - i,
    {
        let w = match &xs[i] {
            Some(s) => RValue::String(s.clone()),
            None => RValue::Special(SpecialTaggedValue::NA),
        };
        out.push(w);
        i = i + 1;
    }
    proof {
        lemma_items_view(out@);
        assert(items_view(out@) =~= xv.map_values(|x: Option<Seq<char>>| character_wire(x)));
    }
    finish_vector(out, SpecialTaggedValue::EmptyStringVec)
}

impl RValue {
    /// Converts an R value into its wire value, or names the first part of
    /// it that has no wire mapping.
    pub fn from_robj(robj: &RObject) -> (r: Result<RValue, EncodeError>)
        ensures
            match r {
                Ok(w) => encode_failure(robj@) is None && w@ == wire_of(robj@),
                Err(e) => encode_failure(robj@) == Some(e@),
            },
        decreases robj, 1int,
    {
        match robj {
            RObject::Null => Ok(RValue::Special(SpecialTaggedValue::Null)),
            RObject::Logical(xs) => Ok(logical_to_wire(xs)),
            RObject::Double(xs) => Ok(double_to_wire(xs)),
            RObject::Character(xs) => Ok(character_to_wire(xs)),
            RObject::List(items) => list_to_wire(robj, items),
            RObject::NamedList(fields) => named_to_wire(robj, fields),
            RObject::Unsupported(name) => Err(EncodeError::UnsupportedType(name.clone())),
        }
    }
}

fn list_to_wire(robj: &RObject, items: &Vec<RObject>) -> (r: Result<RValue, EncodeError>)
    requires
        *robj == RObject::List(*items),
    ensures
        match r {
            Ok(w) => encode_failure(robj@) is None && w@ == wire_of(robj@),
            Err(e) => encode_failure(robj@) == Some(e@),
        },
    decreases robj, 0int,
{
    let ghost hv = objects_view(items@);
    proof {
        lemma_objects_view(items@);
    }
    if items.len() == 0 {
        return Ok(RValue::Special(SpecialTaggedValue::EmptyList));
    }
    let mut out: Vec<RValue> = Vec::new();
    let mut i: usize = 0;
    while i < items.len()
        invariant
            *robj == RObject::List(*items),
            hv == objects_view(items@),
            hv.len() == items.len(),
            forall|j: int| 0 <= j < hv.len() ==> #[trigger] hv[j] == items@[j]@,
            i <= items.len(),
            out.len() == i,
            forall|j: int| 0 <= j < i ==> (#[trigger] out@[j])@ == wire_of(hv[j]),
            list_failure(hv.subrange(0, i as int)) is None,
        decreases items.len() - i,
    {
        proof {
            assert(hv.subrange(0, i + 1).subrange(0, i as int) =~= hv.subrange(0, i as int));
        }
        match RValue::from_robj(&items[i]) {
            Ok(w) => out.push(w),
            Err(e) => {
                proof {
                    lemma_list_failure_prefix(hv, i + 1);
                }
                return Err(e);
            },
        }
        i = i + 1;
    }
    proof {
        assert(hv.subrange(0, i as int) =~= hv);
        lemma_items_view(out@);
        lemma_wire_list(hv);
        assert(items_view(out@) =~= wire_list(hv));
    }
    Ok(RValue::Array(out))
}

fn named_to_wire(robj: &RObject, fields: &Vec<(String, RObject)>) -> (r: Result<
    RValue,
    EncodeError,
>)
    requires
        *robj == RObject::NamedList(*fields),
    ensures
        match r {
            Ok(w) => encode_failure(robj@) is None && w@ == wire_of(robj@),
            Err(e) => encode_failure(robj@) == Some(e@),
        },
    decreases robj, 0int,
{
    let ghost nv = named_view(fields@);
    let ghost wn = wire_named(nv);
    proof {
        lemma_named_view(fields@);
        lemma_wire_named(nv);
    }
    if fields.len() == 0 {
        return Ok(RValue::Special(SpecialTaggedValue::EmptyList));
    }
    let reserved = reserved_key_string();
    let mut out = Fields::new();
    let mut i: usize = 0;
    proof {
        assert(field_entries(out) =~= collapse(wn.subrange(0, 0)));
    }
    while i < fields.len()
        invariant
            *robj == RObject::NamedList(*fields),
            reserved@ == reserved_key(),
            nv == named_view(fields@),
            wn == wire_named(nv),
            nv.len() == fields.len(),
            wn.len() == fields.len(),
            forall|j: int|
                0 <= j < nv.len() ==> #[trigger] nv[j] == (fields@[j].0@, fields@[j].1@),
            forall|j: int| 0 <= j < nv.len() ==> #[trigger] wn[j] == (nv[j].0, wire_of(nv[j].1)),
            i <= fields.len(),
            field_entries(out) == collapse(wn.subrange(0, i as int)),
            named_failure(nv.subrange(0, i as int)) is None,
        decreases fields.len() - i,
    {
        proof {
            assert(nv.subrange(0, i + 1).subrange(0, i as int) =~= nv.subrange(0, i as int));
            assert(wn.subrange(0, i + 1).subrange(0, i as int) =~= wn.subrange(0, i as int));
        }
        if fields[i].0 == reserved {
            proof {
                lemma_named_failure_prefix(nv, i + 1);
            }
            return Err(EncodeError::ReservedName);
        }
        match RValue::from_robj(&fields[i].1) {
            Ok(w) => out.insert(fields[i].0.clone(), w),
            Err(e) => {
                proof {
                    lemma_named_failure_prefix(nv, i + 1);
                }
                return Err(e);
            },
        }
        i = i + 1;
    }
    proof {
        assert(nv.subrange(0, i as int) =~= nv);
        assert(wn.subrange(0, i as int) =~= wn);
    }
    Ok(RValue::Object(out))
}

} // verus!
