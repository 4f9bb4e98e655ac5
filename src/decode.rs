use vstd::prelude::*;
use crate::encode::{reserved_key, reserved_key_string};
use crate::error::{DecodeError, DecodeFailure};
use crate::host::{HostView, RObject, host_view, lemma_named_view, lemma_objects_view, named_view, objects_view, opt_str_view};
use crate::wire::{
    Fields, RValue, SpecialTaggedValue, WireView, field_entries, items_view, lemma_items_view,
};

verus! {

/// The tag that a name on the wire stands for. The names of the variants are
/// accepted, and `EmptyBoolVec` and `EmptyNumVec` as other names of the empty
/// logical and numeric vectors.
pub open spec fn tag_named(name: Seq<char>) -> Option<SpecialTaggedValue> {
    if name == "Null"@ {
        Some(SpecialTaggedValue::Null)
    } else if name == "NA"@ {
        Some(SpecialTaggedValue::NA)
    } else if name == "EmptyList"@ {
        Some(SpecialTaggedValue::EmptyList)
    } else if name == "EmptyLogicalVec"@ || name == "EmptyBoolVec"@ {
        Some(SpecialTaggedValue::EmptyLogicalVec)
    } else if name == "EmptyIntegerVec"@ {
        Some(SpecialTaggedValue::EmptyIntegerVec)
    } else if name == "EmptyFloatVec"@ || name == "EmptyNumVec"@ {
        Some(SpecialTaggedValue::EmptyFloatVec)
    } else if name == "EmptyStringVec"@ {
        Some(SpecialTaggedValue::EmptyStringVec)
    } else {
        None
    }
}

fn is_name(s: &String, lit: &str) -> (r: bool)
    ensures
        r == (s@ == lit@),
{
    let l = String::from_str(lit);
    *s == l
}

/// Looks up the tag that `name` stands for.
pub fn tag_from_name(name: &String) -> (r: Option<SpecialTaggedValue>)
    ensures
        r == tag_named(name@),
{
    if is_name(name, "Null") {
        Some(SpecialTaggedValue::Null)
    } else if is_name(name, "NA") {
        Some(SpecialTaggedValue::NA)
    } else if is_name(name, "EmptyList") {
        Some(SpecialTaggedValue::EmptyList)
    } else if is_name(name, "EmptyLogicalVec") || is_name(name, "EmptyBoolVec") {
        Some(SpecialTaggedValue::EmptyLogicalVec)
    } else if is_name(name, "EmptyIntegerVec") {
        Some(SpecialTaggedValue::EmptyIntegerVec)
    } else if is_name(name, "EmptyFloatVec") || is_name(name, "EmptyNumVec") {
        Some(SpecialTaggedValue::EmptyFloatVec)
    } else if is_name(name, "EmptyStringVec") {
        Some(SpecialTaggedValue::EmptyStringVec)
    } else {
        None
    }
}

/// The R value a special leaf stands for. Both empty numeric tags give an
/// empty double vector.
pub open spec fn special_host(t: SpecialTaggedValue) -> HostView {
    match t {
        SpecialTaggedValue::Null => HostView::Null,
        SpecialTaggedValue::NA => HostView::Logical(seq![None]),
        SpecialTaggedValue::EmptyList => HostView::List(Seq::empty()),
        SpecialTaggedValue::EmptyLogicalVec => HostView::Logical(Seq::empty()),
        SpecialTaggedValue::EmptyIntegerVec => HostView::Double(Seq::empty()),
        SpecialTaggedValue::EmptyFloatVec => HostView::Double(Seq::empty()),
        SpecialTaggedValue::EmptyStringVec => HostView::Character(Seq::empty()),
    }
}

pub open spec fn is_na(w: WireView) -> bool {
    w == WireView::Special(SpecialTaggedValue::NA)
}

pub open spec fn all_logical(ws: Seq<WireView>) -> bool {
    forall|i: int| 0 <= i < ws.len() ==> (#[trigger] ws[i] is Bool || is_na(ws[i]))
}

pub open spec fn all_double(ws: Seq<WireView>) -> bool {
    forall|i: int| 0 <= i < ws.len() ==> (#[trigger] ws[i] is Float || is_na(ws[i]))
}

pub open spec fn all_text(ws: Seq<WireView>) -> bool {
    forall|i: int| 0 <= i < ws.len() ==> (#[trigger] ws[i] is Text || is_na(ws[i]))
}

pub open spec fn as_logical(w: WireView) -> Option<bool> {
    match w {
        WireView::Bool(b) => Some(b),
        _ => None,
    }
}

pub open spec fn as_double(w: WireView) -> Option<u64> {
    match w {
        WireView::Float(b) => Some(b),
        _ => None,
    }
}

pub open spec fn as_text(w: WireView) -> Option<Seq<char>> {
    match w {
        WireView::Text(s) => Some(s),
        _ => None,
    }
}

/// A one-entry map keyed by the discriminator: a special leaf on the wire.
pub open spec fn is_tag_shaped(fs: Seq<(Seq<char>, WireView)>) -> bool {
    fs.len() == 1 && fs[0].0 == reserved_key()
}

/// The R value of a wire value (meaningful where `decode_failure` is `None`).
pub open spec fn host_of(w: WireView) -> HostView
    decreases w,
{
    match w {
        WireView::Special(t) => special_host(t),
        WireView::Float(b) => HostView::Double(seq![Some(b)]),
        WireView::Bool(b) => HostView::Logical(seq![Some(b)]),
        WireView::Text(s) => HostView::Character(seq![Some(s)]),
        WireView::Array(ws) => if all_logical(ws) {
            HostView::Logical(ws.map_values(|x: WireView| as_logical(x)))
        } else if all_double(ws) {
            HostView::Double(ws.map_values(|x: WireView| as_double(x)))
        } else if all_text(ws) {
            HostView::Character(ws.map_values(|x: WireView| as_text(x)))
        } else {
            HostView::List(host_list(ws))
        },
        WireView::Object(fs) => if is_tag_shaped(fs) {
            match fs[0].1 {
                WireView::Text(n) => match tag_named(n) {
                    Some(t) => special_host(t),
                    None => HostView::Null,
                },
                _ => HostView::Null,
            }
        } else {
            HostView::NamedList(host_named(fs))
        },
    }
}

pub open spec fn host_list(s: Seq<WireView>) -> Seq<HostView>
    decreases s,
{
    if s.len() == 0 {
        Seq::empty()
    } else {
        host_list(s.subrange(0, s.len() - 1)).push(host_of(s[s.len() - 1]))
    }
}

pub open spec fn host_named(s: Seq<(Seq<char>, WireView)>) -> Seq<(Seq<char>, HostView)>
    decreases s,
{
    if s.len() == 0 {
        Seq::empty()
    } else {
        let last = s[s.len() - 1];
        host_named(s.subrange(0, s.len() - 1)).push((last.0, host_of(last.1)))
    }
}

/// The first failure met in a depth-first walk of `w`, if any.
pub open spec fn decode_failure(w: WireView) -> Option<DecodeFailure>
    decreases w,
{
    match w {
        WireView::Array(ws) => if all_logical(ws) || all_double(ws) || all_text(ws) {
            None
        } else {
            items_failure(ws)
        },
        WireView::Object(fs) => if is_tag_shaped(fs) {
            match fs[0].1 {
                WireView::Text(n) => if tag_named(n) is Some {
                    None
                } else {
                    Some(DecodeFailure::UnknownTag(n))
                },
                _ => Some(DecodeFailure::Malformed),
            }
        } else {
            fields_failure(fs)
        },
        _ => None,
    }
}

pub open spec fn items_failure(s: Seq<WireView>) -> Option<DecodeFailure>
    decreases s,
{
    if s.len() == 0 {
        None
    } else {
        match items_failure(s.subrange(0, s.len() - 1)) {
            Some(e) => Some(e),
            None => decode_failure(s[s.len() - 1]),
        }
    }
}

pub open spec fn fields_failure(s: Seq<(Seq<char>, WireView)>) -> Option<DecodeFailure>
    decreases s,
{
    if s.len() == 0 {
        None
    } else {
        match fields_failure(s.subrange(0, s.len() - 1)) {
            Some(e) => Some(e),
            None => decode_failure(s[s.len() - 1].1),
        }
    }
}

pub proof fn lemma_host_list(s: Seq<WireView>)
    ensures
        host_list(s).len() == s.len(),
        forall|i: int| 0 <= i < s.len() ==> #[trigger] host_list(s)[i] == host_of(s[i]),
    decreases s.len(),
{
    if s.len() > 0 {
        lemma_host_list(s.subrange(0, s.len() - 1));
    }
}

pub proof fn lemma_host_named(s: Seq<(Seq<char>, WireView)>)
    ensures
        host_named(s).len() == s.len(),
        forall|i: int|
            0 <= i < s.len() ==> #[trigger] host_named(s)[i] == (s[i].0, host_of(s[i].1)),
    decreases s.len(),
{
    if s.len() > 0 {
        lemma_host_named(s.subrange(0, s.len() - 1));
    }
}

pub proof fn lemma_items_failure_prefix(s: Seq<WireView>, k: int)
    requires
        0 <= k <= s.len(),
        items_failure(s.subrange(0, k)) is Some,
    ensures
        items_failure(s) == items_failure(s.subrange(0, k)),
    decreases s.len() - k,
{
    if k < s.len() {
        assert(s.subrange(0, k + 1).subrange(0, k) =~= s.subrange(0, k));
        lemma_items_failure_prefix(s, k + 1);
    } else {
        assert(s.subrange(0, k) =~= s);
    }
}

pub proof fn lemma_fields_failure_prefix(s: Seq<(Seq<char>, WireView)>, k: int)
    requires
        0 <= k <= s.len(),
        fields_failure(s.subrange(0, k)) is Some,
    ensures
        fields_failure(s) == fields_failure(s.subrange(0, k)),
    decreases s.len() - k,
{
    if k < s.len() {
        assert(s.subrange(0, k + 1).subrange(0, k) =~= s.subrange(0, k));
        lemma_fields_failure_prefix(s, k + 1);
    } else {
        assert(s.subrange(0, k) =~= s);
    }
}

fn special_to_host(t: SpecialTaggedValue) -> (r: RObject)
    ensures
        r@ == special_host(t),
{
    match t {
        SpecialTaggedValue::Null => RObject::Null,
        SpecialTaggedValue::NA => {
            let mut xs: Vec<Option<bool>> = Vec::new();
            xs.push(None);
            proof {
                assert(xs@ =~= seq![None]);
            }
            RObject::Logical(xs)
        },
        SpecialTaggedValue::EmptyList => {
            let items: Vec<RObject> = Vec::new();
            proof {
                assert(objects_view(items@) =~= Seq::empty());
            }
            RObject::List(items)
        },
        SpecialTaggedValue::EmptyLogicalVec => RObject::Logical(Vec::new()),
        SpecialTaggedValue::EmptyIntegerVec => RObject::Double(Vec::new()),
        SpecialTaggedValue::EmptyFloatVec => RObject::Double(Vec::new()),
        SpecialTaggedValue::EmptyStringVec => {
            let xs: Vec<Option<String>> = Vec::new();
            proof {
                assert(xs@.map_values(|x: Option<String>| opt_str_view(x)) =~= Seq::empty());
            }
            RObject::Character(xs)
        },
    }
}

/// Whether the items are, in turn, all logical, all numeric, all text
/// (`NA` counting as each).
fn scan_array(items: &Vec<RValue>) -> (r: (bool, bool, bool))
    ensures
        r.0 == all_logical(items_view(items@)),
        r.1 == all_double(items_view(items@)),
        r.2 == all_text(items_view(items@)),
{
    let ghost iv = items_view(items@);
    proof {
        lemma_items_view(items@);
    }
    let mut lg = true;
    let mut dbl = true;
    let mut txt = true;
    let mut i: usize = 0;
    while i < items.len()
        invariant
            iv == items_view(items@),
            iv.len() == items.len(),
            forall|j: int| 0 <= j < iv.len() ==> #[trigger] iv[j] == items@[j]@,
            i <= items.len(),
            lg == (forall|j: int| 0 <= j < i ==> (#[trigger] iv[j] is Bool || is_na(iv[j]))),
            dbl == (forall|j: int| 0 <= j < i ==> (#[trigger] iv[j] is Float || is_na(iv[j]))),
            txt == (forall|j: int| 0 <= j < i ==> (#[trigger] iv[j] is Text || is_na(iv[j]))),
        decreases items.len() - i,
    {
        let (b, f, t, na) = match &items[i] {
            RValue::Bool(_) => (true, false, false, false),
            RValue::Float(_) => (false, true, false, false),
            RValue::String(_) => (false, false, true, false),
            RValue::Special(SpecialTaggedValue::NA) => (false, false, false, true),
            _ => (false, false, false, false),
        };
        proof {
            let x = iv[i as int];
            assert(b == x is Bool && f == x is Float && t == x is Text && na == is_na(x));
        }
        lg = lg && (b || na);
        dbl = dbl && (f || na);
        txt = txt && (t || na);
        i = i + 1;
    }
    (lg, dbl, txt)
}

impl RValue {
    /// Converts a wire value back into an R value, or names the first part
    /// of it that is not a valid encoding.
    pub fn to_robj(self) -> (r: Result<RObject, DecodeError>)
        ensures
            match r {
                Ok(h) => decode_failure(self@) is None && h@ == host_of(self@),
                Err(e) => decode_failure(self@) == Some(e@),
            },
    {
        host_from(&self)
    }
}

fn host_from(w: &RValue) -> (r: Result<RObject, DecodeError>)
    ensures
        match r {
            Ok(h) => decode_failure(w@) is None && h@ == host_of(w@),
            Err(e) => decode_failure(w@) == Some(e@),
        },
    decreases w@, 1int,
{
    match w {
        RValue::Special(t) => Ok(special_to_host(*t)),
        RValue::Float(b) => {
            let mut xs: Vec<Option<u64>> = Vec::new();
            xs.push(Some(*b));
            proof {
                assert(xs@ =~= seq![Some(*b)]);
            }
            Ok(RObject::Double(xs))
        },
        RValue::Bool(b) => {
            let mut xs: Vec<Option<bool>> = Vec::new();
            xs.push(Some(*b));
            proof {
                assert(xs@ =~= seq![Some(*b)]);
            }
            Ok(RObject::Logical(xs))
        },
        RValue::String(s) => {
            let mut xs: Vec<Option<String>> = Vec::new();
            xs.push(Some(s.clone()));
            proof {
                assert(xs@.map_values(|x: Option<String>| opt_str_view(x)) =~= seq![Some(s@)]);
            }
            Ok(RObject::Character(xs))
        },
        RValue::Array(items) => array_to_host(w, items),
        RValue::Object(fields) => object_to_host(w, fields),
    }
}

fn array_to_host(w: &RValue, items: &Vec<RValue>) -> (r: Result<RObject, DecodeError>)
    requires
        *w == RValue::Array(*items),
    ensures
        match r {
            Ok(h) => decode_failure(w@) is None && h@ == host_of(w@),
            Err(e) => decode_failure(w@) == Some(e@),
        },
    decreases w@, 0int,
{
    let ghost iv = items_view(items@);
    proof {
        lemma_items_view(items@);
    }
    let (lg, dbl, txt) = scan_array(items);
    if lg {
        let mut xs: Vec<Option<bool>> = Vec::new();
        let mut i: usize = 0;
        while i < items.len()
            invariant
                iv == items_view(items@),
                iv.len() == items.len(),
                forall|j: int| 0 <= j < iv.len() ==> #[trigger] iv[j] == items@[j]@,
                i <= items.len(),
                xs.len() == i,
                forall|j: int| 0 <= j < i ==> #[trigger] xs@[j] == as_logical(iv[j]),
            decreases items.len() - i,
        {
            let x = match &items[i] {
                RValue::Bool(b) => Some(*b),
                _ => None,
            };
            xs.push(x);
            i = i + 1;
        }
        proof {
            assert(xs@ =~= iv.map_values(|x: WireView| as_logical(x)));
        }
        Ok(RObject::Logical(xs))
    } else if dbl {
        let mut xs: Vec<Option<u64>> = Vec::new();
        let mut i: usize = 0;
        while i < items.len()
            invariant
                iv == items_view(items@),
                iv.len() == items.len(),
                forall|j: int| 0 <= j < iv.len() ==> #[trigger] iv[j] == items@[j]@,
                i <= items.len(),
                xs.len() == i,
                forall|j: int| 0 <= j < i ==> #[trigger] xs@[j] == as_double(iv[j]),
            decreases items.len() - i,
        {
            let x = match &items[i] {
                RValue::Float(b) => Some(*b),
                _ => None,
            };
            xs.push(x);
            i = i + 1;
        }
        proof {
            assert(xs@ =~= iv.map_values(|x: WireView| as_double(x)));
        }
        Ok(RObject::Double(xs))
    } else if txt {
        let mut xs: Vec<Option<String>> = Vec::new();
        let mut i: usize = 0;
        while i < items.len()
            invariant
                iv == items_view(items@),
                iv.len() == items.len(),
                forall|j: int| 0 <= j < iv.len() ==> #[trigger] iv[j] == items@[j]@,
                i <= items.len(),
                xs.len() == i,
                forall|j: int| 0 <= j < i ==> #[trigger] opt_str_view(xs@[j]) == as_text(iv[j]),
            decreases items.len() - i,
        {
            let x = match &items[i] {
                RValue::String(s) => Some(s.clone()),
                _ => None,
            };
            xs.push(x);
            i = i + 1;
        }
        proof {
            assert(xs@.map_values(|x: Option<String>| opt_str_view(x)) =~= iv.map_values(
                |x: WireView| as_text(x),
            ));
        }
        Ok(RObject::Character(xs))
    } else {
        let mut out: Vec<RObject> = Vec::new();
        let mut i: usize = 0;
        while i < items.len()
            invariant
                *w == RValue::Array(*items),
                w@ == WireView::Array(iv),
                iv == items_view(items@),
                iv.len() == items.len(),
                forall|j: int| 0 <= j < iv.len() ==> #[trigger] iv[j] == items@[j]@,
                i <= items.len(),
                out.len() == i,
                forall|j: int| 0 <= j < i ==> (#[trigger] out@[j])@ == host_of(iv[j]),
                items_failure(iv.subrange(0, i as int)) is None,
            decreases items.len() - i,
        {
            proof {
                assert(iv.subrange(0, i + 1).subrange(0, i as int) =~= iv.subrange(0, i as int));
                assert(decreases_to!(w@ => iv[i as int]));
            }
            match host_from(&items[i]) {
                Ok(h) => out.push(h),
                Err(e) => {
                    proof {
                        lemma_items_failure_prefix(iv, i + 1);
                    }
                    return Err(e);
                },
            }
            i = i + 1;
        }
        proof {
            assert(iv.subrange(0, i as int) =~= iv);
            lemma_objects_view(out@);
            lemma_host_list(iv);
            assert(objects_view(out@) =~= host_list(iv));
        }
        Ok(RObject::List(out))
    }
}

fn object_to_host(w: &RValue, fields: &Fields) -> (r: Result<RObject, DecodeError>)
    requires
        *w == RValue::Object(*fields),
    ensures
        match r {
            Ok(h) => decode_failure(w@) is None && h@ == host_of(w@),
            Err(e) => decode_failure(w@) == Some(e@),
        },
    decreases w@, 0int,
{
    let ghost fv = field_entries(*fields);
    let n = fields.len();
    let reserved = reserved_key_string();
    if n == 1 {
        if let Some((k, v)) = fields.entry(0) {
            if *k == reserved {
                return match v {
                    RValue::String(name) => match tag_from_name(name) {
                        Some(t) => Ok(special_to_host(t)),
                        None => Err(DecodeError::UnknownTag(name.clone())),
                    },
                    _ => Err(DecodeError::Malformed),
                };
            }
        }
    }
    proof {
        assert(!is_tag_shaped(fv));
    }
    let mut out: Vec<(String, RObject)> = Vec::new();
    let mut i: usize = 0;
    while i < n
        invariant
            *w == RValue::Object(*fields),
            w@ == WireView::Object(fv),
            fv == field_entries(*fields),
            !is_tag_shaped(fv),
            n == fv.len(),
            i <= n,
            out.len() == i,
            forall|j: int|
                0 <= j < i ==> (#[trigger] out@[j]).0@ == fv[j].0 && out@[j].1@ == host_of(
                    fv[j].1,
                ),
            fields_failure(fv.subrange(0, i as int)) is None,
        decreases n - i,
    {
        proof {
            assert(fv.subrange(0, i + 1).subrange(0, i as int) =~= fv.subrange(0, i as int));
        }
        let (k, v) = match fields.entry(i) {
            Some(e) => e,
            None => {
                return Err(DecodeError::Malformed);
            },
        };
        proof {
            assert(decreases_to!(w@ => fv[i as int].1));
        }
        match host_from(v) {
            Ok(h) => out.push((k.clone(), h)),
            Err(e) => {
                proof {
                    lemma_fields_failure_prefix(fv, i + 1);
                }
                return Err(e);
            },
        }
        i = i + 1;
    }
    proof {
        assert(fv.subrange(0, i as int) =~= fv);
        lemma_named_view(out@);
        lemma_host_named(fv);
        assert(named_view(out@) =~= host_named(fv));
    }
    Ok(RObject::NamedList(out))
}

} // verus!
