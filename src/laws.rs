use vstd::prelude::*;
use crate::decode::{
    all_double, all_logical, all_text, as_double, as_logical, as_text, decode_failure, fields_failure,
    host_list, host_named, host_of, is_tag_shaped, items_failure, lemma_host_list, lemma_host_named,
};
use crate::encode::{
    character_wire, collapse, double_wire, encode_failure, lemma_wire_list, lemma_wire_named,
    list_failure, logical_wire, named_failure, reserved_key, wire_list, wire_named, wire_of,
};
use crate::host::{HostView, canonical_bits};
use crate::wire::{WireView, keys_distinct, put_field};

verus! {

pub open spec fn canonical_opt(x: Option<u64>) -> Option<u64> {
    match x {
        Some(b) => Some(canonical_bits(b)),
        None => None,
    }
}

/// What of an R value can be observed: every NaN counts as the same NaN.
pub open spec fn observed(h: HostView) -> HostView
    decreases h,
{
    match h {
        HostView::Double(xs) => HostView::Double(xs.map_values(|x: Option<u64>| canonical_opt(x))),
        HostView::List(items) => HostView::List(observed_list(items)),
        HostView::NamedList(fs) => HostView::NamedList(observed_named(fs)),
        _ => h,
    }
}

pub open spec fn observed_list(s: Seq<HostView>) -> Seq<HostView>
    decreases s,
{
    if s.len() == 0 {
        Seq::empty()
    } else {
        observed_list(s.subrange(0, s.len() - 1)).push(observed(s[s.len() - 1]))
    }
}

pub open spec fn observed_named(s: Seq<(Seq<char>, HostView)>) -> Seq<(Seq<char>, HostView)>
    decreases s,
{
    if s.len() == 0 {
        Seq::empty()
    } else {
        let last = s[s.len() - 1];
        observed_named(s.subrange(0, s.len() - 1)).push((last.0, observed(last.1)))
    }
}

pub open spec fn host_keys_distinct(fs: Seq<(Seq<char>, HostView)>) -> bool {
    forall|i: int, j: int| 0 <= i < j < fs.len() ==> fs[i].0 != fs[j].0
}

/// The R values that the wire keeps apart from every other: no atomic
/// vector made of `NA` alone but for logical ones, no list whose items would
/// all read as one atomic vector, no named list that is empty or repeats a
/// name, and no part without a wire mapping.
pub open spec fn round_trips(h: HostView) -> bool
    decreases h,
{
    match h {
        HostView::Null => true,
        HostView::Logical(_) => true,
        HostView::Double(xs) => xs.len() == 0 || exists|i: int| 0 <= i < xs.len() && xs[i] is Some,
        HostView::Character(xs) => xs.len() == 0 || exists|i: int|
            0 <= i < xs.len() && xs[i] is Some,
        HostView::List(items) => items.len() == 0 || ((forall|i: int|
            0 <= i < items.len() ==> round_trips(#[trigger] items[i])) && !all_logical(
            wire_list(items),
        ) && !all_double(wire_list(items)) && !all_text(wire_list(items))),
        HostView::NamedList(fs) => fs.len() > 0 && host_keys_distinct(fs) && forall|i: int|
            0 <= i < fs.len() ==> round_trips(#[trigger] fs[i].1),
        HostView::Unsupported(_) => false,
    }
}

proof fn lemma_observed_list(s: Seq<HostView>)
    ensures
        observed_list(s).len() == s.len(),
        forall|i: int| 0 <= i < s.len() ==> #[trigger] observed_list(s)[i] == observed(s[i]),
    decreases s.len(),
{
    if s.len() > 0 {
        lemma_observed_list(s.subrange(0, s.len() - 1));
    }
}

proof fn lemma_observed_named(s: Seq<(Seq<char>, HostView)>)
    ensures
        observed_named(s).len() == s.len(),
        forall|i: int|
            0 <= i < s.len() ==> #[trigger] observed_named(s)[i] == (s[i].0, observed(s[i].1)),
    decreases s.len(),
{
    if s.len() > 0 {
        lemma_observed_named(s.subrange(0, s.len() - 1));
    }
}

proof fn lemma_list_failure_none(s: Seq<HostView>)
    requires
        list_failure(s) is None,
    ensures
        forall|i: int| 0 <= i < s.len() ==> encode_failure(#[trigger] s[i]) is None,
    decreases s.len(),
{
    if s.len() > 0 {
        let p = s.subrange(0, s.len() - 1);
        lemma_list_failure_none(p);
        assert forall|i: int| 0 <= i < s.len() implies encode_failure(#[trigger] s[i]) is None by {
            if i < s.len() - 1 {
                assert(s[i] == p[i]);
            }
        }
    }
}

proof fn lemma_named_failure_none(s: Seq<(Seq<char>, HostView)>)
    requires
        named_failure(s) is None,
    ensures
        forall|i: int|
            0 <= i < s.len() ==> (#[trigger] s[i]).0 != reserved_key() && encode_failure(
                s[i].1,
            ) is None,
    decreases s.len(),
{
    if s.len() > 0 {
        let p = s.subrange(0, s.len() - 1);
        lemma_named_failure_none(p);
        assert forall|i: int| 0 <= i < s.len() implies (#[trigger] s[i]).0 != reserved_key()
            && encode_failure(s[i].1) is None by {
            if i < s.len() - 1 {
                assert(s[i] == p[i]);
            }
        }
    }
}

proof fn lemma_items_failure_none(s: Seq<WireView>)
    requires
        forall|i: int| 0 <= i < s.len() ==> decode_failure(#[trigger] s[i]) is None,
    ensures
        items_failure(s) is None,
    decreases s.len(),
{
    if s.len() > 0 {
        let p = s.subrange(0, s.len() - 1);
        assert forall|i: int| 0 <= i < p.len() implies decode_failure(#[trigger] p[i]) is None by {
            assert(p[i] == s[i]);
        }
        lemma_items_failure_none(p);
    }
}

proof fn lemma_fields_failure_none(s: Seq<(Seq<char>, WireView)>)
    requires
        forall|i: int| 0 <= i < s.len() ==> decode_failure((#[trigger] s[i]).1) is None,
    ensures
        fields_failure(s) is None,
    decreases s.len(),
{
    if s.len() > 0 {
        let p = s.subrange(0, s.len() - 1);
        assert forall|i: int| 0 <= i < p.len() implies decode_failure((#[trigger] p[i]).1)
            is None by {
            assert(p[i] == s[i]);
        }
        lemma_fields_failure_none(p);
    }
}

/// Fields whose names are already distinct come through `collapse` as they are.
pub proof fn lemma_collapse_distinct(fs: Seq<(Seq<char>, WireView)>)
    requires
        keys_distinct(fs),
    ensures
        collapse(fs) == fs,
    decreases fs.len(),
{
    if fs.len() > 0 {
        let p = fs.subrange(0, fs.len() - 1);
        let last = fs[fs.len() - 1];
        lemma_collapse_distinct(p);
        assert(!(exists|i: int| 0 <= i < p.len() && p[i].0 == last.0)) by {
            assert forall|i: int| 0 <= i < p.len() implies p[i].0 != last.0 by {
                assert(p[i] == fs[i]);
            }
        }
        assert(put_field(p, last.0, last.1) =~= fs);
    }
}

/// Decoding the encoding of an R value gives back the value, up to the bits
/// of its NaNs, for every value that the wire keeps apart from all others.
pub proof fn lemma_round_trip(h: HostView)
    requires
        encode_failure(h) is None,
        round_trips(h),
    ensures
        decode_failure(wire_of(h)) is None,
        host_of(wire_of(h)) == observed(h),
    decreases h,
{
    match h {
        HostView::Null => {},
        HostView::Logical(xs) => {
            let ws = xs.map_values(|x: Option<bool>| logical_wire(x));
            if xs.len() == 0 {
                assert(xs =~= Seq::<Option<bool>>::empty());
            } else if xs.len() == 1 {
                assert(xs =~= seq![xs[0]]);
            } else {
                assert(all_logical(ws));
                assert(ws.map_values(|x: WireView| as_logical(x)) =~= xs);
            }
        },
        HostView::Double(xs) => {
            let ws = xs.map_values(|x: Option<u64>| double_wire(x));
            let ov = xs.map_values(|x: Option<u64>| canonical_opt(x));
            if xs.len() == 0 {
                assert(ov =~= Seq::<Option<u64>>::empty());
            } else if xs.len() == 1 {
                assert(xs[0] is Some);
                assert(ov =~= seq![Some(canonical_bits(xs[0]->Some_0))]);
            } else {
                let k = choose|i: int| 0 <= i < xs.len() && xs[i] is Some;
                assert(ws[k] is Float);
                assert(!all_logical(ws));
                assert(all_double(ws));
                assert(ws.map_values(|x: WireView| as_double(x)) =~= ov);
            }
        },
        HostView::Character(xs) => {
            let ws = xs.map_values(|x: Option<Seq<char>>| character_wire(x));
            if xs.len() == 0 {
                assert(xs =~= Seq::<Option<Seq<char>>>::empty());
            } else if xs.len() == 1 {
                assert(xs[0] is Some);
                assert(xs =~= seq![xs[0]]);
            } else {
                let k = choose|i: int| 0 <= i < xs.len() && xs[i] is Some;
                assert(ws[k] is Text);
                assert(!all_logical(ws));
                assert(!all_double(ws));
                assert(all_text(ws));
                assert(ws.map_values(|x: WireView| as_text(x)) =~= xs);
            }
        },
        HostView::List(items) => {
            if items.len() == 0 {
                assert(observed_list(items) =~= Seq::<HostView>::empty());
            } else {
                let wl = wire_list(items);
                lemma_wire_list(items);
                lemma_list_failure_none(items);
                assert forall|i: int| 0 <= i < items.len() implies decode_failure(
                    #[trigger] wl[i],
                ) is None && host_of(wl[i]) == observed(items[i]) by {
                    lemma_round_trip(items[i]);
                }
                lemma_items_failure_none(wl);
                lemma_host_list(wl);
                lemma_observed_list(items);
                assert(host_list(wl) =~= observed_list(items));
            }
        },
        HostView::NamedList(fs) => {
            let wn = wire_named(fs);
            lemma_wire_named(fs);
            lemma_named_failure_none(fs);
            assert(keys_distinct(wn));
            lemma_collapse_distinct(wn);
            assert(!is_tag_shaped(wn));
            assert forall|i: int| 0 <= i < fs.len() implies decode_failure((#[trigger] wn[i]).1)
                is None && host_of(wn[i].1) == observed(fs[i].1) by {
                lemma_round_trip(fs[i].1);
            }
            lemma_fields_failure_none(wn);
            lemma_host_named(wn);
            lemma_observed_named(fs);
            assert(host_named(wn) =~= observed_named(fs));
        },
        HostView::Unsupported(_) => {},
    }
}

/// A vector of length one goes on the wire as its element alone, the same
/// value as the bare scalar, and that value decodes to a vector of length one.
pub proof fn lemma_scalar_collapse(b: u64, flag: bool, s: Seq<char>)
    ensures
        wire_of(HostView::Double(seq![Some(b)])) == WireView::Float(canonical_bits(b)),
        host_of(WireView::Float(canonical_bits(b))) == HostView::Double(
            seq![Some(canonical_bits(b))],
        ),
        wire_of(HostView::Logical(seq![Some(flag)])) == WireView::Bool(flag),
        host_of(WireView::Bool(flag)) == HostView::Logical(seq![Some(flag)]),
        wire_of(HostView::Character(seq![Some(s)])) == WireView::Text(s),
        host_of(WireView::Text(s)) == HostView::Character(seq![Some(s)]),
{
}

/// A non-empty unnamed list goes on the wire as an array, never a map; a
/// named list with distinct names goes as a map with its fields in order.
pub proof fn lemma_named_unnamed(h: HostView)
    ensures
        h is List && h->List_0.len() > 0 ==> wire_of(h) is Array && wire_of(h)->Array_0.len()
            == h->List_0.len(),
        h is NamedList && h->NamedList_0.len() > 0 && host_keys_distinct(h->NamedList_0) ==> {
            let fs = h->NamedList_0;
            &&& wire_of(h) is Object
            &&& wire_of(h)->Object_0.len() == fs.len()
            &&& forall|i: int|
                0 <= i < fs.len() ==> (#[trigger] wire_of(h)->Object_0[i]) == (
                    fs[i].0,
                    wire_of(fs[i].1),
                )
        },
{
    match h {
        HostView::List(items) => {
            lemma_wire_list(items);
        },
        HostView::NamedList(fs) => {
            lemma_wire_named(fs);
            if fs.len() > 0 && host_keys_distinct(fs) {
                assert(keys_distinct(wire_named(fs)));
                lemma_collapse_distinct(wire_named(fs));
            }
        },
        _ => {},
    }
}

pub open spec fn has_key(fs: Seq<(Seq<char>, WireView)>, k: Seq<char>) -> bool {
    exists|j: int| 0 <= j < fs.len() && fs[j].0 == k
}

/// `collapse` keeps the set of names and is as long as its input exactly
/// when the names are distinct.
proof fn lemma_collapse_keys(s: Seq<(Seq<char>, WireView)>)
    ensures
        collapse(s).len() <= s.len(),
        forall|k: Seq<char>| has_key(collapse(s), k) <==> has_key(s, k),
        collapse(s).len() == s.len() ==> keys_distinct(s),
    decreases s.len(),
{
    if s.len() > 0 {
        let p = s.subrange(0, s.len() - 1);
        let last = s[s.len() - 1];
        let c = collapse(p);
        lemma_collapse_keys(p);
        assert forall|k: Seq<char>| has_key(p, k) implies has_key(s, k) by {
            let j = choose|j: int| 0 <= j < p.len() && p[j].0 == k;
            assert(s[j] == p[j]);
        }
        assert forall|k: Seq<char>| has_key(s, k) && k != last.0 implies has_key(p, k) by {
            let j = choose|j: int| 0 <= j < s.len() && s[j].0 == k;
            assert(p[j] == s[j]);
        }
        assert(has_key(s, last.0));
        if has_key(c, last.0) {
            let i = choose|i: int| 0 <= i < c.len() && c[i].0 == last.0;
            let n = c.update(i, (last.0, last.1));
            assert forall|k: Seq<char>| has_key(n, k) <==> has_key(c, k) by {
                if has_key(n, k) {
                    let j = choose|j: int| 0 <= j < n.len() && n[j].0 == k;
                    assert(c[j].0 == k);
                }
                if has_key(c, k) {
                    let j = choose|j: int| 0 <= j < c.len() && c[j].0 == k;
                    assert(n[j].0 == k);
                }
            }
        } else {
            let n = c.push((last.0, last.1));
            assert forall|k: Seq<char>| has_key(n, k) <==> (has_key(c, k) || k == last.0) by {
                if has_key(n, k) {
                    let j = choose|j: int| 0 <= j < n.len() && n[j].0 == k;
                    if j < c.len() {
                        assert(c[j].0 == k);
                    }
                }
                if has_key(c, k) {
                    let j = choose|j: int| 0 <= j < c.len() && c[j].0 == k;
                    assert(n[j].0 == k);
                }
                if k == last.0 {
                    assert(n[c.len() as int].0 == k);
                }
            }
            if collapse(s).len() == s.len() {
                assert(keys_distinct(p));
                assert forall|i: int, j: int| 0 <= i < j < s.len() implies s[i].0 != s[j].0 by {
                    if j < s.len() - 1 {
                        assert(s[i] == p[i] && s[j] == p[j]);
                    } else {
                        assert(s[i] == p[i]);
                        if s[i].0 == s[j].0 {
                            assert(has_key(p, last.0));
                        }
                    }
                }
            }
        }
    }
}

/// The converse of `lemma_round_trip`: an encodable value that decodes to
/// itself is one that the wire keeps apart from all others.
pub proof fn lemma_round_trip_exact(h: HostView)
    requires
        encode_failure(h) is None,
        host_of(wire_of(h)) == observed(h),
    ensures
        round_trips(h),
    decreases h,
{
    match h {
        HostView::Double(xs) => {
            let ws = xs.map_values(|x: Option<u64>| double_wire(x));
            if xs.len() > 0 && !(exists|i: int| 0 <= i < xs.len() && xs[i] is Some) {
                assert(xs[0] is None);
                if xs.len() > 1 {
                    assert(all_logical(ws));
                }
            }
        },
        HostView::Character(xs) => {
            let ws = xs.map_values(|x: Option<Seq<char>>| character_wire(x));
            if xs.len() > 0 && !(exists|i: int| 0 <= i < xs.len() && xs[i] is Some) {
                assert(xs[0] is None);
                if xs.len() > 1 {
                    assert(all_logical(ws));
                }
            }
        },
        HostView::List(items) => {
            if items.len() > 0 {
                let wl = wire_list(items);
                lemma_wire_list(items);
                lemma_list_failure_none(items);
                lemma_host_list(wl);
                lemma_observed_list(items);
                assert(!all_logical(wl) && !all_double(wl) && !all_text(wl));
                assert forall|i: int| 0 <= i < items.len() implies round_trips(
                    #[trigger] items[i],
                ) by {
                    assert(host_list(wl)[i] == observed_list(items)[i]);
                    lemma_round_trip_exact(items[i]);
                }
            }
        },
        HostView::NamedList(fs) => {
            if fs.len() > 0 {
                let wn = wire_named(fs);
                let cw = collapse(wn);
                lemma_wire_named(fs);
                lemma_named_failure_none(fs);
                lemma_collapse_keys(wn);
                lemma_observed_named(fs);
                if cw.len() == 1 && cw[0].0 == reserved_key() {
                    assert(has_key(cw, reserved_key()));
                    let j = choose|j: int| 0 <= j < wn.len() && wn[j].0 == reserved_key();
                    assert(fs[j].0 == reserved_key());
                }
                assert(!is_tag_shaped(cw));
                lemma_host_named(cw);
                assert(host_named(cw).len() == observed_named(fs).len());
                assert(keys_distinct(wn));
                lemma_collapse_distinct(wn);
                assert forall|i: int, j: int| 0 <= i < j < fs.len() implies fs[i].0 != fs[j].0 by {
                    assert(wn[i].0 != wn[j].0);
                }
                assert forall|i: int| 0 <= i < fs.len() implies round_trips(#[trigger] fs[i].1) by {
                    assert(host_named(cw)[i] == observed_named(fs)[i]);
                    lemma_round_trip_exact(fs[i].1);
                }
            }
        },
        _ => {},
    }
}

} // verus!
