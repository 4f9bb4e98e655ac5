use rcbor::decode::tag_from_name;
use rcbor::error::{DecodeError, EncodeError};
use rcbor::host::{canonicalize_nan, RObject, CANONICAL_NAN};
use rcbor::wire::{Fields, RValue, SpecialTaggedValue};

fn s(x: &str) -> String {
    x.to_string()
}

fn num(x: f64) -> u64 {
    x.to_bits()
}

fn obj(pairs: Vec<(&str, RValue)>) -> RValue {
    let mut f = Fields::new();
    for (k, v) in pairs {
        f.insert(s(k), v);
    }
    RValue::Object(f)
}

fn keys(w: &RValue) -> Vec<String> {
    match w {
        RValue::Object(f) => (0..f.len()).map(|i| f.entry(i).unwrap().0.clone()).collect(),
        other => panic!("expected a map, got {:?}", other),
    }
}

fn encode(h: &RObject) -> RValue {
    RValue::from_robj(h).unwrap()
}

fn decode(w: RValue) -> RObject {
    w.to_robj().unwrap()
}

#[test]
fn scalar_collapse_double() {
    let vector = RObject::Double(vec![Some(num(3.5))]);
    let w = encode(&vector);
    assert_eq!(w, RValue::Float(num(3.5)));
    assert_eq!(decode(w), RObject::Double(vec![Some(num(3.5))]));
}

#[test]
fn scalar_collapse_bool_and_text() {
    assert_eq!(encode(&RObject::Logical(vec![Some(true)])), RValue::Bool(true));
    assert_eq!(encode(&RObject::Character(vec![Some(s("hi"))])), RValue::String(s("hi")));
    assert_eq!(decode(RValue::String(s("hi"))), RObject::Character(vec![Some(s("hi"))]));
}

#[test]
fn empty_vectors_keep_their_type() {
    let cases = vec![
        (RObject::Character(vec![]), SpecialTaggedValue::EmptyStringVec),
        (RObject::Logical(vec![]), SpecialTaggedValue::EmptyLogicalVec),
        (RObject::Double(vec![]), SpecialTaggedValue::EmptyFloatVec),
        (RObject::List(vec![]), SpecialTaggedValue::EmptyList),
        (RObject::NamedList(vec![]), SpecialTaggedValue::EmptyList),
        (RObject::Null, SpecialTaggedValue::Null),
    ];
    for (h, tag) in cases {
        assert_eq!(encode(&h), RValue::Special(tag));
    }
    assert_eq!(decode(encode(&RObject::Character(vec![]))), RObject::Character(vec![]));
    assert_eq!(decode(encode(&RObject::Logical(vec![]))), RObject::Logical(vec![]));
    assert_eq!(decode(encode(&RObject::Double(vec![]))), RObject::Double(vec![]));
    assert_eq!(decode(encode(&RObject::List(vec![]))), RObject::List(vec![]));
}

#[test]
fn empty_integer_tag_decodes_as_double() {
    let w = RValue::Special(SpecialTaggedValue::EmptyIntegerVec);
    assert_eq!(decode(w), RObject::Double(vec![]));
}

#[test]
fn missing_value_placement() {
    let h = RObject::Logical(vec![Some(true), None, Some(false)]);
    let w = encode(&h);
    assert_eq!(
        w,
        RValue::Array(vec![
            RValue::Bool(true),
            RValue::Special(SpecialTaggedValue::NA),
            RValue::Bool(false),
        ])
    );
    assert_eq!(decode(w), h);
}

#[test]
fn standalone_missing_value() {
    let w = encode(&RObject::Logical(vec![None]));
    assert_eq!(w, RValue::Special(SpecialTaggedValue::NA));
    assert_eq!(decode(w), RObject::Logical(vec![None]));
}

#[test]
fn all_missing_array_reads_as_logical() {
    let h = RObject::Double(vec![None, None]);
    let w = encode(&h);
    assert_eq!(decode(w), RObject::Logical(vec![None, None]));
}

#[test]
fn named_list_becomes_map_in_order() {
    let h = RObject::NamedList(vec![
        (s("a"), RObject::Double(vec![Some(num(1.0))])),
        (s("b"), RObject::Character(vec![Some(s("x"))])),
    ]);
    let w = encode(&h);
    assert_eq!(
        w,
        obj(vec![
            ("a", RValue::Float(num(1.0))),
            ("b", RValue::String(s("x"))),
        ])
    );
    assert_eq!(keys(&w), vec![s("a"), s("b")]);
    assert_eq!(decode(w), h);
}

#[test]
fn unnamed_list_becomes_array() {
    let h = RObject::List(vec![
        RObject::Double(vec![Some(num(1.0))]),
        RObject::Character(vec![Some(s("x"))]),
    ]);
    let w = encode(&h);
    assert_eq!(w, RValue::Array(vec![RValue::Float(num(1.0)), RValue::String(s("x"))]));
}

#[test]
fn heterogeneous_fallback() {
    let h = RObject::List(vec![
        RObject::Double(vec![Some(num(1.0))]),
        RObject::Character(vec![Some(s("x"))]),
        RObject::Logical(vec![Some(true)]),
    ]);
    let back = decode(encode(&h));
    assert_eq!(back, h);
    match back {
        RObject::List(items) => assert_eq!(items.len(), 3),
        other => panic!("expected a list, got {:?}", other),
    }
}

#[test]
fn homogeneous_array_becomes_vector() {
    let w = RValue::Array(vec![
        RValue::Float(num(1.0)),
        RValue::Special(SpecialTaggedValue::NA),
        RValue::Float(num(2.5)),
    ]);
    assert_eq!(decode(w), RObject::Double(vec![Some(num(1.0)), None, Some(num(2.5))]));
    let w = RValue::Array(vec![RValue::String(s("p")), RValue::String(s("q"))]);
    assert_eq!(decode(w), RObject::Character(vec![Some(s("p")), Some(s("q"))]));
    assert_eq!(decode(RValue::Array(vec![])), RObject::Logical(vec![]));
}

#[test]
fn unknown_tag_is_rejected() {
    let w = obj(vec![("$R_TYPE", RValue::String(s("Bogus")))]);
    assert_eq!(w.to_robj(), Err(DecodeError::UnknownTag(s("Bogus"))));
}

#[test]
fn unknown_tag_nested_is_rejected() {
    let bad = obj(vec![("$R_TYPE", RValue::String(s("Bogus")))]);
    let w = obj(vec![("k", bad)]);
    assert_eq!(w.to_robj(), Err(DecodeError::UnknownTag(s("Bogus"))));
}

#[test]
fn tag_with_non_text_value_is_malformed() {
    let w = obj(vec![("$R_TYPE", RValue::Bool(true))]);
    assert_eq!(w.to_robj(), Err(DecodeError::Malformed));
}

#[test]
fn tag_maps_decode_by_name() {
    let tag = |n: &str| obj(vec![("$R_TYPE", RValue::String(s(n)))]);
    assert_eq!(decode(tag("Null")), RObject::Null);
    assert_eq!(decode(tag("NA")), RObject::Logical(vec![None]));
    assert_eq!(decode(tag("EmptyBoolVec")), RObject::Logical(vec![]));
    assert_eq!(decode(tag("EmptyNumVec")), RObject::Double(vec![]));
    assert_eq!(decode(tag("EmptyIntegerVec")), RObject::Double(vec![]));
    assert_eq!(decode(tag("EmptyStringVec")), RObject::Character(vec![]));
    assert_eq!(decode(tag("EmptyList")), RObject::List(vec![]));
}

#[test]
fn tag_names() {
    assert_eq!(tag_from_name(&s("EmptyLogicalVec")), Some(SpecialTaggedValue::EmptyLogicalVec));
    assert_eq!(tag_from_name(&s("EmptyFloatVec")), Some(SpecialTaggedValue::EmptyFloatVec));
    assert_eq!(tag_from_name(&s("na")), None);
}

#[test]
fn map_with_more_fields_is_not_a_tag() {
    let w = obj(vec![
        ("$R_TYPE", RValue::String(s("Bogus"))),
        ("b", RValue::Bool(false)),
    ]);
    assert_eq!(
        decode(w),
        RObject::NamedList(vec![
            (s("$R_TYPE"), RObject::Character(vec![Some(s("Bogus"))])),
            (s("b"), RObject::Logical(vec![Some(false)])),
        ])
    );
}

#[test]
fn unsupported_type_is_reported() {
    let h = RObject::List(vec![
        RObject::Null,
        RObject::Unsupported(s("Function")),
        RObject::Unsupported(s("Environment")),
    ]);
    assert_eq!(RValue::from_robj(&h), Err(EncodeError::UnsupportedType(s("Function"))));
}

#[test]
fn reserved_field_name_is_rejected() {
    let h = RObject::NamedList(vec![(s("$R_TYPE"), RObject::Character(vec![Some(s("NA"))]))]);
    assert_eq!(RValue::from_robj(&h), Err(EncodeError::ReservedName));
}

#[test]
fn repeated_names_keep_first_place_and_last_value() {
    let h = RObject::NamedList(vec![
        (s("a"), RObject::Double(vec![Some(num(1.0))])),
        (s("b"), RObject::Double(vec![Some(num(2.0))])),
        (s("a"), RObject::Double(vec![Some(num(3.0))])),
    ]);
    let w = encode(&h);
    assert_eq!(keys(&w), vec![s("a"), s("b")]);
    assert_eq!(w, obj(vec![("a", RValue::Float(num(3.0))), ("b", RValue::Float(num(2.0)))]));
}

#[test]
fn nan_and_infinity() {
    let odd_nan: u64 = 0x7ff0_0000_0000_0001;
    assert!(f64::from_bits(odd_nan).is_nan());
    assert_eq!(canonicalize_nan(odd_nan), CANONICAL_NAN);
    assert_eq!(CANONICAL_NAN, f64::NAN.to_bits());
    let inf = num(f64::INFINITY);
    let ninf = num(f64::NEG_INFINITY);
    assert_eq!(canonicalize_nan(inf), inf);
    let h = RObject::Double(vec![Some(odd_nan), Some(inf), Some(ninf), Some(num(-0.0))]);
    assert_eq!(
        decode(encode(&h)),
        RObject::Double(vec![Some(CANONICAL_NAN), Some(inf), Some(ninf), Some(num(-0.0))])
    );
}

#[test]
fn nested_round_trip() {
    let h = RObject::NamedList(vec![
        (s("id"), RObject::Double(vec![Some(num(42.0))])),
        (s("flags"), RObject::Logical(vec![Some(true), Some(false), None])),
        (
            s("inner"),
            RObject::List(vec![
                RObject::Character(vec![Some(s("u")), None]),
                RObject::Null,
                RObject::Double(vec![]),
            ]),
        ),
    ]);
    assert_eq!(decode(encode(&h)), h);
}

#[test]
fn list_of_scalars_of_one_type_reads_as_vector() {
    let h = RObject::List(vec![RObject::Logical(vec![Some(true)]), RObject::Logical(vec![Some(false)])]);
    assert_eq!(decode(encode(&h)), RObject::Logical(vec![Some(true), Some(false)]));
}

#[test]
fn error_messages() {
    assert_eq!(
        EncodeError::UnsupportedType(s("Function")).message(),
        "Unsupported R type for CBOR conversion: Function"
    );
    assert_eq!(DecodeError::UnknownTag(s("Bogus")).message(), "unknown $R_TYPE tag: Bogus");
}
