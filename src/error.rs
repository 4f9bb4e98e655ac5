use vstd::prelude::*;

verus! {

/// Why an R value could not be mapped to the wire model.
#[derive(Debug, Clone, PartialEq, Eq)]
pub enum EncodeError {
    /// The value, or a value nested in it, has a type with no wire mapping.
    UnsupportedType(String),
    /// A named list has a field named like the discriminator of special leaves.
    ReservedName,
}

/// Why a wire value could not be mapped back to an R value.
#[derive(Debug, Clone, PartialEq, Eq)]
pub enum DecodeError {
    /// The input is not a well-formed encoding.
    Malformed,
    /// A special leaf names no known tag.
    UnknownTag(String),
}

pub enum EncodeFailure {
    UnsupportedType(Seq<char>),
    ReservedName,
}

pub enum DecodeFailure {
    Malformed,
    UnknownTag(Seq<char>),
}

impl View for EncodeError {
    type V = EncodeFailure;

    open spec fn view(&self) -> EncodeFailure {
        match self {
            EncodeError::UnsupportedType(n) => EncodeFailure::UnsupportedType(n@),
            EncodeError::ReservedName => EncodeFailure::ReservedName,
        }
    }
}

impl View for DecodeError {
    type V = DecodeFailure;

    open spec fn view(&self) -> DecodeFailure {
        match self {
            DecodeError::Malformed => DecodeFailure::Malformed,
            DecodeError::UnknownTag(n) => DecodeFailure::UnknownTag(n@),
        }
    }
}

pub open spec fn encode_message(e: EncodeFailure) -> Seq<char> {
    match e {
        EncodeFailure::UnsupportedType(n) => "Unsupported R type for CBOR conversion: "@ + n,
        EncodeFailure::ReservedName => "field name is reserved: $R_TYPE"@,
    }
}

pub open spec fn decode_message(e: DecodeFailure) -> Seq<char> {
    match e {
        DecodeFailure::Malformed => "malformed CBOR input"@,
        DecodeFailure::UnknownTag(n) => "unknown $R_TYPE tag: "@ + n,
    }
}

impl EncodeError {
    /// A message that names the failure.
    pub fn message(&self) -> (r: String)
        ensures
            r@ == encode_message(self@),
    {
        match self {
            EncodeError::UnsupportedType(n) => {
                let mut m = String::from_str("Unsupported R type for CBOR conversion: ");
                m.append(n.as_str());
                m
            },
            EncodeError::ReservedName => String::from_str("field name is reserved: $R_TYPE"),
        }
    }
}

impl DecodeError {
    /// A message that names the failure.
    pub fn message(&self) -> (r: String)
        ensures
            r@ == decode_message(self@),
    {
        match self {
            DecodeError::Malformed => String::from_str("malformed CBOR input"),
            DecodeError::UnknownTag(n) => {
                let mut m = String::from_str("unknown $R_TYPE tag: ");
                m.append(n.as_str());
                m
            },
        }
    }
}

} // verus!
