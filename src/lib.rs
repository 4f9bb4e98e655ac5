//! Mapping between R's dynamic values and a CBOR-ready tagged-union value.
//!
//! `RObject` models an R value, `RValue` the generic value that is written as
//! CBOR. `RValue::from_robj` and `RValue::to_robj` convert between the two,
//! resolving the cases where distinct R values would share one wire shape.
//!
//! - `host`: the R value model and its view.
//! - `wire`: the wire value model, its view, and the map of named fields.
//! - `encode`: R value to wire value.
//! - `decode`: wire value to R value.
//! - `laws`: what holds of the two directions together.
//! - `error`: the failures of each direction.
pub mod host;
pub mod wire;
pub mod error;
pub mod encode;
pub mod decode;
pub mod laws;
