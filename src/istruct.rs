//! A value meant to be written as a map with integer keys.

use vstd::prelude::*;

verus! {

/// Wraps a value whose fields are keyed by integers on the wire: it is
/// written with `Serializer::serialize_imap`, each key as a signed integer,
/// and closed by `Serializer::end`.
#[derive(Debug, PartialEq)]
pub struct CPIStruct<T>(pub T);

} // verus!
