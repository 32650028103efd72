//! Conversion of protocol type names.
use vstd::prelude::*;
use crate::wl_types::{arg_type_named, ArgType};

verus! {

/// The argument type that a protocol file names with `typ`; the name must be
/// one of the eight wire type names.
#[verifier::allow_in_spec]
pub fn type_from_string(typ: String) -> ArgType
    requires
        arg_type_named(typ@) is Some,
    returns
        arg_type_named(typ@).unwrap(),
{
    match ArgType::named(typ.as_str()) {
        Some(t) => t,
        None => ArgType::Int,
    }
}

/// `type_from_string` and `ArgType::from_string` accept the same names (the
/// `requires` of both), which are the eight wire type names, and give the
/// same type for each of them.
pub proof fn lemma_type_from_string_agrees(typ: String)
    ensures
        arg_type_named(typ@) is Some <==> (typ@ == "int"@ || typ@ == "uint"@ || typ@ == "fixed"@
            || typ@ == "string"@ || typ@ == "object"@ || typ@ == "new_id"@ || typ@ == "array"@
            || typ@ == "fd"@),
        arg_type_named(typ@) is Some ==> type_from_string(typ) == ArgType::from_string(typ),
{
}

} // verus!
