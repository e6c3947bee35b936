//! Help for configuration errors: which section of the build
//! configuration a missing field belongs to.

use vstd::prelude::*;

verus! {

/// A field of the build configuration that a message can point at.
#[derive(Clone, Copy, PartialEq, Eq, Structural, Debug)]
pub enum FieldType {
    /// The compiler's argument list.
    CompilerArgs,
    /// The linker's argument list.
    LinkerArgs,
}

/// The configuration section heading the field stands under.
pub fn get_field_parent(field: FieldType) -> (r: &'static str)
    ensures
        field == FieldType::CompilerArgs ==> r@ == "[compiler]"@,
        field == FieldType::LinkerArgs ==> r@ == "[linker]"@,
{
    match field {
        FieldType::CompilerArgs => "[compiler]",
        FieldType::LinkerArgs => "[linker]",
    }
}

} // verus!
