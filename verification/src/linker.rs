//! The link stage's decisions: when linking is warranted, whether the
//! default linker flags apply, and the fixed tail of the link command.

use vstd::prelude::*;
use vstd::string::*;

use crate::QuikcFlags;

verus! {

/// The linker section of the build configuration, as plain values.
pub struct LinkerConfig {
    /// Caller-supplied arguments replacing the default set, if any.
    pub args: Option<Vec<String>>,
    /// Libraries to link against, if any.
    pub libraries: Option<Vec<String>>,
}

/// Whether the built-in linker flags apply.
pub open spec fn default_linker_configuration(linker: LinkerConfig) -> bool {
    linker.args is None
}

/// Whether the built-in linker flags apply: they do exactly when the
/// configuration supplies no arguments of its own.
pub fn use_default_linker_configuration(linker: &LinkerConfig) -> (r: bool)
    ensures
        r == default_linker_configuration(*linker),
{
    linker.args.is_none()
}

/// The fixed tail of the link command: every current object artifact,
/// then the output name.
pub fn link_arguments(object_files: &Vec<String>, package_name: &str) -> (r: Vec<String>)
    ensures
        r.deep_view() == object_files.deep_view() + seq!["-o"@, package_name@],
{
    let mut v: Vec<String> = Vec::new();
    let n = object_files.len();
    let mut i: usize = 0;
    while i < n
        invariant
            0 <= i <= n,
            n == object_files.deep_view().len(),
            v.deep_view() == object_files.deep_view().take(i as int),
        decreases n - i,
    {
        let ghost pre = v.deep_view();
        v.push(object_files[i].clone());
        i += 1;
        proof {
            assert(v.deep_view() =~= pre.push(object_files.deep_view()[i as int - 1]));
            assert(v.deep_view() =~= object_files.deep_view().take(i as int));
        }
    }
    v.push(String::from_str("-o"));
    v.push(String::from_str(package_name));
    proof {
        assert(object_files.deep_view().take(n as int) =~= object_files.deep_view());
        assert(v.deep_view() =~= object_files.deep_view() + seq!["-o"@, package_name@]);
    }
    v
}

/// Whether the driver should run the link stage: never when linking is
/// switched off; otherwise when something was compiled this run, or the
/// target binary is missing.
pub fn should_link(worklist_nonempty: bool, binary_exists: bool, flags: &QuikcFlags) -> (r: bool)
    ensures
        r == (!flags.do_not_link && (worklist_nonempty || !binary_exists)),
{
    !flags.do_not_link && (worklist_nonempty || !binary_exists)
}

} // verus!
