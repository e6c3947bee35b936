//! File-kind classification, artifact-path derivation, and the fixed
//! argument shapes of the compiler invocations the engine makes.

use vstd::prelude::*;
use vstd::string::*;

use crate::strutil::{ends_with, file_stem, file_stem_of, str_ends_with, str_eq};

verus! {

/// `p` names a header file.
pub open spec fn is_header_path(p: Seq<char>) -> bool {
    ends_with(p, ".h"@) || ends_with(p, ".hpp"@) || ends_with(p, ".hxx"@) || ends_with(p, ".hh"@)
}

/// Whether `file` names a header file.
pub fn is_header_file(file: &str) -> (r: bool)
    ensures
        r == is_header_path(file@),
{
    if str_ends_with(file, ".h") {
        return true;
    }
    str_ends_with(file, ".hpp") || str_ends_with(file, ".hxx") || str_ends_with(file, ".hh")
}

/// `p` names a C++ translation unit.
pub open spec fn is_cpp_source_path(p: Seq<char>) -> bool {
    ends_with(p, ".cpp"@) || ends_with(p, ".cxx"@) || ends_with(p, ".cc"@)
}

/// Whether `file` names a C++ translation unit.
pub fn is_cpp_source_file(file: &str) -> (r: bool)
    ensures
        r == is_cpp_source_path(file@),
{
    str_ends_with(file, ".cpp") || str_ends_with(file, ".cxx") || str_ends_with(file, ".cc")
}

/// `p` names a C translation unit.
pub open spec fn is_c_source_path(p: Seq<char>) -> bool {
    ends_with(p, ".c"@)
}

/// Whether `file` names a C translation unit.
pub fn is_c_source_file(file: &str) -> (r: bool)
    ensures
        r == is_c_source_path(file@),
{
    str_ends_with(file, ".c")
}

/// `p` names a recognized translation unit of either language.
pub open spec fn is_source_path(p: Seq<char>) -> bool {
    is_cpp_source_path(p) || is_c_source_path(p)
}

/// The derived artifact path: `directory/stem.extension`, where `stem`
/// is the source file's name without its final extension.
pub open spec fn output_file_spec(path: Seq<char>, directory: Seq<char>, extension: Seq<char>) -> Seq<
    char,
> {
    directory + seq!['/'] + file_stem_of(path) + seq!['.'] + extension
}

/// Derives the artifact path for `path` under `directory` with the
/// given `extension`.
pub fn to_output_file(path: &str, directory: &str, extension: &str) -> (r: String)
    ensures
        r@ == output_file_spec(path@, directory@, extension@),
{
    let stem = file_stem(path);
    let r = String::from_str(directory).concat("/").concat(stem.as_str()).concat(".").concat(
        extension,
    );
    proof {
        reveal_strlit("/");
        reveal_strlit(".");
        assert(r@ =~= output_file_spec(path@, directory@, extension@));
    }
    r
}

/// `name` is one of the compiler families the default configuration
/// understands.
pub open spec fn is_gcc_or_clang_name(name: Seq<char>) -> bool {
    name == "gcc"@ || name == "g++"@ || name == "clang"@ || name == "clang++"@
}

/// Whether `compiler_name` is a GCC- or Clang-family driver.
pub fn is_gcc_or_clang(compiler_name: &str) -> (r: bool)
    ensures
        r == is_gcc_or_clang_name(compiler_name@),
{
    str_eq(compiler_name, "gcc") || str_eq(compiler_name, "g++") || str_eq(compiler_name, "clang")
        || str_eq(compiler_name, "clang++")
}

/// The compiler section of the build configuration, as plain values.
pub struct CompilerConfig {
    /// The driver to invoke.
    pub compiler: String,
    /// Caller-supplied arguments replacing the default set, if any.
    pub args: Option<Vec<String>>,
    /// The C standard flag.
    pub cstd: Option<String>,
    /// The C++ standard flag.
    pub cppstd: Option<String>,
}

/// Whether the built-in flag tables apply: they do exactly when the
/// configuration supplies no arguments of its own.
pub fn use_default_compiler_configuration(compiler: &CompilerConfig) -> (r: bool)
    ensures
        r == (compiler.args is None),
{
    compiler.args.is_none()
}

/// The preferred default compiler given which drivers answered a probe:
/// the first usable one of `gcc`, `clang`, `g++`, `clang++`.
pub open spec fn default_compiler_choice(
    gcc_usable: bool,
    clang_usable: bool,
    gpp_usable: bool,
    clangpp_usable: bool,
) -> Option<Seq<char>> {
    if gcc_usable {
        Some("gcc"@)
    } else if clang_usable {
        Some("clang"@)
    } else if gpp_usable {
        Some("g++"@)
    } else if clangpp_usable {
        Some("clang++"@)
    } else {
        None
    }
}

/// Picks the default compiler from probe results, or `None` when no
/// driver answered.
pub fn select_default_compiler(
    gcc_usable: bool,
    clang_usable: bool,
    gpp_usable: bool,
    clangpp_usable: bool,
) -> (r: Option<String>)
    ensures
        match r {
            Some(s) => default_compiler_choice(gcc_usable, clang_usable, gpp_usable, clangpp_usable)
                == Some(s@),
            None => default_compiler_choice(gcc_usable, clang_usable, gpp_usable, clangpp_usable)
                is None,
        },
{
    if gcc_usable {
        Some(String::from_str("gcc"))
    } else if clang_usable {
        Some(String::from_str("clang"))
    } else if gpp_usable {
        Some(String::from_str("g++"))
    } else if clangpp_usable {
        Some(String::from_str("clang++"))
    } else {
        None
    }
}

/// The arguments that ask the compiler for a make-rule dependency
/// listing of `file`, written to `dep_file`.
pub fn dependency_generation_args(file: &str, dep_file: &str) -> (r: Vec<String>)
    ensures
        r.deep_view() == seq!["-I./include"@, file@, "-MM"@, "-o"@, dep_file@],
{
    let mut v: Vec<String> = Vec::new();
    v.push(String::from_str("-I./include"));
    v.push(String::from_str(file));
    v.push(String::from_str("-MM"));
    v.push(String::from_str("-o"));
    v.push(String::from_str(dep_file));
    proof {
        assert(v.deep_view() =~= seq!["-I./include"@, file@, "-MM"@, "-o"@, dep_file@]);
    }
    v
}

/// The arguments that compile `file` to the object artifact `out_file`.
pub fn object_compile_args(file: &str, out_file: &str) -> (r: Vec<String>)
    ensures
        r.deep_view() == seq!["-I./include"@, file@, "-c"@, "-o"@, out_file@],
{
    let mut v: Vec<String> = Vec::new();
    v.push(String::from_str("-I./include"));
    v.push(String::from_str(file));
    v.push(String::from_str("-c"));
    v.push(String::from_str("-o"));
    v.push(String::from_str(out_file));
    proof {
        assert(v.deep_view() =~= seq!["-I./include"@, file@, "-c"@, "-o"@, out_file@]);
    }
    v
}

/// The arguments that assemble `file` to the textual listing `out_file`.
pub fn assembly_output_args(file: &str, out_file: &str) -> (r: Vec<String>)
    ensures
        r.deep_view() == seq!["-I./include"@, file@, "-S"@, "-o"@, out_file@],
{
    let mut v: Vec<String> = Vec::new();
    v.push(String::from_str("-I./include"));
    v.push(String::from_str(file));
    v.push(String::from_str("-S"));
    v.push(String::from_str("-o"));
    v.push(String::from_str(out_file));
    proof {
        assert(v.deep_view() =~= seq!["-I./include"@, file@, "-S"@, "-o"@, out_file@]);
    }
    v
}

/// Success of a parallel compile wave: every task must have succeeded.
pub fn all_compilations_succeeded(results: &Vec<bool>) -> (r: bool)
    ensures
        r == forall|i: int| 0 <= i < results@.len() ==> results@[i],
{
    let mut i: usize = 0;
    while i < results.len()
        invariant
            0 <= i <= results@.len(),
            forall|j: int| 0 <= j < i ==> results@[j],
        decreases results@.len() - i,
    {
        if !results[i] {
            return false;
        }
        i += 1;
    }
    true
}

} // verus!
