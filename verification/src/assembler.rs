//! The assembler variant's decisions: whether the default assembler
//! configuration applies, and which files to assemble when the caller
//! named none.

use vstd::prelude::*;
use vstd::string::*;

use crate::compiler::{is_c_source_file, is_cpp_source_file, is_source_path};

verus! {

/// Whether the compiler's own flags should drive the assembler.
pub open spec fn default_assembler_configuration(asm_args: Option<Seq<String>>) -> bool {
    match asm_args {
        None => true,
        Some(v) => v.len() == 0,
    }
}

/// Whether the compiler's own flags should drive the assembler: they do
/// when the configuration supplies no assembler arguments, or an empty
/// list of them.
pub fn use_default_assembler_configuration(asm_args: &Option<Vec<String>>) -> (r: bool)
    ensures
        r == default_assembler_configuration(
            match *asm_args {
                Some(ref v) => Some(v@),
                None => None,
            },
        ),
{
    match asm_args {
        None => true,
        Some(v) => v.len() == 0,
    }
}

/// The files assembled when the caller named none: every recognized
/// translation unit of the source directory, in scan order.
pub open spec fn assembly_worklist_spec(dir_files: Seq<Seq<char>>) -> Seq<Seq<char>>
    decreases dir_files.len(),
{
    if dir_files.len() == 0 {
        Seq::empty()
    } else {
        (if is_source_path(dir_files[0]) {
            seq![dir_files[0]]
        } else {
            Seq::empty()
        }) + assembly_worklist_spec(dir_files.drop_first())
    }
}

/// Selects every recognized translation unit among the directory's
/// files: the default worklist of the assemble mode.
pub fn default_assembly_worklist(dir_files: &Vec<String>) -> (r: Vec<String>)
    ensures
        r.deep_view() == assembly_worklist_spec(dir_files.deep_view()),
{
    let ghost files = dir_files.deep_view();
    let mut out: Vec<String> = Vec::new();
    let n = dir_files.len();
    let mut i: usize = 0;
    proof {
        assert(files.skip(0) =~= files);
        assert(out.deep_view() + assembly_worklist_spec(files) =~= assembly_worklist_spec(files));
    }
    while i < n
        invariant
            0 <= i <= n,
            n == files.len(),
            files == dir_files.deep_view(),
            out.deep_view() + assembly_worklist_spec(files.skip(i as int))
                == assembly_worklist_spec(files),
        decreases n - i,
    {
        let f = &dir_files[i];
        if is_c_source_file(f.as_str()) || is_cpp_source_file(f.as_str()) {
            out.push(f.clone());
            proof {
                assert(out.deep_view() =~= out.deep_view().drop_last().push(files[i as int]));
            }
        }
        i += 1;
        proof {
            assert(files.skip(i as int - 1)[0] == files[i as int - 1]);
            assert(files.skip(i as int - 1).drop_first() =~= files.skip(i as int));
            assert(out.deep_view() + assembly_worklist_spec(files.skip(i as int))
                =~= assembly_worklist_spec(files));
        }
    }
    proof {
        assert(files.skip(n as int) =~= Seq::<Seq<char>>::empty());
        assert(out.deep_view() + Seq::<Seq<char>>::empty() =~= out.deep_view());
    }
    out
}

} // verus!
