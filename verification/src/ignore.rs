//! The ignore list: which of the files found are left out of the scan.

use crate::text::starts_with;
use vstd::prelude::*;

verus! {

/// Whether `path` lies under one of the ignored folders: whether the text of
/// one of them is how `path` begins.
pub open spec fn ignored(path: Seq<char>, ignore_folders: Seq<String>) -> bool {
    exists|i: int| 0 <= i < ignore_folders.len() && (#[trigger] ignore_folders[i])@.is_prefix_of(path)
}

/// Whether `path` begins with one of `ignore_folders`.
pub fn path_starts_with(path: &str, ignore_folders: &Vec<String>) -> (found: bool)
    ensures
        found == ignored(path@, ignore_folders@),
{
    let mut i: usize = 0;
    while i < ignore_folders.len()
        invariant
            i <= ignore_folders@.len(),
            forall|j: int| 0 <= j < i ==> !(#[trigger] ignore_folders@[j])@.is_prefix_of(path@),
        decreases ignore_folders@.len() - i,
    {
        if starts_with(path, ignore_folders[i].as_str()) {
            return true;
        }
        i = i + 1;
    }
    false
}

/// Takes the source file `source_file` into `source_files`, at the end,
/// unless it lies under an ignored folder. Returns whether it was taken.
pub fn keep_source_file(
    source_file: String,
    ignore_folders: &Vec<String>,
    source_files: &mut Vec<String>,
) -> (kept: bool)
    ensures
        kept == !ignored(source_file@, ignore_folders@),
        final(source_files)@ == if kept {
            old(source_files)@.push(source_file)
        } else {
            old(source_files)@
        },
{
    if path_starts_with(source_file.as_str(), ignore_folders) {
        false
    } else {
        source_files.push(source_file);
        true
    }
}

} // verus!
