//! The patterns that are looked up on disk: one for the source files, and two
//! for every folder that is ignored.

use std::path::Path;
use vstd::prelude::*;

verus! {

/// The path `base` with `name` adjoined, as text: what `std::path::Path::join`
/// makes of the two on the platform that the library is built for.
pub uninterp spec fn path_joined(base: Seq<char>, name: Seq<char>) -> Seq<char>;

/// `std::path::Path::join`, from text to text: the path `base` with `name`
/// adjoined. Trusted, not proved.
#[verifier::external_body]
fn join_path(base: &str, name: &str) -> (path: String)
    ensures
        path@ == path_joined(base@, name@),
{
    Path::new(base).join(name).display().to_string()
}

/// The pattern that matches at any depth.
pub open spec fn any_depth() -> Seq<char> {
    seq!['*', '*']
}

/// The start of the pattern for the files with a given ending, at any depth.
pub open spec fn any_file() -> Seq<char> {
    seq!['*', '*', '/', '*', '.']
}

/// The parts of `s` between its commas, in order. There is one part more
/// than there are commas: a part is empty where two commas meet, and where
/// `s` begins or ends with a comma.
pub open spec fn split_at_commas(s: Seq<char>) -> Seq<Seq<char>>
    decreases s.len(),
{
    if s.len() == 0 {
        seq![Seq::empty()]
    } else {
        let before = split_at_commas(s.drop_last());
        if s.last() == ',' {
            before.push(Seq::empty())
        } else {
            before.drop_last().push(before.last().push(s.last()))
        }
    }
}

/// The parts `parts` written with commas between them.
pub open spec fn joined_with_commas(parts: Seq<Seq<char>>) -> Seq<char>
    decreases parts.len(),
{
    if parts.len() == 0 {
        Seq::empty()
    } else if parts.len() == 1 {
        parts[0]
    } else {
        joined_with_commas(parts.drop_last()) + seq![','] + parts.last()
    }
}

/// The parts of `s` between its commas hold no comma, and written with
/// commas between them they give `s` again.
pub proof fn lemma_split_at_commas(s: Seq<char>)
    ensures
        split_at_commas(s).len() >= 1,
        joined_with_commas(split_at_commas(s)) == s,
        forall|k: int|
            0 <= k < split_at_commas(s).len() ==> !(#[trigger] split_at_commas(s)[k]).contains(','),
    decreases s.len(),
{
    if s.len() > 0 {
        let before = split_at_commas(s.drop_last());
        let parts = split_at_commas(s);
        lemma_split_at_commas(s.drop_last());
        if s.last() == ',' {
            assert(parts.drop_last() =~= before);
            assert(joined_with_commas(parts) =~= s);
        } else {
            let grown = before.last().push(s.last());
            if before.len() > 1 {
                assert(parts.drop_last() =~= before.drop_last());
                assert(joined_with_commas(parts) =~= joined_with_commas(before).push(s.last()));
            }
            assert(joined_with_commas(parts) =~= s);
            assert forall|k: int| 0 <= k < parts.len() implies !(#[trigger] parts[k]).contains(
                ',',
            ) by {
                if k == parts.len() - 1 {
                    if grown.contains(',') {
                        let at = choose|at: int| 0 <= at < grown.len() && grown[at] == ',';
                        assert(before.last()[at] == ',');
                    }
                } else {
                    assert(parts[k] == before[k]);
                }
            }
        }
    }
}

/// The patterns for the folders `folders` below `root`: for each folder, in
/// order, the folder at any depth below `root`, and then the folder right
/// below `root`.
pub open spec fn folder_patterns(folders: Seq<Seq<char>>, root: Seq<char>) -> Seq<Seq<char>>
    decreases folders.len(),
{
    if folders.len() == 0 {
        Seq::empty()
    } else {
        folder_patterns(folders.drop_last(), root).push(
            path_joined(path_joined(root, any_depth()), folders.last()),
        ).push(path_joined(root, folders.last()))
    }
}

/// The names of the folders in a list that is written with commas between them.
pub fn split_folders(ignore_folders: &str) -> (folders: Vec<String>)
    ensures
        folders.deep_view() == split_at_commas(ignore_folders@),
{
    let n = ignore_folders.unicode_len();
    let mut folders: Vec<String> = Vec::new();
    let mut start: usize = 0;
    let mut i: usize = 0;
    assert(ignore_folders@.take(0) =~= Seq::<char>::empty());
    assert(split_at_commas(ignore_folders@.take(0)) =~= folders.deep_view().push(
        ignore_folders@.subrange(0, 0),
    ));
    for c in it: ignore_folders.chars()
        invariant
            n == ignore_folders@.len(),
            it.seq() == ignore_folders@,
            i == it.index(),
            start <= i,
            split_at_commas(ignore_folders@.take(i as int)) == folders.deep_view().push(
                ignore_folders@.subrange(start as int, i as int),
            ),
    {
        let ghost s = ignore_folders@;
        assert(s.take(i + 1).drop_last() =~= s.take(i as int));
        if c == ',' {
            let part = ignore_folders.substring_char(start, i).to_string();
            folders.push(part);
            start = i + 1;
            assert(s.subrange(i + 1, i + 1) =~= Seq::<char>::empty());
        } else {
            assert(s.subrange(start as int, i as int).push(c) =~= s.subrange(start as int, i + 1));
        }
        i = i + 1;
    }
    assert(ignore_folders@.take(n as int) =~= ignore_folders@);
    let part = ignore_folders.substring_char(start, n).to_string();
    folders.push(part);
    folders
}

/// The patterns under which the folders to ignore are looked up: for each
/// name in the list `ignore_folders`, the folder of that name at any depth
/// below `root_folder`, and the folder of that name right below it.
pub fn ignore_patterns(ignore_folders: &str, root_folder: &str) -> (patterns: Vec<String>)
    ensures
        patterns.deep_view() == folder_patterns(split_at_commas(ignore_folders@), root_folder@),
{
    proof {
        reveal_strlit("**");
    }
    let folders = split_folders(ignore_folders);
    let mut patterns: Vec<String> = Vec::new();
    let mut i: usize = 0;
    while i < folders.len()
        invariant
            i <= folders.len(),
            "**"@ == any_depth(),
            patterns.deep_view() == folder_patterns(
                folders.deep_view().take(i as int),
                root_folder@,
            ),
        decreases folders.len() - i,
    {
        let ghost names = folders.deep_view();
        let below = join_path(root_folder, "**");
        let deep = join_path(below.as_str(), folders[i].as_str());
        let near = join_path(root_folder, folders[i].as_str());
        patterns.push(deep);
        patterns.push(near);
        assert(names.take(i + 1).drop_last() =~= names.take(i as int));
        i = i + 1;
    }
    assert(folders.deep_view().take(folders.len() as int) =~= folders.deep_view());
    patterns
}

/// The pattern under which the source files are looked up: the files below
/// `root_folder`, at any depth, whose names end with a dot and `ending`.
pub fn source_pattern(root_folder: &str, ending: &str) -> (pattern: String)
    ensures
        pattern@ == path_joined(root_folder@, any_file() + ending@),
{
    proof {
        reveal_strlit("**/*.");
        assert("**/*."@ =~= any_file());
    }
    let mut name = "**/*.".to_string();
    name.append(ending);
    join_path(root_folder, name.as_str())
}

} // verus!
