//! Directory listings and the hidden-entry filter.
//!
//! A `FileEntry` is one line of a directory listing: the entry's path,
//! whether it is itself a directory, and whether the platform marks it
//! hidden. The walker's pure part splits a listing into the files to be
//! hashed and the subdirectories to be queued, dropping hidden entries
//! unless the configuration asks for them.

use vstd::prelude::*;

verus! {

/// Configuration of one traversal run: whether to descend into
/// subdirectories, and whether hidden entries take part.
#[derive(Clone, Copy, PartialEq, Eq, Structural)]
pub struct RunConfig {
    pub recurse: bool,
    pub include_hidden: bool,
}

/// One entry of a directory listing, as the caller resolved it.
pub struct FileEntry {
    pub path: String,
    pub is_dir: bool,
    pub hidden: bool,
}

/// Mathematical image of a `FileEntry`.
pub ghost struct EntryView {
    pub path: Seq<char>,
    pub is_dir: bool,
    pub hidden: bool,
}

impl View for FileEntry {
    type V = EntryView;

    open spec fn view(&self) -> EntryView {
        EntryView { path: self.path@, is_dir: self.is_dir, hidden: self.hidden }
    }
}

impl DeepView for FileEntry {
    type V = EntryView;

    open spec fn deep_view(&self) -> EntryView {
        self@
    }
}

/// An entry takes part in the traversal unless it is hidden and the
/// run does not include hidden entries.
pub open spec fn spec_eligible(hidden: bool, include_hidden: bool) -> bool {
    !hidden || include_hidden
}

/// The hidden-entry filter: decides whether one listing entry is
/// traversed or hashed at all.
pub fn is_eligible(entry: &FileEntry, include_hidden: bool) -> (r: bool)
    ensures
        r == spec_eligible(entry.hidden, include_hidden),
{
    !entry.hidden || include_hidden
}

/// Paths of the eligible non-directory entries of a listing, in
/// listing order.
pub open spec fn eligible_file_paths(entries: Seq<EntryView>, include_hidden: bool) -> Seq<
    Seq<char>,
>
    decreases entries.len(),
{
    if entries.len() == 0 {
        Seq::empty()
    } else {
        let rest = eligible_file_paths(entries.drop_last(), include_hidden);
        let e = entries.last();
        if spec_eligible(e.hidden, include_hidden) && !e.is_dir {
            rest.push(e.path)
        } else {
            rest
        }
    }
}

/// Paths of the eligible directory entries of a listing, in listing
/// order.
pub open spec fn eligible_dir_paths(entries: Seq<EntryView>, include_hidden: bool) -> Seq<
    Seq<char>,
>
    decreases entries.len(),
{
    if entries.len() == 0 {
        Seq::empty()
    } else {
        let rest = eligible_dir_paths(entries.drop_last(), include_hidden);
        let e = entries.last();
        if spec_eligible(e.hidden, include_hidden) && e.is_dir {
            rest.push(e.path)
        } else {
            rest
        }
    }
}

/// Hidden filtering over files: a path stands among the discovered
/// files of a listing exactly when some listing entry carries it, is
/// not a directory, and passes the filter — so a hidden file is absent
/// whenever hidden entries are excluded, and present when they are
/// included.
pub proof fn lemma_file_paths_membership(
    entries: Seq<EntryView>,
    include_hidden: bool,
    p: Seq<char>,
)
    ensures
        eligible_file_paths(entries, include_hidden).contains(p) <==> exists|k: int|
            0 <= k < entries.len() && (#[trigger] entries[k]).path == p && !entries[k].is_dir
                && spec_eligible(entries[k].hidden, include_hidden),
    decreases entries.len(),
{
    if entries.len() > 0 {
        let rest = entries.drop_last();
        let e = entries.last();
        lemma_file_paths_membership(rest, include_hidden, p);
        if eligible_file_paths(entries, include_hidden).contains(p) {
            if spec_eligible(e.hidden, include_hidden) && !e.is_dir && e.path == p {
                assert(entries[entries.len() - 1] == e);
            } else {
                let prev = eligible_file_paths(rest, include_hidden);
                assert(prev.contains(p));
                let k = choose|k: int|
                    0 <= k < rest.len() && (#[trigger] rest[k]).path == p && !rest[k].is_dir
                        && spec_eligible(rest[k].hidden, include_hidden);
                assert(entries[k] == rest[k]);
            }
        }
        if exists|k: int|
            0 <= k < entries.len() && (#[trigger] entries[k]).path == p && !entries[k].is_dir
                && spec_eligible(entries[k].hidden, include_hidden) {
            let k = choose|k: int|
                0 <= k < entries.len() && (#[trigger] entries[k]).path == p && !entries[k].is_dir
                    && spec_eligible(entries[k].hidden, include_hidden);
            let prev = eligible_file_paths(rest, include_hidden);
            if k < entries.len() - 1 {
                assert(rest[k] == entries[k]);
                assert(prev.contains(p));
                if spec_eligible(e.hidden, include_hidden) && !e.is_dir {
                    let j = choose|j: int| 0 <= j < prev.len() && prev[j] == p;
                    assert(prev.push(e.path)[j] == p);
                }
            } else {
                assert(e == entries[k]);
                assert(prev.push(e.path)[prev.len() as int] == p);
            }
        }
    }
}

/// Hidden filtering over directories: a path stands among the
/// discovered subdirectories exactly when some listing entry carries
/// it, is a directory, and passes the filter.
pub proof fn lemma_dir_paths_membership(
    entries: Seq<EntryView>,
    include_hidden: bool,
    p: Seq<char>,
)
    ensures
        eligible_dir_paths(entries, include_hidden).contains(p) <==> exists|k: int|
            0 <= k < entries.len() && (#[trigger] entries[k]).path == p && entries[k].is_dir
                && spec_eligible(entries[k].hidden, include_hidden),
    decreases entries.len(),
{
    if entries.len() > 0 {
        let rest = entries.drop_last();
        let e = entries.last();
        lemma_dir_paths_membership(rest, include_hidden, p);
        if eligible_dir_paths(entries, include_hidden).contains(p) {
            if spec_eligible(e.hidden, include_hidden) && e.is_dir && e.path == p {
                assert(entries[entries.len() - 1] == e);
            } else {
                let prev = eligible_dir_paths(rest, include_hidden);
                assert(prev.contains(p));
                let k = choose|k: int|
                    0 <= k < rest.len() && (#[trigger] rest[k]).path == p && rest[k].is_dir
                        && spec_eligible(rest[k].hidden, include_hidden);
                assert(entries[k] == rest[k]);
            }
        }
        if exists|k: int|
            0 <= k < entries.len() && (#[trigger] entries[k]).path == p && entries[k].is_dir
                && spec_eligible(entries[k].hidden, include_hidden) {
            let k = choose|k: int|
                0 <= k < entries.len() && (#[trigger] entries[k]).path == p && entries[k].is_dir
                    && spec_eligible(entries[k].hidden, include_hidden);
            let prev = eligible_dir_paths(rest, include_hidden);
            if k < entries.len() - 1 {
                assert(rest[k] == entries[k]);
                assert(prev.contains(p));
                if spec_eligible(e.hidden, include_hidden) && e.is_dir {
                    let j = choose|j: int| 0 <= j < prev.len() && prev[j] == p;
                    assert(prev.push(e.path)[j] == p);
                }
            } else {
                assert(e == entries[k]);
                assert(prev.push(e.path)[prev.len() as int] == p);
            }
        }
    }
}

/// Splits one directory listing into the files to hash and the
/// subdirectories to queue: exactly the eligible entries of each kind,
/// in listing order. Hidden entries are skipped entirely when
/// `include_hidden` is false, so a hidden file is never hashed and a
/// hidden directory is never descended into.
pub fn classify_entries(entries: &Vec<FileEntry>, include_hidden: bool) -> (r: (
    Vec<String>,
    Vec<String>,
))
    ensures
        r.0.deep_view() == eligible_file_paths(entries.deep_view(), include_hidden),
        r.1.deep_view() == eligible_dir_paths(entries.deep_view(), include_hidden),
{
    let mut files: Vec<String> = Vec::new();
    let mut dirs: Vec<String> = Vec::new();
    let n = entries.len();
    for i in 0..n
        invariant
            n == entries.len(),
            files.deep_view() == eligible_file_paths(
                entries.deep_view().take(i as int),
                include_hidden,
            ),
            dirs.deep_view() == eligible_dir_paths(
                entries.deep_view().take(i as int),
                include_hidden,
            ),
    {
        proof {
            assert(entries.deep_view().take(i + 1).drop_last() =~= entries.deep_view().take(
                i as int,
            ));
            assert(entries.deep_view().take(i + 1).last() == entries[i as int]@);
        }
        if is_eligible(&entries[i], include_hidden) {
            if entries[i].is_dir {
                dirs.push(entries[i].path.clone());
            } else {
                files.push(entries[i].path.clone());
            }
        }
    }
    proof {
        assert(entries.deep_view().take(n as int) =~= entries.deep_view());
    }
    (files, dirs)
}

} // verus!
