//! Finding a project's root: the directories from the current file up to
//! the top, and the first of them that holds a root marker. Whether a
//! directory holds a marker is for the application to look up on disk.
use vstd::prelude::*;

verus! {

/// The parent of a path, as `std::path::Path::parent` gives it.
pub uninterp spec fn parent_of(path: Seq<char>) -> Option<Seq<char>>;

/// Relies on `std::path::Path::parent`: the path without its last
/// component, if it has one, which is shorter than the path.
#[verifier::external_body]
fn parent_dir(path: &str) -> (r: Option<String>)
    ensures
        match r {
            Some(p) => parent_of(path@) == Some(p@) && p@.len() < path@.len(),
            None => parent_of(path@) is None,
        },
{
    match std::path::Path::new(path).parent() {
        Some(p) => p.to_str().map(|s| s.to_owned()),
        None => None,
    }
}

/// Whether `dirs` is the chain of directories from `start` upward: each the
/// parent of the one before, the last without a parent.
pub open spec fn upward_chain(dirs: Seq<Seq<char>>, start: Seq<char>) -> bool {
    &&& dirs.len() >= 1
    &&& dirs[0] == start
    &&& forall|i: int| 0 <= i < dirs.len() - 1 ==> parent_of(#[trigger] dirs[i]) == Some(dirs[i + 1])
    &&& parent_of(dirs.last()) is None
}

/// The directories to look for root markers in, nearest first: the
/// directory of the current file (the path itself where it is a directory),
/// then each parent up to the top. Where the parent of a file cannot be
/// named, there is nothing to look in.
pub fn search_dirs(cur_path: &str, cur_is_file: bool) -> (r: Vec<String>)
    ensures
        cur_is_file && parent_of(cur_path@) is None ==> r@.len() == 0,
        cur_is_file && parent_of(cur_path@) is Some ==> upward_chain(
            crate::edits::lines_view(r@),
            parent_of(cur_path@)->0,
        ),
        !cur_is_file ==> upward_chain(crate::edits::lines_view(r@), cur_path@),
{
    let start = if cur_is_file {
        match parent_dir(cur_path) {
            Some(p) => p,
            None => {
                return Vec::new();
            },
        }
    } else {
        cur_path.to_owned()
    };
    let ghost first = start@;
    let mut dirs: Vec<String> = Vec::new();
    let mut cur = start;
    loop
        invariant
            cur_is_file ==> parent_of(cur_path@) == Some(first),
            !cur_is_file ==> first == cur_path@,
            dirs@.len() == 0 ==> cur@ == first,
            dirs@.len() > 0 ==> {
                let v = crate::edits::lines_view(dirs@);
                &&& v[0] == first
                &&& forall|i: int| 0 <= i < v.len() - 1 ==> parent_of(#[trigger] v[i]) == Some(v[i + 1])
                &&& parent_of(v.last()) == Some(cur@)
            },
        decreases cur@.len(),
    {
        let next = parent_dir(cur.as_str());
        let ghost before = crate::edits::lines_view(dirs@);
        let ghost cur_view = cur@;
        match next {
            Some(p) => {
                dirs.push(cur);
                proof {
                    let v = crate::edits::lines_view(dirs@);
                    assert(v =~= before.push(cur_view));
                }
                cur = p;
            },
            None => {
                dirs.push(cur);
                proof {
                    let v = crate::edits::lines_view(dirs@);
                    assert(v =~= before.push(cur_view));
                }
                return dirs;
            },
        }
    }
}

/// The first of `dirs` that holds a root marker, as `has_marker` says of
/// each; `None` where none does.
pub fn find_root_path(dirs: &Vec<String>, has_marker: &Vec<bool>) -> (r: Option<String>)
    requires
        has_marker@.len() == dirs@.len(),
    ensures
        match r {
            Some(root) => exists|i: int|
                0 <= i < dirs@.len() && #[trigger] has_marker@[i] && dirs@[i]@ == root@ && forall|j: int|
                    0 <= j < i ==> !has_marker@[j],
            None => forall|i: int| 0 <= i < dirs@.len() ==> !has_marker@[i],
        },
{
    let mut i: usize = 0;
    while i < dirs.len()
        invariant
            i <= dirs.len(),
            has_marker@.len() == dirs@.len(),
            forall|j: int| 0 <= j < i ==> !has_marker@[j],
        decreases dirs.len() - i,
    {
        if has_marker[i] {
            return Some(dirs[i].clone());
        }
        i = i + 1;
    }
    None
}

} // verus!
