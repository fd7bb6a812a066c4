//! Finding the worktree or repository that contains a path.

use crate::fs_path;
use crate::fs_path::FsPath;
use vstd::prelude::*;

verus! {

broadcast use vstd::string::group_string_axioms;

/// The entry that marks a directory as the root of a worktree or repository.
pub open spec fn git_marker(directory: Seq<u8>) -> Seq<u8> {
    fs_path::join(directory, seq![0x2eu8, 0x67u8, 0x69u8, 0x74u8])
}

/// Where to look for the root above `path`: the `.git` entry of the path itself
/// and of each ancestor, the nearest first.
pub open spec fn git_markers(path: Seq<u8>) -> Seq<Seq<u8>> {
    fs_path::ancestors(path).map_values(|directory: Seq<u8>| git_marker(directory))
}

/// The nearest of a path and its ancestors that holds a marker.
pub open spec fn worktree_root(path: Seq<u8>, exists_at: spec_fn(Seq<u8>) -> bool) -> Option<
    Seq<u8>,
>
    decreases path.len(),
{
    if exists_at(git_marker(path)) {
        Some(path)
    } else {
        match fs_path::parent(path) {
            Some(up) => {
                proof {
                    fs_path::lemma_parent_is_shorter(path);
                }
                worktree_root(up, exists_at)
            },
            None => None,
        }
    }
}

/// What was found at the first places to look tells where the root is: all of
/// the places were looked at, or the last one looked at holds a marker.
pub open spec fn is_probed(
    path: Seq<u8>,
    found: Seq<bool>,
    exists_at: spec_fn(Seq<u8>) -> bool,
) -> bool {
    &&& found.len() <= git_markers(path).len()
    &&& forall|k: int|
        0 <= k < found.len() ==> found[k] == exists_at(#[trigger] git_markers(path)[k])
    &&& found.len() == git_markers(path).len() || (found.len() > 0 && found.last())
}

/// The root is the nearest place that holds a marker, and the path lies in it.
pub proof fn lemma_worktree_root_is_nearest(
    path: Seq<u8>,
    exists_at: spec_fn(Seq<u8>) -> bool,
    k: int,
)
    requires
        0 <= k <= git_markers(path).len(),
        forall|j: int| 0 <= j < k ==> !exists_at(#[trigger] git_markers(path)[j]),
        k < git_markers(path).len() ==> exists_at(git_markers(path)[k]),
    ensures
        worktree_root(path, exists_at) == (if k < git_markers(path).len() {
            Some(fs_path::ancestors(path)[k])
        } else {
            None
        }),
        k < git_markers(path).len() ==> fs_path::starts_with(path, fs_path::ancestors(path)[k]),
    decreases path.len(),
{
    let all = fs_path::ancestors(path);
    assert(git_markers(path)[0] == git_marker(path));
    if k > 0 {
        match fs_path::parent(path) {
            Some(up) => {
                fs_path::lemma_parent_is_shorter(path);
                fs_path::lemma_parent_components(path);
                let rest = fs_path::ancestors(up);
                assert(all =~= seq![path] + rest);
                assert forall|j: int| 0 <= j < k - 1 implies !exists_at(
                    #[trigger] git_markers(up)[j],
                ) by {
                    assert(git_markers(path)[j + 1] == git_markers(up)[j]);
                }
                if k < git_markers(path).len() {
                    assert(git_markers(path)[k] == git_markers(up)[k - 1]);
                }
                lemma_worktree_root_is_nearest(up, exists_at, k - 1);
                if k < git_markers(path).len() {
                    let root = fs_path::components(all[k]);
                    let lower = fs_path::components(up);
                    assert(root =~= fs_path::components(path).subrange(0, root.len() as int)) by {
                        assert(root == lower.subrange(0, root.len() as int));
                    }
                }
            },
            None => {},
        }
    }
}

/// The root of a path in its shortest spelling is spelled so too.
pub proof fn lemma_worktree_root_is_normal(path: Seq<u8>, exists_at: spec_fn(Seq<u8>) -> bool)
    requires
        fs_path::is_normal(path),
    ensures
        worktree_root(path, exists_at) matches Some(root) ==> fs_path::is_normal(root),
    decreases path.len(),
{
    if !exists_at(git_marker(path)) {
        match fs_path::parent(path) {
            Some(up) => {
                fs_path::lemma_parent_is_shorter(path);
                fs_path::lemma_parent_is_normal(path);
                lemma_worktree_root_is_normal(up, exists_at);
            },
            None => {},
        }
    }
}

proof fn lemma_probed_root(path: Seq<u8>, found: Seq<bool>, k: int)
    requires
        0 <= k <= found.len(),
        forall|j: int| 0 <= j < k ==> !found[j],
        k < found.len() ==> found[k],
    ensures
        forall|exists_at: spec_fn(Seq<u8>) -> bool|
            is_probed(path, found, exists_at) ==> #[trigger] worktree_root(path, exists_at) == (if k
                < found.len() {
                Some(fs_path::ancestors(path)[k])
            } else {
                None
            }),
{
    assert forall|exists_at: spec_fn(Seq<u8>) -> bool|
        is_probed(path, found, exists_at) implies #[trigger] worktree_root(path, exists_at) == (if k
        < found.len() {
        Some(fs_path::ancestors(path)[k])
    } else {
        None
    }) by {
        assert forall|j: int| 0 <= j < k implies !exists_at(#[trigger] git_markers(path)[j]) by {
            assert(!found[j]);
        }
        if k < found.len() {
            assert(found[k] == exists_at(git_markers(path)[k]));
        }
        lemma_worktree_root_is_nearest(path, exists_at, k);
    }
}

/// The places to look for a `.git` entry, the nearest first.
pub fn git_marker_paths(path: &FsPath) -> (markers: Vec<FsPath>)
    ensures
        fs_path::path_list(markers@) == git_markers(path@),
{
    let marker = FsPath::from_text(".git");
    proof {
        reveal_strlit(".git");
        assert(".git"@ =~= seq!['.', 'g', 'i', 't']);
        vstd::utf8::is_ascii_chars_encode_utf8(".git"@);
        assert(marker@ =~= seq![0x2eu8, 0x67u8, 0x69u8, 0x74u8]);
    }
    let mut markers: Vec<FsPath> = Vec::new();
    let mut current = path.clone();
    let ghost all = fs_path::ancestors(path@);
    let ghost mut done: Seq<Seq<u8>> = seq![];
    assert(all =~= done + fs_path::ancestors(current@));
    loop
        invariant
            marker@ == seq![0x2eu8, 0x67u8, 0x69u8, 0x74u8],
            all == fs_path::ancestors(path@),
            all == done + fs_path::ancestors(current@),
            fs_path::path_list(markers@) == done.map_values(
                |directory: Seq<u8>| git_marker(directory),
            ),
        decreases current@.len(),
    {
        let ghost before = fs_path::path_list(markers@);
        markers.push(current.join(&marker));
        proof {
            assert(fs_path::path_list(markers@) =~= before.push(git_marker(current@)));
        }
        match current.parent() {
            Some(up) => {
                proof {
                    fs_path::lemma_parent_is_shorter(current@);
                    let more = done.push(current@);
                    assert(all =~= more + fs_path::ancestors(up@));
                    assert(fs_path::path_list(markers@) =~= more.map_values(
                        |directory: Seq<u8>| git_marker(directory),
                    ));
                    done = more;
                }
                current = up;
            },
            None => {
                proof {
                    assert(all =~= done.push(current@));
                    assert(fs_path::path_list(markers@) =~= git_markers(path@));
                }
                return markers;
            },
        }
    }
}

/// The containing worktree or repository root of a path, given what was found
/// at the places that `git_marker_paths` lists; places that were not looked at
/// hold none.
///
/// Git worktrees have a `.git` file, regular repositories a `.git` directory.
/// `None` if no `.git` was found.
pub fn find_worktree_root(path: &FsPath, found: &[bool]) -> (root: Option<FsPath>)
    ensures
        match root {
            Some(root) => exists|k: int|
                0 <= k < found@.len() && k < fs_path::ancestors(path@).len() && #[trigger] found@[k]
                    && (forall|j: int| 0 <= j < k ==> !found@[j]) && root@ == fs_path::ancestors(
                    path@,
                )[k],
            None => forall|k: int|
                0 <= k < found@.len() && k < fs_path::ancestors(path@).len() ==> !found@[k],
        },
        forall|exists_at: spec_fn(Seq<u8>) -> bool|
            is_probed(path@, found@, exists_at) ==> fs_path::path_option(root) == #[trigger] worktree_root(
                path@,
                exists_at,
            ),
{
    let mut current = path.clone();
    let mut i: usize = 0;
    let ghost all = fs_path::ancestors(path@);
    assert(all.skip(0) =~= all);
    while i < found.len()
        invariant
            i <= found@.len(),
            i < all.len(),
            all == fs_path::ancestors(path@),
            all.skip(i as int) == fs_path::ancestors(current@),
            forall|j: int| 0 <= j < i ==> !found@[j],
        decreases found.len() - i,
    {
        assert(all[i as int] == all.skip(i as int)[0]);
        if found[i] {
            proof {
                lemma_probed_root(path@, found@, i as int);
            }
            return Some(current);
        }
        match current.parent() {
            Some(up) => {
                proof {
                    let rest = fs_path::ancestors(up@);
                    assert(all.skip(i as int) =~= seq![current@] + rest);
                    assert(all.skip(i + 1) =~= all.skip(i as int).skip(1));
                    assert(all.skip(i + 1) =~= rest);
                    assert(rest.len() > 0);
                }
                current = up;
                i += 1;
            },
            None => {
                proof {
                    assert(all.skip(i as int).len() == 1);
                    if found@.len() == i + 1 {
                        lemma_probed_root(path@, found@, i + 1);
                    }
                }
                return None;
            },
        }
    }
    proof {
        lemma_probed_root(path@, found@, i as int);
    }
    None
}

/// The places to look are the `.git` entries of the path, its parent, the parent of
/// that, and so on, all the way up.
pub proof fn lemma_markers_reach_all_the_way_up(path: Seq<u8>, steps: nat)
    ensures
        fs_path::above(path, steps) is Some <==> steps < git_markers(path).len(),
        fs_path::above(path, steps) matches Some(directory) ==> git_markers(path)[steps as int]
            == fs_path::join(directory, vstd::utf8::encode_utf8(".git"@)),
{
    fs_path::lemma_ancestors_reach_all_the_way_up(path, steps);
    lemma_marker_name();
}

proof fn lemma_marker_name()
    ensures
        vstd::utf8::encode_utf8(".git"@) == seq![0x2eu8, 0x67u8, 0x69u8, 0x74u8],
{
    reveal_strlit(".git");
    assert(".git"@ =~= seq!['.', 'g', 'i', 't']);
    vstd::utf8::is_ascii_chars_encode_utf8(".git"@);
    assert(vstd::utf8::encode_utf8(".git"@) =~= seq![0x2eu8, 0x67u8, 0x69u8, 0x74u8]);
}

/// If a `.git` exists in the path or anywhere above it, a root is found: the nearest
/// such place.
pub proof fn lemma_a_marker_anywhere_above_is_found(
    path: Seq<u8>,
    exists_at: spec_fn(Seq<u8>) -> bool,
    steps: nat,
)
    requires
        fs_path::above(path, steps) matches Some(directory) && exists_at(
            fs_path::join(directory, vstd::utf8::encode_utf8(".git"@)),
        ),
    ensures
        exists|nearest: nat|
            nearest <= steps && #[trigger] fs_path::above(path, nearest) is Some && worktree_root(
                path,
                exists_at,
            ) == fs_path::above(path, nearest) && exists_at(
                fs_path::join(
                    fs_path::above(path, nearest)->0,
                    vstd::utf8::encode_utf8(".git"@),
                ),
            ) && (forall|lower: nat|
                lower < nearest ==> !exists_at(
                    fs_path::join(
                        (#[trigger] fs_path::above(path, lower))->0,
                        vstd::utf8::encode_utf8(".git"@),
                    ),
                )),
{
    let nearest = lemma_first_marker(path, exists_at, steps);
    assert forall|j: int| 0 <= j < nearest implies !exists_at(#[trigger] git_markers(path)[j]) by {
        lemma_markers_reach_all_the_way_up(path, j as nat);
        assert(fs_path::above(path, j as nat) is Some) by {
            lemma_markers_reach_all_the_way_up(path, steps);
        }
    }
    lemma_markers_reach_all_the_way_up(path, nearest);
    lemma_worktree_root_is_nearest(path, exists_at, nearest as int);
    fs_path::lemma_ancestors_reach_all_the_way_up(path, nearest);
}

proof fn lemma_first_marker(
    path: Seq<u8>,
    exists_at: spec_fn(Seq<u8>) -> bool,
    steps: nat,
) -> (nearest: nat)
    requires
        fs_path::above(path, steps) matches Some(directory) && exists_at(
            fs_path::join(directory, vstd::utf8::encode_utf8(".git"@)),
        ),
    ensures
        nearest <= steps,
        fs_path::above(path, nearest) is Some,
        exists_at(
            fs_path::join(fs_path::above(path, nearest)->0, vstd::utf8::encode_utf8(".git"@)),
        ),
        forall|lower: nat|
            lower < nearest ==> !exists_at(
                fs_path::join(
                    (#[trigger] fs_path::above(path, lower))->0,
                    vstd::utf8::encode_utf8(".git"@),
                ),
            ),
    decreases steps,
{
    if exists|lower: nat|
        lower < steps && exists_at(
            fs_path::join(
                (#[trigger] fs_path::above(path, lower))->0,
                vstd::utf8::encode_utf8(".git"@),
            ),
        ) {
        let lower = choose|lower: nat|
            lower < steps && exists_at(
                fs_path::join(
                    (#[trigger] fs_path::above(path, lower))->0,
                    vstd::utf8::encode_utf8(".git"@),
                ),
            );
        fs_path::lemma_ancestors_reach_all_the_way_up(path, lower);
        fs_path::lemma_ancestors_reach_all_the_way_up(path, steps);
        lemma_first_marker(path, exists_at, lower)
    } else {
        steps
    }
}

/// A root is found only where a `.git` exists in the path or above it.
pub proof fn lemma_a_root_holds_a_marker(path: Seq<u8>, exists_at: spec_fn(Seq<u8>) -> bool)
    ensures
        worktree_root(path, exists_at) matches Some(root) ==> exists_at(
            fs_path::join(root, vstd::utf8::encode_utf8(".git"@)),
        ) && (exists|steps: nat| #[trigger] fs_path::above(path, steps) == Some(root)),
    decreases path.len(),
{
    lemma_marker_name();
    if exists_at(git_marker(path)) {
        assert(fs_path::above(path, 0) == Some(path));
    } else {
        match fs_path::parent(path) {
            Some(up) => {
                fs_path::lemma_parent_is_shorter(path);
                lemma_a_root_holds_a_marker(up, exists_at);
                if let Some(root) = worktree_root(path, exists_at) {
                    let steps = choose|steps: nat| #[trigger]
                        fs_path::above(up, steps) == Some(root);
                    fs_path::lemma_ancestors_reach_all_the_way_up(up, steps);
                    fs_path::lemma_ancestors_reach_all_the_way_up(path, steps + 1);
                    assert(fs_path::ancestors(path) =~= seq![path] + fs_path::ancestors(up));
                    assert(fs_path::above(path, steps + 1) == Some(root));
                }
            },
            None => {},
        }
    }
}

} // verus!
