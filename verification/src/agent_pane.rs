//! Agents and the directories they run in.

use crate::fs_path;
use crate::fs_path::FsPath;
use vstd::prelude::*;

verus! {

broadcast use vstd::string::group_string_axioms;

/// An agent and the directory it runs in.
pub struct AgentPane {
    pub session: String,
    pub window_name: String,
    pub pane_id: String,
    pub path: FsPath,
}

/// What an agent pane holds.
pub struct PaneView {
    pub session: Seq<char>,
    pub window_name: Seq<char>,
    pub pane_id: Seq<char>,
    pub path: Seq<u8>,
}

impl View for AgentPane {
    type V = PaneView;

    open spec fn view(&self) -> PaneView {
        PaneView {
            session: self.session@,
            window_name: self.window_name@,
            pane_id: self.pane_id@,
            path: self.path@,
        }
    }
}

impl Clone for AgentPane {
    fn clone(&self) -> (copy: Self)
        ensures
            copy@ == self@,
    {
        AgentPane {
            session: self.session.clone(),
            window_name: self.window_name.clone(),
            pane_id: self.pane_id.clone(),
            path: self.path.clone(),
        }
    }
}

/// What a list of panes holds.
pub open spec fn pane_list(panes: Seq<AgentPane>) -> Seq<PaneView> {
    panes.map_values(|pane: AgentPane| pane@)
}

/// Whether a canonical path lies in a canonical worktree.
pub open spec fn lies_in(path: Seq<u8>, worktree: Seq<u8>) -> bool {
    fs_path::same_path(path, worktree) || fs_path::starts_with(path, worktree)
}

/// The panes that run in a worktree, in their order, where `canonical` holds the
/// canonical path of each pane.
pub open spec fn panes_in(
    panes: Seq<PaneView>,
    canonical: Seq<Seq<u8>>,
    worktree: Seq<u8>,
) -> Seq<PaneView>
    decreases panes.len(),
{
    if panes.len() == 0 {
        seq![]
    } else {
        let before = panes_in(panes.drop_last(), canonical.drop_last(), worktree);
        if lies_in(canonical.last(), worktree) {
            before.push(panes.last())
        } else {
            before
        }
    }
}

/// What a list of borrowed panes holds.
pub open spec fn pane_refs(panes: Seq<&AgentPane>) -> Seq<PaneView> {
    panes.map_values(|pane: &AgentPane| pane@)
}

/// The agents that run in a worktree, given the canonical path of each agent
/// (its own path where it has none) and that of the worktree.
pub fn match_agents_to_worktree<'a>(
    agents: &'a [AgentPane],
    canonical: &[FsPath],
    worktree: &FsPath,
) -> (matching: Vec<&'a AgentPane>)
    requires
        canonical@.len() == agents@.len(),
    ensures
        pane_refs(matching@) == panes_in(
            pane_list(agents@),
            fs_path::path_list(canonical@),
            worktree@,
        ),
{
    let ghost panes = pane_list(agents@);
    let ghost paths = fs_path::path_list(canonical@);
    let mut matching: Vec<&'a AgentPane> = Vec::new();
    let mut i: usize = 0;
    assert(pane_refs(matching@) =~= panes_in(panes.take(0), paths.take(0), worktree@));
    while i < agents.len()
        invariant
            i <= agents@.len(),
            canonical@.len() == agents@.len(),
            panes == pane_list(agents@),
            paths == fs_path::path_list(canonical@),
            pane_refs(matching@) == panes_in(
                panes.take(i as int),
                paths.take(i as int),
                worktree@,
            ),
        decreases agents.len() - i,
    {
        let ghost before = pane_refs(matching@);
        if canonical[i].same_path(worktree) || canonical[i].starts_with(worktree) {
            matching.push(&agents[i]);
            assert(pane_refs(matching@) =~= before.push(agents@[i as int]@));
        }
        proof {
            assert(panes.take(i + 1).drop_last() =~= panes.take(i as int));
            assert(paths.take(i + 1).drop_last() =~= paths.take(i as int));
        }
        i += 1;
    }
    assert(panes.take(i as int) =~= panes);
    assert(paths.take(i as int) =~= paths);
    matching
}

/// The worktree with copies of the agents that run in it.
pub fn resolve_local_agents(
    agents: &[AgentPane],
    canonical: &[FsPath],
    worktree: &FsPath,
    canonical_worktree: &FsPath,
) -> (resolved: (FsPath, Vec<AgentPane>))
    requires
        canonical@.len() == agents@.len(),
    ensures
        resolved.0@ == worktree@,
        pane_list(resolved.1@) == panes_in(
            pane_list(agents@),
            fs_path::path_list(canonical@),
            canonical_worktree@,
        ),
{
    let matching = match_agents_to_worktree(agents, canonical, canonical_worktree);
    let mut copies: Vec<AgentPane> = Vec::new();
    let mut i: usize = 0;
    while i < matching.len()
        invariant
            i <= matching@.len(),
            copies@.len() == i,
            forall|j: int| 0 <= j < i ==> (#[trigger] copies@[j])@ == matching@[j]@,
        decreases matching.len() - i,
    {
        copies.push(matching[i].clone());
        i += 1;
    }
    assert(pane_list(copies@) =~= pane_refs(matching@));
    (worktree.clone(), copies)
}

/// A pane at the worktree's own path, or anywhere below it, is in the worktree;
/// every pane that is in it is one of the given panes.
pub proof fn lemma_panes_in(
    panes: Seq<PaneView>,
    canonical: Seq<Seq<u8>>,
    worktree: Seq<u8>,
    pane: PaneView,
)
    requires
        canonical.len() == panes.len(),
    ensures
        panes_in(panes, canonical, worktree).contains(pane) <==> exists|i: int|
            0 <= i < panes.len() && #[trigger] panes[i] == pane && fs_path::starts_with(
                canonical[i],
                worktree,
            ),
    decreases panes.len(),
{
    if panes.len() > 0 {
        let last = panes.len() - 1;
        let before = panes_in(panes.drop_last(), canonical.drop_last(), worktree);
        let all = panes_in(panes, canonical, worktree);
        lemma_panes_in(panes.drop_last(), canonical.drop_last(), worktree, pane);
        let root = fs_path::components(worktree);
        assert(fs_path::same_path(canonical[last], worktree) ==> root =~= fs_path::components(
            canonical[last],
        ).subrange(0, root.len() as int));
        if all.contains(pane) {
            let at = choose|at: int| 0 <= at < all.len() && all[at] == pane;
            if at < before.len() {
                assert(before.contains(before[at]));
                let i = choose|i: int|
                    0 <= i < panes.len() - 1 && #[trigger] panes.drop_last()[i] == pane
                        && fs_path::starts_with(canonical.drop_last()[i], worktree);
                assert(panes[i] == pane);
            } else {
                assert(panes[last] == pane);
            }
        }
        if exists|i: int|
            0 <= i < panes.len() && #[trigger] panes[i] == pane && fs_path::starts_with(
                canonical[i],
                worktree,
            ) {
            let i = choose|i: int|
                0 <= i < panes.len() && #[trigger] panes[i] == pane && fs_path::starts_with(
                    canonical[i],
                    worktree,
                );
            if i < last {
                assert(panes.drop_last()[i] == pane);
                let at = choose|at: int| 0 <= at < before.len() && before[at] == pane;
                assert(all[at] == pane);
            } else {
                assert(all[all.len() - 1] == pane);
            }
        }
    }
}

/// How often a pane stands among those in a worktree: as often as it stands in the
/// list if it is in the worktree, and not at all if not.
proof fn lemma_panes_in_count(
    panes: Seq<PaneView>,
    canonical: spec_fn(Seq<u8>) -> Seq<u8>,
    worktree: Seq<u8>,
    pane: PaneView,
)
    ensures
        panes_in(panes, panes.map_values(|p: PaneView| canonical(p.path)), worktree).to_multiset()
            .count(pane) == (if lies_in(canonical(pane.path), worktree) {
            panes.to_multiset().count(pane)
        } else {
            0
        }),
    decreases panes.len(),
{
    let paths = panes.map_values(|p: PaneView| canonical(p.path));
    let all = panes_in(panes, paths, worktree);
    if panes.len() == 0 {
        vstd::seq_lib::to_multiset_contains(all, pane);
        vstd::seq_lib::to_multiset_contains(panes, pane);
    } else {
        let rest = panes.drop_last();
        let before = panes_in(rest, rest.map_values(|p: PaneView| canonical(p.path)), worktree);
        assert(paths.drop_last() =~= rest.map_values(|p: PaneView| canonical(p.path)));
        lemma_panes_in_count(rest, canonical, worktree, pane);
        assert(panes =~= rest.push(panes.last()));
        vstd::seq_lib::to_multiset_build(rest, panes.last());
        vstd::seq_lib::to_multiset_build(before, panes.last());
    }
}

/// The panes in a worktree are the same in any list of the same panes, up to their
/// order, where the canonical path of a pane is a function of its path.
pub proof fn lemma_panes_in_ignore_order(
    a: Seq<PaneView>,
    b: Seq<PaneView>,
    canonical: spec_fn(Seq<u8>) -> Seq<u8>,
    worktree: Seq<u8>,
)
    requires
        a.to_multiset() == b.to_multiset(),
    ensures
        panes_in(a, a.map_values(|p: PaneView| canonical(p.path)), worktree).to_multiset()
            == panes_in(
            b,
            b.map_values(|p: PaneView| canonical(p.path)),
            worktree,
        ).to_multiset(),
{
    let of_a = panes_in(a, a.map_values(|p: PaneView| canonical(p.path)), worktree).to_multiset();
    let of_b = panes_in(b, b.map_values(|p: PaneView| canonical(p.path)), worktree).to_multiset();
    assert forall|pane: PaneView| of_a.count(pane) == of_b.count(pane) by {
        lemma_panes_in_count(a, canonical, worktree, pane);
        lemma_panes_in_count(b, canonical, worktree, pane);
    }
    assert(of_a =~= of_b);
}

/// The panes in a worktree are those whose canonical path is that of the worktree or
/// lies below it: each of them once, in their order. The positions of these panes in
/// the list are given back.
pub proof fn lemma_panes_in_keep_their_order(
    panes: Seq<PaneView>,
    canonical: Seq<Seq<u8>>,
    worktree: Seq<u8>,
) -> (at: Seq<int>)
    requires
        canonical.len() == panes.len(),
    ensures
        at.len() == panes_in(panes, canonical, worktree).len(),
        forall|k: int|
            0 <= k < at.len() ==> 0 <= #[trigger] at[k] < panes.len() && panes_in(
                panes,
                canonical,
                worktree,
            )[k] == panes[at[k]],
        forall|k: int, l: int| 0 <= k < l < at.len() ==> #[trigger] at[k] < #[trigger] at[l],
        forall|i: int|
            0 <= i < panes.len() ==> (#[trigger] at.contains(i) <==> fs_path::starts_with(
                canonical[i],
                worktree,
            )),
    decreases panes.len(),
{
    if panes.len() == 0 {
        seq![]
    } else {
        let last = panes.len() - 1;
        let before = lemma_panes_in_keep_their_order(
            panes.drop_last(),
            canonical.drop_last(),
            worktree,
        );
        let root = fs_path::components(worktree);
        assert(fs_path::same_path(canonical[last], worktree) ==> root =~= fs_path::components(
            canonical[last],
        ).subrange(0, root.len() as int));
        let listed = panes_in(panes.drop_last(), canonical.drop_last(), worktree);
        assert forall|k: int| 0 <= k < before.len() implies listed[k] == panes[#[trigger] before[k]]
            && before[k] < last by {
            assert(panes.drop_last()[before[k]] == panes[before[k]]);
        }
        assert forall|i: int| 0 <= i < last implies (#[trigger] before.contains(i)
            <==> fs_path::starts_with(canonical[i], worktree)) by {
            assert(canonical.drop_last()[i] == canonical[i]);
        }
        if fs_path::starts_with(canonical[last], worktree) {
            let at = before.push(last);
            assert(at[before.len() as int] == last);
            assert forall|i: int| 0 <= i < panes.len() implies (#[trigger] at.contains(i)
                <==> fs_path::starts_with(canonical[i], worktree)) by {
                if i < last {
                    if before.contains(i) {
                        let k = choose|k: int| 0 <= k < before.len() && before[k] == i;
                        assert(at[k] == i);
                    }
                    if at.contains(i) {
                        let k = choose|k: int| 0 <= k < at.len() && at[k] == i;
                        assert(before[k] == i);
                    }
                }
            }
            at
        } else {
            assert forall|i: int| 0 <= i < panes.len() implies (#[trigger] before.contains(i)
                <==> fs_path::starts_with(canonical[i], worktree)) by {
                if i == last && before.contains(i) {
                    let k = choose|k: int| 0 <= k < before.len() && before[k] == i;
                    assert(before[k] < last);
                }
            }
            before
        }
    }
}

} // verus!
