//! Agents grouped by their worktree, and the choice of one group by name.

use crate::agent_pane;
use crate::agent_pane::{AgentPane, PaneView};
use crate::agent_selector;
use crate::agent_selector::{format_selector, AgentProject, ProjectView};
use crate::fs_path;
use crate::fs_path::FsPath;
use crate::text;
use vstd::prelude::*;

verus! {

broadcast use vstd::string::group_string_axioms;

/// The agents of one worktree.
pub struct AgentGroup {
    pub root: FsPath,
    pub panes: Vec<AgentPane>,
}

/// What a group holds.
pub struct GroupView {
    pub root: Seq<u8>,
    pub panes: Seq<PaneView>,
}

impl View for AgentGroup {
    type V = GroupView;

    open spec fn view(&self) -> GroupView {
        GroupView { root: self.root@, panes: agent_pane::pane_list(self.panes@) }
    }
}

/// What a list of groups holds.
pub open spec fn group_list(groups: Seq<AgentGroup>) -> Seq<GroupView> {
    groups.map_values(|group: AgentGroup| group@)
}

/// Why a name was not resolved.
pub enum ResolveError {
    /// No agent runs in a worktree of that name.
    NotFound { selector: String },
    /// Agents run in several worktrees of that name.
    Ambiguous { selector: String, options: Vec<String> },
    /// No agent runs in the worktree.
    NotRunning { name: String },
}

/// What a resolve error holds.
pub enum ResolveErrorView {
    NotFound { selector: Seq<char> },
    Ambiguous { selector: Seq<char>, options: Seq<Seq<char>> },
    NotRunning { name: Seq<char> },
}

impl View for ResolveError {
    type V = ResolveErrorView;

    open spec fn view(&self) -> ResolveErrorView {
        match self {
            ResolveError::NotFound { selector } => ResolveErrorView::NotFound {
                selector: selector@,
            },
            ResolveError::Ambiguous { selector, options } => ResolveErrorView::Ambiguous {
                selector: selector@,
                options: text::texts(options@),
            },
            ResolveError::NotRunning { name } => ResolveErrorView::NotRunning { name: name@ },
        }
    }
}

impl ResolveErrorView {
    /// How the error reads.
    pub open spec fn message(self) -> Seq<char> {
        match self {
            ResolveErrorView::NotFound { selector } => "No agent found matching '"@ + selector
                + "'"@,
            ResolveErrorView::Ambiguous { selector, options } => "Ambiguous agent name '"@
                + selector + "'. Found in multiple worktrees:\n  "@ + text::joined(
                options,
                "\n  "@,
            )
                + "\n\nUse a unique 'project:handle' selector or run from the intended repository with a plain handle."@,
            ResolveErrorView::NotRunning { name } => "No agent running in worktree '"@ + name
                + "'"@,
        }
    }
}

impl ResolveError {
    /// How the error reads.
    pub fn message(&self) -> (s: String)
        ensures
            s@ == self@.message(),
    {
        match self {
            ResolveError::NotFound { selector } => {
                let mut s = "No agent found matching '".to_owned();
                s.append(selector.as_str());
                s.append("'");
                s
            },
            ResolveError::Ambiguous { selector, options } => {
                let mut s = "Ambiguous agent name '".to_owned();
                s.append(selector.as_str());
                s.append("'. Found in multiple worktrees:\n  ");
                s.append(text::join_texts(options, "\n  ").as_str());
                s.append(
                    "\n\nUse a unique 'project:handle' selector or run from the intended repository with a plain handle.",
                );
                s
            },
            ResolveError::NotRunning { name } => {
                let mut s = "No agent running in worktree '".to_owned();
                s.append(name.as_str());
                s.append("'");
                s
            },
        }
    }
}

/// The root that a pane counts under: its worktree root, or its own path outside
/// any repository.
pub open spec fn effective_root(pane: PaneView, root: Option<Seq<u8>>) -> Seq<u8> {
    match root {
        Some(root) => root,
        None => pane.path,
    }
}

/// The name that a worktree root is found by.
pub open spec fn root_name(root: Seq<u8>) -> Seq<char> {
    match fs_path::file_name(root) {
        Some(name) => fs_path::utf8_lossy(name),
        None => seq![],
    }
}

/// The position of the group with this root, or the number of groups if there is
/// none.
pub open spec fn group_index(groups: Seq<GroupView>, root: Seq<u8>) -> int
    decreases groups.len(),
{
    if groups.len() == 0 || fs_path::same_path(groups[0].root, root) {
        0
    } else {
        1 + group_index(groups.drop_first(), root)
    }
}

/// The groups with one more pane: in the group of its root, or in a new last
/// group.
pub open spec fn add_to_groups(groups: Seq<GroupView>, root: Seq<u8>, pane: PaneView) -> Seq<
    GroupView,
> {
    let k = group_index(groups, root);
    if k < groups.len() {
        groups.update(k, GroupView { root: groups[k].root, panes: groups[k].panes.push(pane) })
    } else {
        groups.push(GroupView { root, panes: seq![pane] })
    }
}

/// The panes whose worktree root is named `handle`, grouped by that root, in the
/// order in which the roots first appear.
pub open spec fn grouped(
    panes: Seq<PaneView>,
    roots: Seq<Option<Seq<u8>>>,
    handle: Seq<char>,
) -> Seq<GroupView>
    decreases panes.len(),
{
    if panes.len() == 0 {
        seq![]
    } else {
        let before = grouped(panes.drop_last(), roots.drop_last(), handle);
        let root = effective_root(panes.last(), roots.last());
        if root_name(root) == handle {
            add_to_groups(before, root, panes.last())
        } else {
            before
        }
    }
}

/// The group index is the first position with that root.
proof fn lemma_group_index(groups: Seq<GroupView>, root: Seq<u8>)
    ensures
        0 <= group_index(groups, root) <= groups.len(),
        group_index(groups, root) < groups.len() ==> fs_path::same_path(
            groups[group_index(groups, root)].root,
            root,
        ),
        forall|j: int|
            0 <= j < group_index(groups, root) ==> !fs_path::same_path(
                (#[trigger] groups[j]).root,
                root,
            ),
    decreases groups.len(),
{
    if groups.len() > 0 && !fs_path::same_path(groups[0].root, root) {
        let rest = groups.drop_first();
        lemma_group_index(rest, root);
        assert forall|j: int| 0 <= j < group_index(groups, root) implies !fs_path::same_path(
            (#[trigger] groups[j]).root,
            root,
        ) by {
            if j > 0 {
                assert(groups[j] == rest[j - 1]);
            }
        }
    }
}

/// What a list of optional roots holds.
pub open spec fn root_list(roots: Seq<Option<FsPath>>) -> Seq<Option<Seq<u8>>> {
    roots.map_values(|root: Option<FsPath>| fs_path::path_option(root))
}

/// Find the group with this root.
fn find_group(groups: &Vec<AgentGroup>, root: &FsPath) -> (k: usize)
    ensures
        k == group_index(group_list(groups@), root@),
{
    let ghost all = group_list(groups@);
    let mut k: usize = 0;
    while k < groups.len() && !groups[k].root.same_path(root)
        invariant
            k <= groups@.len(),
            all == group_list(groups@),
            forall|j: int|
                0 <= j < k ==> !fs_path::same_path((#[trigger] all[j]).root, root@),
        decreases groups.len() - k,
    {
        assert(all[k as int].root == groups@[k as int].root@);
        k += 1;
    }
    proof {
        lemma_group_index(all, root@);
        if k < groups@.len() {
            assert(all[k as int].root == groups@[k as int].root@);
        }
    }
    k
}

/// Group the panes whose worktree root is named `handle` by that root.
///
/// `roots` holds the worktree root of each pane, where there is one. However
/// many panes share a worktree, it makes one group.
pub fn group_agents(panes: &[AgentPane], roots: &[Option<FsPath>], handle: &str) -> (groups: Vec<
    AgentGroup,
>)
    requires
        roots@.len() == panes@.len(),
    ensures
        group_list(groups@) == grouped(
            agent_pane::pane_list(panes@),
            root_list(roots@),
            handle@,
        ),
{
    let ghost all = agent_pane::pane_list(panes@);
    let ghost all_roots = root_list(roots@);
    let mut groups: Vec<AgentGroup> = Vec::new();
    let mut i: usize = 0;
    assert(group_list(groups@) =~= grouped(all.take(0), all_roots.take(0), handle@));
    while i < panes.len()
        invariant
            i <= panes@.len(),
            roots@.len() == panes@.len(),
            all == agent_pane::pane_list(panes@),
            all_roots == root_list(roots@),
            group_list(groups@) == grouped(
                all.take(i as int),
                all_roots.take(i as int),
                handle@,
            ),
        decreases panes.len() - i,
    {
        let root = match &roots[i] {
            Some(root) => root.clone(),
            None => panes[i].path.clone(),
        };
        let name = match root.file_name() {
            Some(name) => fs_path::lossy_text(name.as_slice()),
            None => String::new(),
        };
        let ghost before = group_list(groups@);
        proof {
            assert(all.take(i + 1).drop_last() =~= all.take(i as int));
            assert(all_roots.take(i + 1).drop_last() =~= all_roots.take(i as int));
            assert(root@ == effective_root(all[i as int], all_roots[i as int]));
            assert(name@ =~= root_name(root@));
        }
        if text::same_text(name.as_str(), handle) {
            let k = find_group(&groups, &root);
            if k < groups.len() {
                let mut group = groups.remove(k);
                let ghost members = agent_pane::pane_list(group.panes@);
                group.panes.push(panes[i].clone());
                proof {
                    assert(agent_pane::pane_list(group.panes@) =~= members.push(all[i as int]));
                }
                groups.insert(k, group);
                assert(group_list(groups@) =~= add_to_groups(before, root@, all[i as int]));
            } else {
                let mut members: Vec<AgentPane> = Vec::new();
                members.push(panes[i].clone());
                assert(agent_pane::pane_list(members@) =~= seq![all[i as int]]);
                groups.push(AgentGroup { root, panes: members });
                assert(group_list(groups@) =~= add_to_groups(before, root@, all[i as int]));
            }
        }
        i += 1;
    }
    assert(all.take(i as int) =~= all);
    assert(all_roots.take(i as int) =~= all_roots);
    groups
}

/// The panes, in their order, whose worktree root is named `handle` and is the
/// given one.
pub open spec fn panes_under(
    panes: Seq<PaneView>,
    roots: Seq<Option<Seq<u8>>>,
    handle: Seq<char>,
    root: Seq<u8>,
) -> Seq<PaneView>
    decreases panes.len(),
{
    if panes.len() == 0 {
        seq![]
    } else {
        let before = panes_under(panes.drop_last(), roots.drop_last(), handle, root);
        let last = effective_root(panes.last(), roots.last());
        if root_name(last) == handle && fs_path::same_path(last, root) {
            before.push(panes.last())
        } else {
            before
        }
    }
}

/// No two groups have the same root, every group has a pane, and its panes are
/// exactly those of its root, in their order.
pub proof fn lemma_groups_partition_the_panes(
    panes: Seq<PaneView>,
    roots: Seq<Option<Seq<u8>>>,
    handle: Seq<char>,
)
    requires
        roots.len() == panes.len(),
    ensures
        forall|i: int, j: int|
            0 <= i < j < grouped(panes, roots, handle).len() ==> !fs_path::same_path(
                (#[trigger] grouped(panes, roots, handle)[i]).root,
                (#[trigger] grouped(panes, roots, handle)[j]).root,
            ),
        forall|i: int|
            0 <= i < grouped(panes, roots, handle).len() ==> (#[trigger] grouped(
                panes,
                roots,
                handle,
            )[i]).panes.len() > 0 && grouped(panes, roots, handle)[i].panes == panes_under(
                panes,
                roots,
                handle,
                grouped(panes, roots, handle)[i].root,
            ),
    decreases panes.len(),
{
    if panes.len() > 0 {
        let before = grouped(panes.drop_last(), roots.drop_last(), handle);
        let after = grouped(panes, roots, handle);
        let root = effective_root(panes.last(), roots.last());
        lemma_groups_partition_the_panes(panes.drop_last(), roots.drop_last(), handle);
        if root_name(root) == handle {
            lemma_group_index(before, root);
            let k = group_index(before, root);
            assert forall|i: int, j: int| 0 <= i < j < after.len() implies !fs_path::same_path(
                (#[trigger] after[i]).root,
                (#[trigger] after[j]).root,
            ) by {
                assert(i < before.len() ==> after[i].root == before[i].root);
                assert(j < before.len() ==> after[j].root == before[j].root);
            }
            assert forall|i: int| 0 <= i < after.len() implies (#[trigger] after[i]).panes.len() > 0
                && after[i].panes == panes_under(panes, roots, handle, after[i].root) by {
                if i < before.len() {
                    assert(after[i].root == before[i].root);
                    if i < k {
                        assert(!fs_path::same_path(before[i].root, root));
                    } else if i > k {
                        assert(!fs_path::same_path(before[k].root, before[i].root));
                    }
                } else {
                    lemma_no_panes_under(panes.drop_last(), roots.drop_last(), handle, root);
                    assert(after[i].panes =~= panes_under(panes, roots, handle, root));
                }
            }
        } else {
            assert forall|i: int| 0 <= i < after.len() implies (#[trigger] after[i]).panes.len() > 0
                && after[i].panes == panes_under(panes, roots, handle, after[i].root) by {
                assert(after[i] == before[i]);
            }
        }
    }
}

/// A root that has no group has no panes.
proof fn lemma_no_panes_under(
    panes: Seq<PaneView>,
    roots: Seq<Option<Seq<u8>>>,
    handle: Seq<char>,
    root: Seq<u8>,
)
    requires
        roots.len() == panes.len(),
        group_index(grouped(panes, roots, handle), root) == grouped(panes, roots, handle).len(),
    ensures
        panes_under(panes, roots, handle, root) == Seq::<PaneView>::empty(),
    decreases panes.len(),
{
    if panes.len() > 0 {
        let before = grouped(panes.drop_last(), roots.drop_last(), handle);
        let after = grouped(panes, roots, handle);
        let last = effective_root(panes.last(), roots.last());
        lemma_group_index(before, root);
        lemma_group_index(before, last);
        lemma_group_index(after, root);
        let k = group_index(before, root);
        if k < before.len() {
            assert(after[k].root == before[k].root);
        }
        if root_name(last) == handle && fs_path::same_path(last, root) {
            let at = group_index(before, last);
            if at < before.len() {
                assert(after[at].root == before[at].root);
            } else {
                assert(after[at].root == last);
            }
        }
        lemma_no_panes_under(panes.drop_last(), roots.drop_last(), handle, root);
    }
}

/// Whether the projects of the groups must be known: to hold them against a
/// qualifier, or to tell several groups apart. A unique plain handle needs none.
pub open spec fn needs_projects(groups: Seq<GroupView>, project: Option<Seq<char>>) -> bool {
    project is Some || groups.len() > 1
}

/// Whether a group is meant by the qualifier; without one, every group is.
pub open spec fn is_candidate(
    projects: Seq<ProjectView>,
    project: Option<Seq<char>>,
    i: int,
) -> bool {
    match project {
        Some(qualifier) => projects[i].matches(qualifier),
        None => true,
    }
}

/// The positions below `count` of the groups that are meant.
pub open spec fn candidates(
    count: nat,
    projects: Seq<ProjectView>,
    project: Option<Seq<char>>,
) -> Seq<int>
    decreases count,
{
    if count == 0 {
        seq![]
    } else {
        let before = candidates((count - 1) as nat, projects, project);
        if is_candidate(projects, project, count - 1) {
            before.push(count - 1)
        } else {
            before
        }
    }
}

/// How one of several groups is listed: by its selector and its path.
pub open spec fn option_text(root: Seq<u8>, project: ProjectView, handle: Seq<char>) -> Seq<char> {
    (match project.selector(handle) {
        Some(selector) => selector,
        None => handle,
    }) + " ("@ + fs_path::utf8_lossy(root) + ")"@
}

/// How the groups at these positions are listed.
pub open spec fn option_texts(
    groups: Seq<GroupView>,
    projects: Seq<ProjectView>,
    handle: Seq<char>,
    chosen: Seq<int>,
) -> Seq<Seq<char>> {
    chosen.map_values(|i: int| option_text(groups[i].root, projects[i], handle))
}

/// The outcome of a global search: the one group that is meant, or an error.
pub open spec fn choose_group(
    groups: Seq<GroupView>,
    projects: Seq<ProjectView>,
    handle: Seq<char>,
    project: Option<Seq<char>>,
) -> Result<(Seq<u8>, Seq<PaneView>), ResolveErrorView> {
    let chosen = candidates(groups.len(), projects, project);
    let selector = agent_selector::selector_text(handle, project);
    if chosen.len() == 0 {
        Err(ResolveErrorView::NotFound { selector })
    } else if chosen.len() == 1 {
        Ok((groups[chosen[0]].root, groups[chosen[0]].panes))
    } else {
        Err(
            ResolveErrorView::Ambiguous {
                selector,
                options: text::sorted_texts(option_texts(groups, projects, handle, chosen)),
            },
        )
    }
}

/// What a resolved worktree holds.
pub open spec fn resolved_view(resolved: (FsPath, Vec<AgentPane>)) -> (Seq<u8>, Seq<PaneView>) {
    (resolved.0@, agent_pane::pane_list(resolved.1@))
}

/// What the outcome of a global search holds.
pub open spec fn outcome_view(
    outcome: Result<(FsPath, Vec<AgentPane>), ResolveError>,
) -> Result<(Seq<u8>, Seq<PaneView>), ResolveErrorView> {
    match outcome {
        Ok(resolved) => Ok(resolved_view(resolved)),
        Err(error) => Err(error@),
    }
}

/// What a list of projects holds.
pub open spec fn project_list(projects: Seq<AgentProject>) -> Seq<ProjectView> {
    projects.map_values(|project: AgentProject| project@)
}

/// What an optional qualifier holds.
pub open spec fn qualifier_view(project: Option<&str>) -> Option<Seq<char>> {
    match project {
        Some(project) => Some(project@),
        None => None,
    }
}

/// The candidates are exactly the positions that are meant, in ascending order.
pub proof fn lemma_candidates(count: nat, projects: Seq<ProjectView>, project: Option<Seq<char>>)
    ensures
        candidates(count, projects, project).len() <= count,
        forall|c: int|
            0 <= c < candidates(count, projects, project).len() ==> 0 <= (#[trigger] candidates(
                count,
                projects,
                project,
            )[c]) < count && is_candidate(
                projects,
                project,
                candidates(count, projects, project)[c],
            ),
        forall|c: int, d: int|
            0 <= c < d < candidates(count, projects, project).len() ==> (#[trigger] candidates(
                count,
                projects,
                project,
            )[c]) < (#[trigger] candidates(count, projects, project)[d]),
        forall|i: int|
            0 <= i < count && #[trigger] is_candidate(projects, project, i) ==> candidates(
                count,
                projects,
                project,
            ).contains(i),
    decreases count,
{
    if count > 0 {
        let before = candidates((count - 1) as nat, projects, project);
        let after = candidates(count, projects, project);
        lemma_candidates((count - 1) as nat, projects, project);
        assert forall|i: int|
            0 <= i < count && #[trigger] is_candidate(projects, project, i) implies after.contains(
            i,
        ) by {
            if i == count - 1 {
                assert(after[after.len() - 1] == i);
            } else {
                assert(before.contains(i));
                let c = choose|c: int| 0 <= c < before.len() && before[c] == i;
                assert(after[c] == i);
            }
        }
    }
}

/// A search succeeds only if exactly one group is meant, and then with that
/// group: whoever else matches the name, no agent is selected silently.
pub proof fn lemma_choice_is_unique(
    groups: Seq<GroupView>,
    projects: Seq<ProjectView>,
    handle: Seq<char>,
    project: Option<Seq<char>>,
    i: int,
)
    requires
        0 <= i < groups.len(),
        is_candidate(projects, project, i),
    ensures
        match choose_group(groups, projects, handle, project) {
            Ok(resolved) => resolved == (groups[i].root, groups[i].panes) && (forall|j: int|
                0 <= j < groups.len() && j != i ==> !#[trigger] is_candidate(projects, project, j)),
            Err(error) => error is Ambiguous && (exists|j: int|
                0 <= j < groups.len() && j != i && #[trigger] is_candidate(projects, project, j)),
        },
{
    let chosen = candidates(groups.len(), projects, project);
    lemma_candidates(groups.len(), projects, project);
    assert(chosen.contains(i));
    let c = choose|c: int| 0 <= c < chosen.len() && chosen[c] == i;
    if chosen.len() == 1 {
        assert forall|j: int| 0 <= j < groups.len() && j != i implies !#[trigger] is_candidate(
            projects,
            project,
            j,
        ) by {
            if is_candidate(projects, project, j) {
                assert(chosen.contains(j));
            }
        }
    } else {
        let d: int = if c == 0 {
            1
        } else {
            0
        };
        let j = chosen[d];
        assert(is_candidate(projects, project, j));
        assert(chosen[c] != chosen[d]);
    }
}

/// Every group that is meant stands among the options of an ambiguous search.
pub proof fn lemma_every_candidate_is_listed(
    groups: Seq<GroupView>,
    projects: Seq<ProjectView>,
    handle: Seq<char>,
    project: Option<Seq<char>>,
    i: int,
)
    requires
        0 <= i < groups.len(),
        is_candidate(projects, project, i),
    ensures
        choose_group(groups, projects, handle, project) matches Err(
            ResolveErrorView::Ambiguous { options, .. },
        ) ==> options.contains(option_text(groups[i].root, projects[i], handle)),
{
    let chosen = candidates(groups.len(), projects, project);
    let listed = option_texts(groups, projects, handle, chosen);
    lemma_candidates(groups.len(), projects, project);
    assert(chosen.contains(i));
    let c = choose|c: int| 0 <= c < chosen.len() && chosen[c] == i;
    assert(listed[c] == option_text(groups[i].root, projects[i], handle));
    text::lemma_sorted_texts_keep_elements(listed, listed[c]);
}

/// The groups of a list of groups with their projects.
pub open spec fn groups_of(pairs: Seq<(GroupView, ProjectView)>) -> Seq<GroupView> {
    pairs.map_values(|pair: (GroupView, ProjectView)| pair.0)
}

/// The projects of a list of groups with their projects.
pub open spec fn projects_of(pairs: Seq<(GroupView, ProjectView)>) -> Seq<ProjectView> {
    pairs.map_values(|pair: (GroupView, ProjectView)| pair.1)
}

/// Adds what `value` says of a group to a collection if the group is meant.
spec fn collect<T>(
    project: Option<Seq<char>>,
    value: spec_fn((GroupView, ProjectView)) -> T,
) -> spec_fn(vstd::multiset::Multiset<T>, (GroupView, ProjectView)) -> vstd::multiset::Multiset<T> {
    |collected: vstd::multiset::Multiset<T>, pair: (GroupView, ProjectView)|
        if is_candidate(seq![pair.1], project, 0) {
            collected.insert(value(pair))
        } else {
            collected
        }
}

/// The values of the candidates are those collected over the list.
proof fn lemma_candidates_are_collected<T>(
    pairs: Seq<(GroupView, ProjectView)>,
    project: Option<Seq<char>>,
    value: spec_fn((GroupView, ProjectView)) -> T,
    count: nat,
)
    requires
        count <= pairs.len(),
    ensures
        candidates(count, projects_of(pairs), project).map_values(
            |i: int| value(pairs[i]),
        ).to_multiset() == pairs.take(count as int).fold_left(
            Seq::<T>::empty().to_multiset(),
            collect(project, value),
        ),
    decreases count,
{
    let values = |i: int| value(pairs[i]);
    let all = candidates(count, projects_of(pairs), project).map_values(values);
    if count == 0 {
        assert(all =~= seq![]);
    } else {
        let last = count - 1;
        let before = candidates(last as nat, projects_of(pairs), project).map_values(values);
        lemma_candidates_are_collected(pairs, project, value, last as nat);
        assert(pairs.take(count as int).drop_last() =~= pairs.take(last));
        assert(pairs.take(count as int).last() == pairs[last]);
        assert(seq![pairs[last].1][0] == projects_of(pairs)[last]);
        if is_candidate(projects_of(pairs), project, last) {
            assert(all =~= before.push(value(pairs[last])));
            vstd::seq_lib::to_multiset_build(before, value(pairs[last]));
        }
    }
}

/// The values of the candidates do not depend on the order of the list.
proof fn lemma_candidates_ignore_order<T>(
    a: Seq<(GroupView, ProjectView)>,
    b: Seq<(GroupView, ProjectView)>,
    project: Option<Seq<char>>,
    value: spec_fn((GroupView, ProjectView)) -> T,
)
    requires
        a.to_multiset() == b.to_multiset(),
    ensures
        candidates(a.len(), projects_of(a), project).map_values(
            |i: int| value(a[i]),
        ).to_multiset() == candidates(b.len(), projects_of(b), project).map_values(
            |i: int| value(b[i]),
        ).to_multiset(),
{
    let none = Seq::<T>::empty().to_multiset();
    let f = collect(project, value);
    lemma_candidates_are_collected(a, project, value, a.len());
    lemma_candidates_are_collected(b, project, value, b.len());
    assert(a.take(a.len() as int) =~= a);
    assert(b.take(b.len() as int) =~= b);
    assert(vstd::seq_lib::commutative_foldl(f)) by {
        assert forall|
            x: (GroupView, ProjectView),
            y: (GroupView, ProjectView),
            collected: vstd::multiset::Multiset<T>,
        | #[trigger] f(f(collected, x), y) == f(f(collected, y), x) by {
            assert(f(f(collected, x), y) =~= f(f(collected, y), x));
        }
    }
    vstd::seq_lib::lemma_fold_left_permutation(a, b, f, none);
}

/// The outcome of a search does not depend on the order in which the groups are
/// listed with their projects.
pub proof fn lemma_choice_ignores_the_order_of_groups(
    a: Seq<(GroupView, ProjectView)>,
    b: Seq<(GroupView, ProjectView)>,
    handle: Seq<char>,
    project: Option<Seq<char>>,
)
    requires
        a.to_multiset() == b.to_multiset(),
    ensures
        choose_group(groups_of(a), projects_of(a), handle, project) == choose_group(
            groups_of(b),
            projects_of(b),
            handle,
            project,
        ),
{
    let chosen_a = candidates(a.len(), projects_of(a), project);
    let chosen_b = candidates(b.len(), projects_of(b), project);
    let same = |pair: (GroupView, ProjectView)| pair;
    let text = |pair: (GroupView, ProjectView)| option_text(pair.0.root, pair.1, handle);
    let pairs_a = chosen_a.map_values(|i: int| same(a[i]));
    let pairs_b = chosen_b.map_values(|i: int| same(b[i]));
    let texts_a = chosen_a.map_values(|i: int| text(a[i]));
    let texts_b = chosen_b.map_values(|i: int| text(b[i]));
    lemma_candidates(a.len(), projects_of(a), project);
    lemma_candidates(b.len(), projects_of(b), project);
    lemma_candidates_ignore_order(a, b, project, same);
    lemma_candidates_ignore_order(a, b, project, text);
    vstd::seq_lib::to_multiset_len(pairs_a);
    vstd::seq_lib::to_multiset_len(pairs_b);
    assert(texts_a =~= option_texts(groups_of(a), projects_of(a), handle, chosen_a));
    assert(texts_b =~= option_texts(groups_of(b), projects_of(b), handle, chosen_b));
    text::lemma_sorted_texts_ignores_order(texts_a, texts_b);
    if chosen_a.len() == 1 {
        vstd::seq_lib::to_multiset_contains(pairs_a, pairs_a[0]);
        vstd::seq_lib::to_multiset_contains(pairs_b, pairs_a[0]);
        assert(pairs_a.contains(pairs_a[0]));
        assert(pairs_b.contains(pairs_a[0]));
        assert(pairs_a[0] == a[chosen_a[0]] && pairs_b[0] == b[chosen_b[0]]);
    }
}

/// The roots of panes, where the root of a pane is a function of its path.
pub open spec fn roots_by(
    panes: Seq<PaneView>,
    root: spec_fn(Seq<u8>) -> Option<Seq<u8>>,
) -> Seq<Option<Seq<u8>>> {
    panes.map_values(|pane: PaneView| root(pane.path))
}

/// The root that a pane counts under, where its root is a function of its path.
pub open spec fn root_by(pane: PaneView, root: spec_fn(Seq<u8>) -> Option<Seq<u8>>) -> Seq<u8> {
    effective_root(pane, root(pane.path))
}

/// Whether panes that count under the same root have it spelled alike.
pub open spec fn roots_spelled_alike(
    panes: Seq<PaneView>,
    root: spec_fn(Seq<u8>) -> Option<Seq<u8>>,
) -> bool {
    forall|i: int, j: int|
        0 <= i < panes.len() && 0 <= j < panes.len() && fs_path::same_path(
            root_by(#[trigger] panes[i], root),
            root_by(#[trigger] panes[j], root),
        ) ==> root_by(panes[i], root) == root_by(panes[j], root)
}

/// The root of a group is that of a pane, and has the name that was searched for.
pub proof fn lemma_group_root_is_of_a_pane(
    panes: Seq<PaneView>,
    roots: Seq<Option<Seq<u8>>>,
    handle: Seq<char>,
    i: int,
) -> (j: int)
    requires
        roots.len() == panes.len(),
        0 <= i < grouped(panes, roots, handle).len(),
    ensures
        0 <= j < panes.len(),
        effective_root(panes[j], roots[j]) == grouped(panes, roots, handle)[i].root,
        root_name(grouped(panes, roots, handle)[i].root) == handle,
    decreases panes.len(),
{
    let before = grouped(panes.drop_last(), roots.drop_last(), handle);
    let after = grouped(panes, roots, handle);
    let root = effective_root(panes.last(), roots.last());
    lemma_group_index(before, root);
    if i < before.len() {
        assert(after[i].root == before[i].root);
        lemma_group_root_is_of_a_pane(panes.drop_last(), roots.drop_last(), handle, i)
    } else {
        panes.len() - 1
    }
}

/// A root of the name that was searched for has a group.
pub proof fn lemma_root_has_a_group(
    panes: Seq<PaneView>,
    roots: Seq<Option<Seq<u8>>>,
    handle: Seq<char>,
    j: int,
) -> (i: int)
    requires
        roots.len() == panes.len(),
        0 <= j < panes.len(),
        root_name(effective_root(panes[j], roots[j])) == handle,
    ensures
        0 <= i < grouped(panes, roots, handle).len(),
        fs_path::same_path(
            grouped(panes, roots, handle)[i].root,
            effective_root(panes[j], roots[j]),
        ),
    decreases panes.len(),
{
    let before = grouped(panes.drop_last(), roots.drop_last(), handle);
    let after = grouped(panes, roots, handle);
    let root = effective_root(panes.last(), roots.last());
    lemma_group_index(before, root);
    if j < panes.len() - 1 {
        let i = lemma_root_has_a_group(panes.drop_last(), roots.drop_last(), handle, j);
        assert(after[i].root == before[i].root);
        i
    } else {
        let k = group_index(before, root);
        assert(k < before.len() ==> after[k].root == before[k].root);
        k
    }
}

/// Every group of a list of panes stands, by its root, among the groups of any list
/// of the same panes.
pub proof fn lemma_same_panes_make_the_same_roots(
    a: Seq<PaneView>,
    b: Seq<PaneView>,
    root: spec_fn(Seq<u8>) -> Option<Seq<u8>>,
    handle: Seq<char>,
    i: int,
) -> (k: int)
    requires
        a.to_multiset() == b.to_multiset(),
        roots_spelled_alike(a, root),
        0 <= i < grouped(a, roots_by(a, root), handle).len(),
    ensures
        0 <= k < grouped(b, roots_by(b, root), handle).len(),
        grouped(b, roots_by(b, root), handle)[k].root == grouped(
            a,
            roots_by(a, root),
            handle,
        )[i].root,
{
    let j = lemma_group_root_is_of_a_pane(a, roots_by(a, root), handle, i);
    let at = lemma_pane_of_the_other_list(a, b, j);
    let k = lemma_root_has_a_group(b, roots_by(b, root), handle, at);
    let back = lemma_group_root_is_of_a_pane(b, roots_by(b, root), handle, k);
    let again = lemma_pane_of_the_other_list(b, a, back);
    assert(fs_path::same_path(root_by(a[again], root), root_by(a[j], root)));
    k
}

/// A pane of one list stands in any list of the same panes.
proof fn lemma_pane_of_the_other_list(a: Seq<PaneView>, b: Seq<PaneView>, i: int) -> (k: int)
    requires
        a.to_multiset() == b.to_multiset(),
        0 <= i < a.len(),
    ensures
        0 <= k < b.len(),
        b[k] == a[i],
{
    vstd::seq_lib::to_multiset_contains(a, a[i]);
    vstd::seq_lib::to_multiset_contains(b, a[i]);
    assert(a.contains(a[i]));
    assert(b.contains(a[i]));
    choose|k: int| 0 <= k < b.len() && b[k] == a[i]
}

/// How often a pane stands among those of a root: as often as it stands in the
/// list if that is its root, and not at all if not.
proof fn lemma_panes_under_count(
    panes: Seq<PaneView>,
    root: spec_fn(Seq<u8>) -> Option<Seq<u8>>,
    handle: Seq<char>,
    wanted: Seq<u8>,
    pane: PaneView,
)
    ensures
        panes_under(panes, roots_by(panes, root), handle, wanted).to_multiset().count(pane) == (
        if root_name(root_by(pane, root)) == handle && fs_path::same_path(
            root_by(pane, root),
            wanted,
        ) {
            panes.to_multiset().count(pane)
        } else {
            0
        }),
    decreases panes.len(),
{
    let all = panes_under(panes, roots_by(panes, root), handle, wanted);
    if panes.len() == 0 {
        vstd::seq_lib::to_multiset_contains(all, pane);
        vstd::seq_lib::to_multiset_contains(panes, pane);
    } else {
        let rest = panes.drop_last();
        let before = panes_under(rest, roots_by(rest, root), handle, wanted);
        assert(roots_by(panes, root).drop_last() =~= roots_by(rest, root));
        lemma_panes_under_count(rest, root, handle, wanted, pane);
        assert(panes =~= rest.push(panes.last()));
        vstd::seq_lib::to_multiset_build(rest, panes.last());
        vstd::seq_lib::to_multiset_build(before, panes.last());
    }
}

/// The panes of a root are the same in any list of the same panes, up to their
/// order.
pub proof fn lemma_panes_under_ignore_order(
    a: Seq<PaneView>,
    b: Seq<PaneView>,
    root: spec_fn(Seq<u8>) -> Option<Seq<u8>>,
    handle: Seq<char>,
    wanted: Seq<u8>,
)
    requires
        a.to_multiset() == b.to_multiset(),
    ensures
        panes_under(a, roots_by(a, root), handle, wanted).to_multiset() == panes_under(
            b,
            roots_by(b, root),
            handle,
            wanted,
        ).to_multiset(),
{
    let of_a = panes_under(a, roots_by(a, root), handle, wanted).to_multiset();
    let of_b = panes_under(b, roots_by(b, root), handle, wanted).to_multiset();
    assert forall|pane: PaneView| of_a.count(pane) == of_b.count(pane) by {
        lemma_panes_under_count(a, root, handle, wanted, pane);
        lemma_panes_under_count(b, root, handle, wanted, pane);
    }
    assert(of_a =~= of_b);
}

/// Groups by their roots alone, each with the project of its root.
pub open spec fn root_pairs(
    groups: Seq<GroupView>,
    project_of: spec_fn(Seq<u8>) -> ProjectView,
) -> Seq<(GroupView, ProjectView)> {
    groups.map_values(
        |group: GroupView| (GroupView { root: group.root, panes: seq![] }, project_of(group.root)),
    )
}

/// Groups of the same panes are the same by their roots, up to their order.
proof fn lemma_root_pairs_ignore_order(
    a: Seq<PaneView>,
    b: Seq<PaneView>,
    root: spec_fn(Seq<u8>) -> Option<Seq<u8>>,
    handle: Seq<char>,
    project_of: spec_fn(Seq<u8>) -> ProjectView,
)
    requires
        a.to_multiset() == b.to_multiset(),
        roots_spelled_alike(a, root),
    ensures
        root_pairs(grouped(a, roots_by(a, root), handle), project_of).to_multiset() == root_pairs(
            grouped(b, roots_by(b, root), handle),
            project_of,
        ).to_multiset(),
{
    let groups_a = grouped(a, roots_by(a, root), handle);
    let groups_b = grouped(b, roots_by(b, root), handle);
    let pairs_a = root_pairs(groups_a, project_of);
    let pairs_b = root_pairs(groups_b, project_of);
    lemma_spelled_alike_in_the_other_list(a, b, root);
    lemma_groups_partition_the_panes(a, roots_by(a, root), handle);
    lemma_groups_partition_the_panes(b, roots_by(b, root), handle);
    assert(pairs_a.no_duplicates()) by {
        assert forall|i: int, j: int|
            0 <= i < pairs_a.len() && 0 <= j < pairs_a.len() && i != j implies pairs_a[i]
            != pairs_a[j] by {
            assert(groups_a[i].root != groups_a[j].root);
        }
    }
    assert(pairs_b.no_duplicates()) by {
        assert forall|i: int, j: int|
            0 <= i < pairs_b.len() && 0 <= j < pairs_b.len() && i != j implies pairs_b[i]
            != pairs_b[j] by {
            assert(groups_b[i].root != groups_b[j].root);
        }
    }
    pairs_a.lemma_multiset_has_no_duplicates();
    pairs_b.lemma_multiset_has_no_duplicates();
    assert forall|pair: (GroupView, ProjectView)|
        pairs_a.to_multiset().count(pair) == pairs_b.to_multiset().count(pair) by {
        vstd::seq_lib::to_multiset_contains(pairs_a, pair);
        vstd::seq_lib::to_multiset_contains(pairs_b, pair);
        if pairs_a.contains(pair) {
            let i = choose|i: int| 0 <= i < pairs_a.len() && pairs_a[i] == pair;
            let k = lemma_same_panes_make_the_same_roots(a, b, root, handle, i);
            assert(pairs_b[k] == pair);
            assert(pairs_a.to_multiset().contains(pair) && pairs_b.to_multiset().contains(pair));
        }
        if pairs_b.contains(pair) {
            let i = choose|i: int| 0 <= i < pairs_b.len() && pairs_b[i] == pair;
            let k = lemma_same_panes_make_the_same_roots(b, a, root, handle, i);
            assert(pairs_a[k] == pair);
            assert(pairs_a.to_multiset().contains(pair) && pairs_b.to_multiset().contains(pair));
        }
    }
    assert(pairs_a.to_multiset() =~= pairs_b.to_multiset());
}

proof fn lemma_spelled_alike_in_the_other_list(
    a: Seq<PaneView>,
    b: Seq<PaneView>,
    root: spec_fn(Seq<u8>) -> Option<Seq<u8>>,
)
    requires
        a.to_multiset() == b.to_multiset(),
        roots_spelled_alike(a, root),
    ensures
        roots_spelled_alike(b, root),
{
    assert forall|i: int, j: int|
        0 <= i < b.len() && 0 <= j < b.len() && fs_path::same_path(
            root_by(#[trigger] b[i], root),
            root_by(#[trigger] b[j], root),
        ) implies root_by(b[i], root) == root_by(b[j], root) by {
        let k = lemma_pane_of_the_other_list(b, a, i);
        let l = lemma_pane_of_the_other_list(b, a, j);
        assert(a[k] == b[i] && a[l] == b[j]);
    }
}

/// The groups with the projects of their roots.
pub open spec fn projects_by(
    groups: Seq<GroupView>,
    project_of: spec_fn(Seq<u8>) -> ProjectView,
) -> Seq<ProjectView> {
    groups.map_values(|group: GroupView| project_of(group.root))
}

/// The same outcome but for the order of the panes: the same root with the same
/// panes, or the same error.
pub open spec fn same_but_for_order<F>(
    a: Result<(Seq<u8>, Seq<PaneView>), F>,
    b: Result<(Seq<u8>, Seq<PaneView>), F>,
) -> bool {
    match (a, b) {
        (Ok(left), Ok(right)) => left.0 == right.0 && left.1.to_multiset()
            == right.1.to_multiset(),
        (Err(left), Err(right)) => left == right,
        _ => false,
    }
}

/// A choice depends on the panes of the groups only in the panes it gives back.
proof fn lemma_choice_goes_by_roots(
    groups: Seq<GroupView>,
    project_of: spec_fn(Seq<u8>) -> ProjectView,
    handle: Seq<char>,
    project: Option<Seq<char>>,
) -> (i: int)
    ensures
        ({
            let pairs = root_pairs(groups, project_of);
            let bare = choose_group(groups_of(pairs), projects_of(pairs), handle, project);
            match choose_group(groups, projects_by(groups, project_of), handle, project) {
                Ok(resolved) => 0 <= i < groups.len() && resolved == (
                    groups[i].root,
                    groups[i].panes,
                ) && bare is Ok && bare->Ok_0.0 == groups[i].root,
                Err(error) => bare is Err && bare->Err_0 == error,
            }
        }),
{
    let pairs = root_pairs(groups, project_of);
    let projects = projects_by(groups, project_of);
    let chosen = candidates(groups.len(), projects, project);
    assert(projects_of(pairs) =~= projects);
    lemma_candidates(groups.len(), projects, project);
    assert(option_texts(groups, projects, handle, chosen) =~= option_texts(
        groups_of(pairs),
        projects,
        handle,
        chosen,
    ));
    chosen[0]
}

/// The outcome of a search does not depend on the order of the panes: it ends with
/// the same root and the same panes, in their own order, or with the same error.
/// Panes of the same worktree must have its root spelled alike, since the root is
/// shown as the first of them spells it.
pub proof fn lemma_choice_ignores_the_order_of_panes(
    a: Seq<PaneView>,
    b: Seq<PaneView>,
    root: spec_fn(Seq<u8>) -> Option<Seq<u8>>,
    project_of: spec_fn(Seq<u8>) -> ProjectView,
    handle: Seq<char>,
    project: Option<Seq<char>>,
)
    requires
        a.to_multiset() == b.to_multiset(),
        roots_spelled_alike(a, root),
    ensures
        ({
            let groups_a = grouped(a, roots_by(a, root), handle);
            let groups_b = grouped(b, roots_by(b, root), handle);
            let chosen_a = choose_group(
                groups_a,
                projects_by(groups_a, project_of),
                handle,
                project,
            );
            let chosen_b = choose_group(
                groups_b,
                projects_by(groups_b, project_of),
                handle,
                project,
            );
            &&& groups_a.len() == groups_b.len()
            &&& same_but_for_order(chosen_a, chosen_b)
            &&& chosen_a matches Ok((found, panes)) ==> panes == panes_under(
                a,
                roots_by(a, root),
                handle,
                found,
            )
            &&& chosen_b matches Ok((found, panes)) ==> panes == panes_under(
                b,
                roots_by(b, root),
                handle,
                found,
            )
        }),
{
    let groups_a = grouped(a, roots_by(a, root), handle);
    let groups_b = grouped(b, roots_by(b, root), handle);
    let pairs_a = root_pairs(groups_a, project_of);
    let pairs_b = root_pairs(groups_b, project_of);
    lemma_root_pairs_ignore_order(a, b, root, handle, project_of);
    vstd::seq_lib::to_multiset_len(pairs_a);
    vstd::seq_lib::to_multiset_len(pairs_b);
    lemma_choice_ignores_the_order_of_groups(pairs_a, pairs_b, handle, project);
    lemma_groups_partition_the_panes(a, roots_by(a, root), handle);
    lemma_groups_partition_the_panes(b, roots_by(b, root), handle);
    let i = lemma_choice_goes_by_roots(groups_a, project_of, handle, project);
    let k = lemma_choice_goes_by_roots(groups_b, project_of, handle, project);
    lemma_panes_under_ignore_order(a, b, root, handle, groups_a[i].root);
}

/// Search the groups of a handle for the one that is meant.
///
/// `projects` holds the project of each group wherever projects are needed. A
/// qualifier is held against the repository name and the directory name of each.
pub fn resolve_global_agents(
    groups: Vec<AgentGroup>,
    projects: &Vec<AgentProject>,
    handle: &str,
    project: Option<&str>,
) -> (outcome: Result<(FsPath, Vec<AgentPane>), ResolveError>)
    requires
        needs_projects(group_list(groups@), qualifier_view(project)) ==> projects@.len()
            == groups@.len(),
    ensures
        outcome_view(outcome) == choose_group(
            group_list(groups@),
            project_list(projects@),
            handle@,
            qualifier_view(project),
        ),
{
    let ghost all = group_list(groups@);
    let ghost all_projects = project_list(projects@);
    let ghost qualifier_text = qualifier_view(project);
    let count = groups.len();
    let mut chosen: Vec<usize> = Vec::new();
    let mut i: usize = 0;
    assert(indices(chosen@) =~= candidates(0, all_projects, qualifier_text));
    while i < count
        invariant
            i <= count,
            count == groups@.len(),
            needs_projects(all, qualifier_text) ==> projects@.len() == groups@.len(),
            all == group_list(groups@),
            all_projects == project_list(projects@),
            qualifier_text == qualifier_view(project),
            indices(chosen@) == candidates(i as nat, all_projects, qualifier_text),
        decreases count - i,
    {
        let ghost before = indices(chosen@);
        let meant = match project {
            Some(qualifier) => projects[i].matches(qualifier),
            None => true,
        };
        if meant {
            chosen.push(i);
            assert(indices(chosen@) =~= before.push(i as int));
        }
        i += 1;
    }
    proof {
        lemma_candidates(count as nat, all_projects, qualifier_text);
        assert forall|c: int| 0 <= c < chosen@.len() implies (#[trigger] chosen@[c]) < count by {
            assert(indices(chosen@)[c] == chosen@[c] as int);
        }
        assert(chosen@.len() > 0 ==> indices(chosen@)[0] == chosen@[0] as int);
    }
    if chosen.len() == 0 {
        Err(ResolveError::NotFound { selector: format_selector(handle, project) })
    } else if chosen.len() == 1 {
        let mut groups = groups;
        let at: usize = chosen[0];
        let group = groups.swap_remove(at);
        Ok((group.root, group.panes))
    } else {
        let mut options: Vec<String> = Vec::new();
        let mut c: usize = 0;
        let ghost listed = option_texts(all, all_projects, handle@, indices(chosen@));
        assert(text::texts(options@) =~= listed.take(0));
        while c < chosen.len()
            invariant
                c <= chosen@.len(),
                projects@.len() == groups@.len(),
                forall|c: int| 0 <= c < chosen@.len() ==> (#[trigger] chosen@[c]) < groups@.len(),
                all == group_list(groups@),
                all_projects == project_list(projects@),
                listed == option_texts(all, all_projects, handle@, indices(chosen@)),
                text::texts(options@) == listed.take(c as int),
            decreases chosen.len() - c,
        {
            let at: usize = chosen[c];
            let mut option = match projects[at].selector(handle) {
                Some(selector) => selector,
                None => handle.to_owned(),
            };
            option.append(" (");
            option.append(groups[at].root.to_text().as_str());
            option.append(")");
            let ghost before = text::texts(options@);
            proof {
                assert(indices(chosen@)[c as int] == at as int);
                assert(option@ == listed[c as int]);
            }
            options.push(option);
            assert(text::texts(options@) =~= before.push(listed[c as int]));
            assert(listed.take(c + 1) =~= before.push(listed[c as int]));
            c += 1;
        }
        assert(listed.take(c as int) =~= listed);
        Err(
            ResolveError::Ambiguous {
                selector: format_selector(handle, project),
                options: text::sort_texts(options),
            },
        )
    }
}

/// Positions as mathematical integers.
spec fn indices(positions: Seq<usize>) -> Seq<int> {
    positions.map_values(|position: usize| position as int)
}

proof fn lemma_positions_under(
    panes: Seq<PaneView>,
    roots: Seq<Option<Seq<u8>>>,
    handle: Seq<char>,
    root: Seq<u8>,
) -> (at: Seq<int>)
    requires
        roots.len() == panes.len(),
    ensures
        at.len() == panes_under(panes, roots, handle, root).len(),
        forall|k: int|
            0 <= k < at.len() ==> 0 <= #[trigger] at[k] < panes.len() && panes_under(
                panes,
                roots,
                handle,
                root,
            )[k] == panes[at[k]],
        forall|k: int, l: int| 0 <= k < l < at.len() ==> #[trigger] at[k] < #[trigger] at[l],
        forall|j: int|
            0 <= j < panes.len() ==> (#[trigger] at.contains(j) <==> root_name(
                effective_root(panes[j], roots[j]),
            ) == handle && fs_path::same_path(effective_root(panes[j], roots[j]), root)),
    decreases panes.len(),
{
    if panes.len() == 0 {
        seq![]
    } else {
        let last = panes.len() - 1;
        let fewer = panes.drop_last();
        let before = lemma_positions_under(fewer, roots.drop_last(), handle, root);
        let listed = panes_under(fewer, roots.drop_last(), handle, root);
        assert forall|k: int| 0 <= k < before.len() implies listed[k] == panes[#[trigger] before[k]]
            && before[k] < last by {
            assert(fewer[before[k]] == panes[before[k]]);
        }
        assert forall|j: int| 0 <= j < last implies (#[trigger] before.contains(j) <==> root_name(
            effective_root(panes[j], roots[j]),
        ) == handle && fs_path::same_path(effective_root(panes[j], roots[j]), root)) by {
            assert(fewer[j] == panes[j] && roots.drop_last()[j] == roots[j]);
        }
        let own = effective_root(panes[last], roots[last]);
        let at = if root_name(own) == handle && fs_path::same_path(own, root) {
            before.push(last)
        } else {
            before
        };
        assert forall|j: int| 0 <= j < panes.len() implies (#[trigger] at.contains(j) <==> root_name(
            effective_root(panes[j], roots[j]),
        ) == handle && fs_path::same_path(effective_root(panes[j], roots[j]), root)) by {
            if before.contains(j) {
                let k = choose|k: int| 0 <= k < before.len() && before[k] == j;
                assert(at[k] == j);
            }
            if at.contains(j) && j < last {
                let k = choose|k: int| 0 <= k < at.len() && at[k] == j;
                assert(before[k] == j);
            }
            if at.len() > before.len() {
                assert(at[before.len() as int] == last);
            }
            if j == last && at.len() == before.len() && at.contains(j) {
                let k = choose|k: int| 0 <= k < at.len() && at[k] == j;
                assert(before[k] < last);
            }
        }
        at
    }
}

/// The panes of a group are those whose root is the root of the group: each of them
/// once, in their order. A pane counts under its worktree root, or under its own path
/// if it has none, and only if the file name of that reads as the handle. The
/// positions of the panes in the list are given back.
pub proof fn lemma_a_group_holds_the_panes_of_its_root(
    panes: Seq<PaneView>,
    roots: Seq<Option<Seq<u8>>>,
    handle: Seq<char>,
    i: int,
) -> (at: Seq<int>)
    requires
        roots.len() == panes.len(),
        0 <= i < grouped(panes, roots, handle).len(),
    ensures
        ({
            let group = grouped(panes, roots, handle)[i];
            &&& at.len() == group.panes.len() > 0
            &&& forall|k: int|
                0 <= k < at.len() ==> 0 <= #[trigger] at[k] < panes.len() && group.panes[k]
                    == panes[at[k]]
            &&& forall|k: int, l: int| 0 <= k < l < at.len() ==> #[trigger] at[k] < #[trigger] at[l]
            &&& forall|j: int|
                #![trigger at.contains(j)]
                0 <= j < panes.len() ==> (at.contains(j) <==> ({
                    let root = match roots[j] {
                        Some(root) => root,
                        None => panes[j].path,
                    };
                    &&& fs_path::components(root) == fs_path::components(group.root)
                    &&& handle == (match fs_path::file_name(root) {
                        Some(name) => fs_path::utf8_lossy(name),
                        None => seq![],
                    })
                }))
        }),
{
    lemma_groups_partition_the_panes(panes, roots, handle);
    lemma_positions_under(panes, roots, handle, grouped(panes, roots, handle)[i].root)
}

/// A pane is in a group if the file name of its root reads as the handle, where its
/// root is its worktree root, or its own path if it has none.
pub proof fn lemma_every_pane_of_the_handle_is_in_a_group(
    panes: Seq<PaneView>,
    roots: Seq<Option<Seq<u8>>>,
    handle: Seq<char>,
    j: int,
) -> (i: int)
    requires
        roots.len() == panes.len(),
        0 <= j < panes.len(),
        handle == (match fs_path::file_name(
            match roots[j] {
                Some(root) => root,
                None => panes[j].path,
            },
        ) {
            Some(name) => fs_path::utf8_lossy(name),
            None => seq![],
        }),
    ensures
        0 <= i < grouped(panes, roots, handle).len(),
        grouped(panes, roots, handle)[i].panes.contains(panes[j]),
{
    let i = lemma_root_has_a_group(panes, roots, handle, j);
    let at = lemma_a_group_holds_the_panes_of_its_root(panes, roots, handle, i);
    assert(at.contains(j));
    let k = choose|k: int| 0 <= k < at.len() && at[k] == j;
    assert(grouped(panes, roots, handle)[i].panes[k] == panes[j]);
    i
}

/// A search finds a group if it is the only one that is meant. Without a qualifier
/// every group is meant; with one, those whose repository or whose directory above has
/// that whole name. The error names what was searched for, and lists the groups that
/// are meant by their selectors and roots, in ascending order. The positions of the
/// groups that are meant are given back.
pub proof fn lemma_a_search_finds_the_only_group_that_is_meant(
    groups: Seq<GroupView>,
    projects: Seq<ProjectView>,
    handle: Seq<char>,
    project: Option<Seq<char>>,
) -> (at: Seq<int>)
    ensures
        forall|k: int, l: int| 0 <= k < l < at.len() ==> #[trigger] at[k] < #[trigger] at[l],
        forall|k: int| 0 <= k < at.len() ==> 0 <= #[trigger] at[k] < groups.len(),
        forall|i: int|
            0 <= i < groups.len() ==> (#[trigger] at.contains(i) <==> project is None
                || projects[i].name == project || projects[i].parent_name == project),
        ({
            let written = match project {
                Some(project) => project + seq![':'] + handle,
                None => handle,
            };
            match choose_group(groups, projects, handle, project) {
                Ok(resolved) => at.len() == 1 && resolved == (
                    groups[at[0]].root,
                    groups[at[0]].panes,
                ),
                Err(ResolveErrorView::NotFound { selector }) => at.len() == 0 && selector
                    == written,
                Err(ResolveErrorView::Ambiguous { selector, options }) => {
                    &&& at.len() > 1
                    &&& selector == written
                    &&& options.to_multiset() == at.map_values(
                        |i: int|
                            (match (projects[i].name, projects[i].parent_name) {
                                (Some(name), _) => name + seq![':'] + handle,
                                (None, Some(name)) => name + seq![':'] + handle,
                                (None, None) => handle,
                            }) + " ("@ + fs_path::utf8_lossy(groups[i].root) + ")"@,
                    ).to_multiset()
                    &&& forall|i: int, j: int|
                        0 <= i < j < options.len() ==> text::text_le(
                            #[trigger] options[i],
                            #[trigger] options[j],
                        )
                },
                Err(ResolveErrorView::NotRunning { .. }) => false,
            }
        }),
{
    let at = candidates(groups.len(), projects, project);
    lemma_candidates(groups.len(), projects, project);
    assert forall|i: int| 0 <= i < groups.len() implies (#[trigger] at.contains(i) <==> project is None
        || projects[i].name == project || projects[i].parent_name == project) by {
        assert(is_candidate(projects, project, i) <==> project is None || projects[i].name
            == project || projects[i].parent_name == project);
        if at.contains(i) {
            let c = choose|c: int| 0 <= c < at.len() && at[c] == i;
            assert(is_candidate(projects, project, at[c]));
        }
    }
    let listed = option_texts(groups, projects, handle, at);
    assert(listed =~= at.map_values(
        |i: int|
            (match (projects[i].name, projects[i].parent_name) {
                (Some(name), _) => name + seq![':'] + handle,
                (None, Some(name)) => name + seq![':'] + handle,
                (None, None) => handle,
            }) + " ("@ + fs_path::utf8_lossy(groups[i].root) + ")"@,
    ));
    text::lemma_sorted_texts_are_ordered(listed);
    at
}

/// How the errors of a resolution read.
pub proof fn lemma_messages_of_resolve_errors(
    selector: Seq<char>,
    options: Seq<Seq<char>>,
    name: Seq<char>,
)
    ensures
        (ResolveErrorView::NotFound { selector }).message() == "No agent found matching '"@
            + selector + "'"@,
        (ResolveErrorView::Ambiguous { selector, options }).message() == "Ambiguous agent name '"@
            + selector + "'. Found in multiple worktrees:\n  "@ + text::joined(options, "\n  "@)
            + "\n\nUse a unique 'project:handle' selector or run from the intended repository with a plain handle."@,
        (ResolveErrorView::NotRunning { name }).message() == "No agent running in worktree '"@
            + name + "'"@,
{
}

} // verus!
