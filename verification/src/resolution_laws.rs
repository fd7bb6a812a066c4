//! What a resolution as a whole comes to, in terms of the panes and of what git and
//! the file system answer.

use crate::agent_groups;
use crate::agent_groups::{AgentGroup, ResolveError, ResolveErrorView};
use crate::agent_pane;
use crate::agent_pane::{AgentPane, PaneView};
use crate::agent_resolve;
use crate::agent_resolve::{FailureView, ResolutionView, World};
use crate::agent_selector;
use crate::agent_selector::{AgentProject, SelectorView};
use crate::fs_path;
use crate::fs_path::{Component, FsPath};
use vstd::prelude::*;

verus! {

/// The root that a pane runs in: its worktree root, or its own path if it has none.
pub open spec fn root_of<E>(pane: PaneView, world: World<E>) -> Seq<u8> {
    match (world.root)(pane.path) {
        Some(root) => root,
        None => pane.path,
    }
}

/// Whether the file name of the root that a pane runs in reads as the handle.
pub open spec fn has_handle<E>(pane: PaneView, world: World<E>, handle: Seq<char>) -> bool {
    handle == (match fs_path::file_name(root_of(pane, world)) {
        Some(name) => fs_path::utf8_lossy(name),
        None => seq![],
    })
}

/// Whether the repository of a root has this whole name, or the directory above it,
/// which is the last component but one of the root.
pub open spec fn belongs_to<E>(root: Seq<u8>, world: World<E>, project: Seq<char>) -> bool {
    let parts = fs_path::components(root);
    ||| (world.repository)(root) == Some(project)
    ||| parts.len() >= 2 && (match parts[parts.len() - 2] {
        Component::Name(name) => fs_path::utf8_lossy(name) == project,
        _ => false,
    })
}

/// Whether a pane is meant by a handle and a qualifier.
pub open spec fn is_meant<E>(
    pane: PaneView,
    world: World<E>,
    handle: Seq<char>,
    project: Option<Seq<char>>,
) -> bool {
    &&& has_handle(pane, world, handle)
    &&& project matches Some(project) ==> belongs_to(root_of(pane, world), world, project)
}

/// Whether a root is meant by a qualifier; without one, every root is.
spec fn root_is_meant<E>(root: Seq<u8>, world: World<E>, project: Option<Seq<char>>) -> bool {
    project matches Some(project) ==> belongs_to(root, world, project)
}

/// Whether git knows a place however its path is spelled.
pub open spec fn spelling_does_not_matter<E>(world: World<E>) -> bool {
    forall|a: Seq<u8>, b: Seq<u8>|
        fs_path::components(a) == fs_path::components(b) ==> #[trigger] (world.repository)(a)
            == #[trigger] (world.repository)(b)
}

proof fn lemma_spelling<E>(
    a: Seq<u8>,
    b: Seq<u8>,
    world: World<E>,
    project: Option<Seq<char>>,
)
    requires
        spelling_does_not_matter(world),
        fs_path::components(a) == fs_path::components(b),
    ensures
        root_is_meant(a, world, project) == root_is_meant(b, world, project),
{
    assert((world.repository)(a) == (world.repository)(b));
}

/// The project of a group matches exactly if its root belongs to that project.
proof fn lemma_project_of_a_root<E>(root: Seq<u8>, world: World<E>, project: Seq<char>)
    ensures
        ({
            let view = agent_resolve::project_in(root, world);
            (view.name == Some(project) || view.parent_name == Some(project)) == belongs_to(
                root,
                world,
                project,
            )
        }),
{
    agent_selector::lemma_qualifiers_of_a_worktree(root, (world.repository)(root));
}

/// A global search ends with the only worktree that is meant and all of its panes, in
/// their order; it finds none if no pane is meant, and is ambiguous if panes of
/// different worktrees are. The positions of the panes of the worktree are given back.
pub proof fn lemma_a_search_ends_with_the_only_worktree_that_is_meant<E>(
    handle: Seq<char>,
    project: Option<Seq<char>>,
    panes: Seq<PaneView>,
    world: World<E>,
) -> (at: Seq<int>)
    requires
        spelling_does_not_matter(world),
    ensures
        match agent_resolve::stage_after(
            ResolutionView::<E>::AskRoots { handle, project, panes },
            world,
            2,
        ) {
            ResolutionView::Done(Ok((found, kept))) => {
                &&& exists|j: int|
                    0 <= j < panes.len() && is_meant(#[trigger] panes[j], world, handle, project)
                        && root_of(panes[j], world) == found
                &&& forall|j: int|
                    0 <= j < panes.len() && is_meant(#[trigger] panes[j], world, handle, project)
                        ==> fs_path::components(root_of(panes[j], world)) == fs_path::components(
                        found,
                    )
                &&& at.len() == kept.len() > 0
                &&& forall|k: int|
                    0 <= k < at.len() ==> 0 <= #[trigger] at[k] < panes.len() && kept[k]
                        == panes[at[k]]
                &&& forall|k: int, l: int|
                    0 <= k < l < at.len() ==> #[trigger] at[k] < #[trigger] at[l]
                &&& forall|j: int|
                    0 <= j < panes.len() ==> (#[trigger] at.contains(j) <==> is_meant(
                        panes[j],
                        world,
                        handle,
                        project,
                    ))
            },
            ResolutionView::Done(
                Err(FailureView::Unresolved(ResolveErrorView::NotFound { selector })),
            ) => {
                &&& forall|j: int|
                    0 <= j < panes.len() ==> !is_meant(#[trigger] panes[j], world, handle, project)
                &&& selector == (match project {
                    Some(project) => project + seq![':'] + handle,
                    None => handle,
                })
            },
            ResolutionView::Done(
                Err(FailureView::Unresolved(ResolveErrorView::Ambiguous { selector, .. })),
            ) => {
                &&& exists|i: int, j: int|
                    0 <= i < panes.len() && 0 <= j < panes.len() && is_meant(
                        #[trigger] panes[i],
                        world,
                        handle,
                        project,
                    ) && is_meant(#[trigger] panes[j], world, handle, project)
                        && fs_path::components(root_of(panes[i], world)) != fs_path::components(
                        root_of(panes[j], world),
                    )
                &&& selector == (match project {
                    Some(project) => project + seq![':'] + handle,
                    None => handle,
                })
            },
            _ => false,
        },
{
    reveal_with_fuel(agent_resolve::stage_after, 3);
    let start = ResolutionView::<E>::AskRoots { handle, project, panes };
    let roots = agent_groups::roots_by(panes, world.root);
    let groups = agent_groups::grouped(panes, roots, handle);
    let views = agent_groups::projects_by(
        groups,
        |root: Seq<u8>| agent_resolve::project_in(root, world),
    );
    agent_resolve::lemma_global_outcome_is_a_choice(handle, project, panes, world);
    assert(agent_resolve::pane_paths(panes).map_values(world.root) =~= roots);
    assert(agent_resolve::stage_after(start, world, 2) == ResolutionView::Done(
        agent_resolve::global_outcome(handle, project, panes, world),
    ));
    let chosen = agent_groups::lemma_a_search_finds_the_only_group_that_is_meant(
        groups,
        views,
        handle,
        project,
    );
    agent_groups::lemma_groups_partition_the_panes(panes, roots, handle);
    assert forall|i: int| 0 <= i < groups.len() implies (#[trigger] chosen.contains(i)
        <==> root_is_meant(groups[i].root, world, project)) by {
        if let Some(project) = project {
            lemma_project_of_a_root(groups[i].root, world, project);
        }
    }
    assert forall|j: int|
        0 <= j < panes.len() && is_meant(
            #[trigger] panes[j],
            world,
            handle,
            project,
        ) implies chosen.len() > 0 && (chosen.len() == 1 ==> fs_path::components(
        root_of(panes[j], world),
    ) == fs_path::components(groups[chosen[0]].root)) by {
        let i = agent_groups::lemma_root_has_a_group(panes, roots, handle, j);
        lemma_spelling(groups[i].root, root_of(panes[j], world), world, project);
        assert(chosen.contains(i));
    }
    if chosen.len() == 0 {
        seq![]
    } else {
        let g = chosen[0];
        assert(chosen.contains(g));
        let first = agent_groups::lemma_group_root_is_of_a_pane(panes, roots, handle, g);
        assert(root_of(panes[first], world) == groups[g].root);
        assert(is_meant(panes[first], world, handle, project));
        let at = agent_groups::lemma_a_group_holds_the_panes_of_its_root(panes, roots, handle, g);
        if chosen.len() == 1 {
            assert forall|j: int| 0 <= j < panes.len() implies (#[trigger] at.contains(j)
                <==> is_meant(panes[j], world, handle, project)) by {
                assert(roots[j] == (world.root)(panes[j].path));
                if at.contains(j) {
                    lemma_spelling(groups[g].root, root_of(panes[j], world), world, project);
                }
            }
        } else {
            let h = chosen[1];
            assert(chosen.contains(h));
            let second = agent_groups::lemma_group_root_is_of_a_pane(panes, roots, handle, h);
            assert(root_of(panes[second], world) == groups[h].root);
            assert(is_meant(panes[second], world, handle, project));
            assert(chosen[0] < chosen[1]);
            assert(!fs_path::same_path(groups[g].root, groups[h].root));
        }
        at
    }
}

/// Outside a repository, and where git knows no worktree of that name, a plain name is
/// searched for globally; a worktree that git knows is taken, with the panes that run
/// in it, in their order; and an error of either lookup is the outcome. The positions
/// of the panes in the worktree are given back.
pub proof fn lemma_plain_names_are_local_first<E>(
    name: Seq<char>,
    panes: Seq<PaneView>,
    world: World<E>,
) -> (at: Seq<int>)
    requires
        forall|project: Seq<char>, handle: Seq<char>|
            project.len() > 0 && handle.len() > 0 && !project.contains(':') ==> name !=
                #[trigger] (project + seq![':'] + handle),
    ensures
        ({
            let end = agent_resolve::stage_after(
                agent_resolve::begin::<E>(name, panes),
                world,
                4,
            );
            let searched = agent_resolve::stage_after(
                ResolutionView::<E>::AskRoots { handle: name, project: None, panes },
                world,
                2,
            );
            match world.in_repository {
                Err(error) => end == ResolutionView::<E>::Done(Err(FailureView::Lookup(error))),
                Ok(false) => end == searched,
                Ok(true) => match (world.worktree)(name) {
                    Err(error) => end == ResolutionView::<E>::Done(Err(FailureView::Lookup(error))),
                    Ok(None) => end == searched,
                    Ok(Some(worktree)) => {
                        &&& end is Done
                        &&& end->Done_0 is Ok
                        &&& end->Done_0->Ok_0.0 == worktree
                        &&& at.len() == end->Done_0->Ok_0.1.len()
                        &&& forall|k: int|
                            0 <= k < at.len() ==> 0 <= #[trigger] at[k] < panes.len()
                                && end->Done_0->Ok_0.1[k] == panes[at[k]]
                        &&& forall|k: int, l: int|
                            0 <= k < l < at.len() ==> #[trigger] at[k] < #[trigger] at[l]
                        &&& forall|j: int|
                            0 <= j < panes.len() ==> (#[trigger] at.contains(j)
                                <==> fs_path::starts_with(
                                (world.canonical)(panes[j].path),
                                (world.canonical)(worktree),
                            ))
                    },
                },
            }
        }),
{
    reveal_with_fuel(agent_resolve::stage_after, 5);
    agent_selector::lemma_names_are_split_at_their_first_colon(name);
    assert(agent_selector::parse_selector(name) == SelectorView::Local(name)) by {
        if let SelectorView::Qualified { project, handle } = agent_selector::parse_selector(name) {
            assert(name == project + seq![':'] + handle);
        }
    }
    match (world.worktree)(name) {
        Ok(Some(worktree)) => {
            let canonical = agent_resolve::pane_paths(panes).map_values(world.canonical);
            let at = agent_pane::lemma_panes_in_keep_their_order(
                panes,
                canonical,
                (world.canonical)(worktree),
            );
            assert forall|j: int| 0 <= j < panes.len() implies (#[trigger] at.contains(j)
                <==> fs_path::starts_with(
                (world.canonical)(panes[j].path),
                (world.canonical)(worktree),
            )) by {
                assert(canonical[j] == (world.canonical)(panes[j].path));
            }
            at
        },
        _ => seq![],
    }
}

/// A qualified name is searched for globally at once, whatever git says of the working
/// directory.
pub proof fn lemma_qualified_names_are_searched_for_globally<E>(
    project: Seq<char>,
    handle: Seq<char>,
    panes: Seq<PaneView>,
    world: World<E>,
)
    requires
        project.len() > 0,
        handle.len() > 0,
        !project.contains(':'),
    ensures
        agent_resolve::stage_after(
            agent_resolve::begin::<E>(project + seq![':'] + handle, panes),
            world,
            4,
        ) == agent_resolve::stage_after(
            ResolutionView::<E>::AskRoots { handle, project: Some(project), panes },
            world,
            2,
        ),
{
    reveal_with_fuel(agent_resolve::stage_after, 5);
    agent_selector::lemma_qualified_selector_reads_back(project, handle);
}

/// A qualified name never resolves to a worktree whose repository and whose directory
/// above both have another name, nor to one whose file name is not the handle.
pub proof fn lemma_a_qualified_name_never_resolves_elsewhere<E>(
    project: Seq<char>,
    handle: Seq<char>,
    panes: Seq<PaneView>,
    world: World<E>,
)
    requires
        project.len() > 0,
        handle.len() > 0,
        !project.contains(':'),
        spelling_does_not_matter(world),
    ensures
        agent_resolve::stage_after(
            agent_resolve::begin::<E>(project + seq![':'] + handle, panes),
            world,
            4,
        ) matches ResolutionView::Done(Ok((found, _))) ==> ({
            let parts = fs_path::components(found);
            &&& (world.repository)(found) == Some(project) || (parts.len() >= 2 && parts[parts.len()
                - 2] is Name && fs_path::utf8_lossy(parts[parts.len() - 2]->Name_0) == project)
            &&& handle == (match fs_path::file_name(found) {
                Some(name) => fs_path::utf8_lossy(name),
                None => seq![],
            })
        }),
{
    lemma_qualified_names_are_searched_for_globally(project, handle, panes, world);
    lemma_a_search_ends_with_the_only_worktree_that_is_meant(handle, Some(project), panes, world);
}

/// A plain handle that leads to one worktree at most is searched for without asking for
/// any project.
pub proof fn lemma_a_unique_plain_handle_needs_no_project<E>(
    handle: Seq<char>,
    panes: Seq<PaneView>,
    world: World<E>,
)
    requires
        forall|i: int, j: int|
            0 <= i < panes.len() && 0 <= j < panes.len() && has_handle(
                #[trigger] panes[i],
                world,
                handle,
            ) && has_handle(#[trigger] panes[j], world, handle) ==> fs_path::components(
                root_of(panes[i], world),
            ) == fs_path::components(root_of(panes[j], world)),
    ensures
        agent_resolve::stage_after(
            ResolutionView::<E>::AskRoots { handle, project: None, panes },
            world,
            1,
        ) is Done,
{
    reveal_with_fuel(agent_resolve::stage_after, 2);
    let roots = agent_groups::roots_by(panes, world.root);
    let groups = agent_groups::grouped(panes, roots, handle);
    assert(agent_resolve::pane_paths(panes).map_values(world.root) =~= roots);
    agent_groups::lemma_groups_partition_the_panes(panes, roots, handle);
    if groups.len() > 1 {
        let first = agent_groups::lemma_group_root_is_of_a_pane(panes, roots, handle, 0);
        let second = agent_groups::lemma_group_root_is_of_a_pane(panes, roots, handle, 1);
        assert(has_handle(panes[first], world, handle));
        assert(has_handle(panes[second], world, handle));
        assert(!fs_path::same_path(groups[0].root, groups[1].root));
    }
}

/// What is asked about the panes and groups is asked of each of them, in their order.
pub proof fn lemma_every_pane_and_group_is_asked_about(
    panes: Seq<PaneView>,
    groups: Seq<agent_groups::GroupView>,
    repositories: Seq<Option<Seq<char>>>,
)
    requires
        repositories.len() == groups.len(),
    ensures
        agent_resolve::pane_paths(panes).len() == panes.len(),
        forall|i: int|
            0 <= i < panes.len() ==> #[trigger] agent_resolve::pane_paths(panes)[i]
                == panes[i].path,
        agent_resolve::group_roots(groups).len() == groups.len(),
        forall|i: int|
            0 <= i < groups.len() ==> #[trigger] agent_resolve::group_roots(groups)[i]
                == groups[i].root,
        agent_resolve::projects_of(groups, repositories).len() == groups.len(),
        forall|i: int|
            0 <= i < groups.len() ==> (#[trigger] agent_resolve::projects_of(
                groups,
                repositories,
            )[i]).name == repositories[i],
{
}

/// Panes, groups and errors are told with all they hold.
pub proof fn lemma_panes_and_groups_are_told_as_they_are(
    pane: AgentPane,
    group: AgentGroup,
    panes: Seq<AgentPane>,
    selector: String,
    options: Vec<String>,
)
    ensures
        pane@.session == pane.session@,
        pane@.window_name == pane.window_name@,
        pane@.pane_id == pane.pane_id@,
        pane@.path == pane.path@,
        group@.root == group.root@,
        group@.panes == agent_pane::pane_list(group.panes@),
        agent_pane::pane_list(panes).len() == panes.len(),
        forall|i: int| 0 <= i < panes.len() ==> #[trigger] agent_pane::pane_list(panes)[i] == panes[i]@,
        (ResolveError::NotFound { selector })@ == (ResolveErrorView::NotFound {
            selector: selector@,
        }),
        (ResolveError::Ambiguous { selector, options })@ == (ResolveErrorView::Ambiguous {
            selector: selector@,
            options: options@.map_values(|option: String| option@),
        }),
        (ResolveError::NotRunning { name: selector })@ == (ResolveErrorView::NotRunning {
            name: selector@,
        }),
{
}

/// Lists of answers, groups and projects are told one by one, in their order.
pub proof fn lemma_lists_are_told_one_by_one(
    roots: Seq<Option<FsPath>>,
    names: Seq<Option<String>>,
    groups: Seq<AgentGroup>,
    projects: Seq<AgentProject>,
    panes: Seq<&AgentPane>,
)
    ensures
        agent_groups::root_list(roots).len() == roots.len(),
        forall|i: int|
            0 <= i < roots.len() ==> #[trigger] agent_groups::root_list(roots)[i] == (
            match roots[i] {
                Some(root) => Some(root@),
                None => None,
            }),
        agent_resolve::name_list(names).len() == names.len(),
        forall|i: int|
            0 <= i < names.len() ==> #[trigger] agent_resolve::name_list(names)[i] == (
            match names[i] {
                Some(name) => Some(name@),
                None => None,
            }),
        agent_groups::group_list(groups).len() == groups.len(),
        forall|i: int|
            0 <= i < groups.len() ==> #[trigger] agent_groups::group_list(groups)[i] == groups[i]@,
        agent_groups::project_list(projects).len() == projects.len(),
        forall|i: int|
            0 <= i < projects.len() ==> #[trigger] agent_groups::project_list(projects)[i]
                == projects[i]@,
        agent_pane::pane_refs(panes).len() == panes.len(),
        forall|i: int|
            0 <= i < panes.len() ==> #[trigger] agent_pane::pane_refs(panes)[i] == panes[i]@,
{
}

} // verus!
