//! Resolving a worktree name to its agents, one lookup at a time.
//!
//! A resolution asks for what it needs to know next and is answered by whoever
//! drives it, until it is done:
//! 1. a `project:handle` name goes straight to the global search;
//! 2. a plain name is looked up among the local git worktrees first, and
//!    globally if it is not found there or outside a repository;
//! 3. the global search goes by the directory name of each agent's worktree, and
//!    asks for projects only where they are needed to decide.

use crate::agent_groups;
use crate::agent_groups::{
    group_agents, resolve_global_agents, AgentGroup, GroupView, ResolveError, ResolveErrorView,
};
use crate::agent_pane;
use crate::agent_pane::{resolve_local_agents, AgentPane, PaneView};
use crate::agent_selector;
use crate::agent_selector::{AgentProject, AgentSelector, ProjectView, SelectorView};
use crate::fs_path;
use crate::fs_path::FsPath;
use crate::text;
use crate::worktree_root;
use vstd::prelude::*;

verus! {

broadcast use vstd::string::group_string_axioms;

/// Why a resolution failed.
pub enum ResolveFailure<E> {
    /// A lookup failed.
    Lookup(E),
    /// Every lookup was answered, and the name does not resolve.
    Unresolved(ResolveError),
}

/// What a failure holds.
pub enum FailureView<E> {
    Lookup(E),
    Unresolved(ResolveErrorView),
}

impl<E> View for ResolveFailure<E> {
    type V = FailureView<E>;

    open spec fn view(&self) -> FailureView<E> {
        match *self {
            ResolveFailure::Lookup(error) => FailureView::Lookup(error),
            ResolveFailure::Unresolved(error) => FailureView::Unresolved(error@),
        }
    }
}

/// Asks whether the working directory is in a git repository.
pub struct RepositoryQuery {
    name: String,
    panes: Vec<AgentPane>,
}

/// Asks for the git worktree of a name in the current repository.
pub struct WorktreeQuery {
    name: String,
    panes: Vec<AgentPane>,
}

/// Asks for the canonical paths of a worktree and of every agent.
pub struct CanonicalQuery {
    worktree: FsPath,
    panes: Vec<AgentPane>,
}

/// Asks for the worktree root of every agent.
pub struct RootsQuery {
    handle: String,
    project: Option<String>,
    panes: Vec<AgentPane>,
}

/// Asks for the repository name of every matching worktree.
pub struct ProjectsQuery {
    groups: Vec<AgentGroup>,
    handle: String,
    project: Option<String>,
}

/// A resolution in progress: what it must know next, or its outcome.
pub enum Resolution<E> {
    AskRepository(RepositoryQuery),
    AskWorktree(WorktreeQuery),
    AskCanonical(CanonicalQuery),
    AskRoots(RootsQuery),
    AskProjects(ProjectsQuery),
    Done(Result<(FsPath, Vec<AgentPane>), ResolveFailure<E>>),
}

/// What a resolution holds.
pub enum ResolutionView<E> {
    AskRepository { name: Seq<char>, panes: Seq<PaneView> },
    AskWorktree { name: Seq<char>, panes: Seq<PaneView> },
    AskCanonical { worktree: Seq<u8>, panes: Seq<PaneView> },
    AskRoots { handle: Seq<char>, project: Option<Seq<char>>, panes: Seq<PaneView> },
    AskProjects { groups: Seq<GroupView>, handle: Seq<char>, project: Option<Seq<char>> },
    Done(Result<(Seq<u8>, Seq<PaneView>), FailureView<E>>),
}

impl RepositoryQuery {
    pub closed spec fn name(self) -> Seq<char> {
        self.name@
    }

    pub closed spec fn panes(self) -> Seq<PaneView> {
        agent_pane::pane_list(self.panes@)
    }
}

impl WorktreeQuery {
    pub closed spec fn name(self) -> Seq<char> {
        self.name@
    }

    pub closed spec fn panes(self) -> Seq<PaneView> {
        agent_pane::pane_list(self.panes@)
    }
}

impl CanonicalQuery {
    pub closed spec fn worktree(self) -> Seq<u8> {
        self.worktree@
    }

    pub closed spec fn panes(self) -> Seq<PaneView> {
        agent_pane::pane_list(self.panes@)
    }
}

impl RootsQuery {
    pub closed spec fn handle(self) -> Seq<char> {
        self.handle@
    }

    pub closed spec fn project(self) -> Option<Seq<char>> {
        text::text_option(self.project)
    }

    pub closed spec fn panes(self) -> Seq<PaneView> {
        agent_pane::pane_list(self.panes@)
    }
}

impl ProjectsQuery {
    pub closed spec fn groups(self) -> Seq<GroupView> {
        agent_groups::group_list(self.groups@)
    }

    pub closed spec fn handle(self) -> Seq<char> {
        self.handle@
    }

    pub closed spec fn project(self) -> Option<Seq<char>> {
        text::text_option(self.project)
    }
}

/// What an outcome holds.
pub open spec fn result_view<E>(
    result: Result<(FsPath, Vec<AgentPane>), ResolveFailure<E>>,
) -> Result<(Seq<u8>, Seq<PaneView>), FailureView<E>> {
    match result {
        Ok(resolved) => Ok(agent_groups::resolved_view(resolved)),
        Err(failure) => Err(failure@),
    }
}

impl<E> View for Resolution<E> {
    type V = ResolutionView<E>;

    open spec fn view(&self) -> ResolutionView<E> {
        match *self {
            Resolution::AskRepository(query) => ResolutionView::AskRepository {
                name: query.name(),
                panes: query.panes(),
            },
            Resolution::AskWorktree(query) => ResolutionView::AskWorktree {
                name: query.name(),
                panes: query.panes(),
            },
            Resolution::AskCanonical(query) => ResolutionView::AskCanonical {
                worktree: query.worktree(),
                panes: query.panes(),
            },
            Resolution::AskRoots(query) => ResolutionView::AskRoots {
                handle: query.handle(),
                project: query.project(),
                panes: query.panes(),
            },
            Resolution::AskProjects(query) => ResolutionView::AskProjects {
                groups: query.groups(),
                handle: query.handle(),
                project: query.project(),
            },
            Resolution::Done(result) => ResolutionView::Done(result_view(result)),
        }
    }
}

/// The global search for a handle, with its project if it has one.
pub open spec fn search<E>(
    handle: Seq<char>,
    project: Option<Seq<char>>,
    panes: Seq<PaneView>,
) -> ResolutionView<E> {
    ResolutionView::AskRoots { handle, project, panes }
}

/// How a resolution begins: a qualified name is searched for globally, a plain
/// name is tried locally first.
pub open spec fn begin<E>(name: Seq<char>, panes: Seq<PaneView>) -> ResolutionView<E> {
    match agent_selector::parse_selector(name) {
        SelectorView::Qualified { project, handle } => search(handle, Some(project), panes),
        SelectorView::Local(name) => ResolutionView::AskRepository { name, panes },
    }
}

/// What follows once it is known whether there is a repository.
pub open spec fn after_repository<E>(
    name: Seq<char>,
    panes: Seq<PaneView>,
    in_repository: Result<bool, E>,
) -> ResolutionView<E> {
    match in_repository {
        Ok(true) => ResolutionView::AskWorktree { name, panes },
        Ok(false) => search(name, None, panes),
        Err(error) => ResolutionView::Done(Err(FailureView::Lookup(error))),
    }
}

/// What follows once the local worktrees were searched.
pub open spec fn after_worktree<E>(
    name: Seq<char>,
    panes: Seq<PaneView>,
    worktree: Result<Option<Seq<u8>>, E>,
) -> ResolutionView<E> {
    match worktree {
        Ok(Some(worktree)) => ResolutionView::AskCanonical { worktree, panes },
        Ok(None) => search(name, None, panes),
        Err(error) => ResolutionView::Done(Err(FailureView::Lookup(error))),
    }
}

/// The outcome of a local lookup: the worktree with the agents that run in it.
pub open spec fn after_canonical<E>(
    worktree: Seq<u8>,
    panes: Seq<PaneView>,
    canonical_worktree: Seq<u8>,
    canonical: Seq<Seq<u8>>,
) -> ResolutionView<E> {
    ResolutionView::Done(
        Ok((worktree, agent_pane::panes_in(panes, canonical, canonical_worktree))),
    )
}

/// The outcome of a global search, once the projects that it needs are known.
pub open spec fn chosen<E>(
    groups: Seq<GroupView>,
    projects: Seq<ProjectView>,
    handle: Seq<char>,
    project: Option<Seq<char>>,
) -> ResolutionView<E> {
    ResolutionView::Done(
        match agent_groups::choose_group(groups, projects, handle, project) {
            Ok(resolved) => Ok(resolved),
            Err(error) => Err(FailureView::Unresolved(error)),
        },
    )
}

/// What follows once the roots of the agents are known: their groups decide at
/// once unless projects are needed.
pub open spec fn after_roots<E>(
    handle: Seq<char>,
    project: Option<Seq<char>>,
    panes: Seq<PaneView>,
    roots: Seq<Option<Seq<u8>>>,
) -> ResolutionView<E> {
    let groups = agent_groups::grouped(panes, roots, handle);
    if agent_groups::needs_projects(groups, project) {
        ResolutionView::AskProjects { groups, handle, project }
    } else {
        chosen(groups, seq![], handle, project)
    }
}

/// The projects of groups, given the repository name of each.
pub open spec fn projects_of(
    groups: Seq<GroupView>,
    repositories: Seq<Option<Seq<char>>>,
) -> Seq<ProjectView> {
    Seq::new(
        groups.len(),
        |i: int| agent_selector::project_for(groups[i].root, repositories[i]),
    )
}

/// What follows once the repository names of the groups are known.
pub open spec fn after_projects<E>(
    groups: Seq<GroupView>,
    handle: Seq<char>,
    project: Option<Seq<char>>,
    repositories: Seq<Option<Seq<char>>>,
) -> ResolutionView<E> {
    chosen(groups, projects_of(groups, repositories), handle, project)
}

/// What a list of optional names holds.
pub open spec fn name_list(names: Seq<Option<String>>) -> Seq<Option<Seq<char>>> {
    names.map_values(|name: Option<String>| text::text_option(name))
}

/// The paths of panes.
pub open spec fn pane_paths(panes: Seq<PaneView>) -> Seq<Seq<u8>> {
    panes.map_values(|pane: PaneView| pane.path)
}

/// The roots of groups.
pub open spec fn group_roots(groups: Seq<GroupView>) -> Seq<Seq<u8>> {
    groups.map_values(|group: GroupView| group.root)
}

fn paths_of(panes: &Vec<AgentPane>) -> (paths: Vec<FsPath>)
    ensures
        fs_path::path_list(paths@) == pane_paths(agent_pane::pane_list(panes@)),
{
    let mut paths: Vec<FsPath> = Vec::new();
    let mut i: usize = 0;
    while i < panes.len()
        invariant
            i <= panes@.len(),
            paths@.len() == i,
            forall|j: int| 0 <= j < i ==> (#[trigger] paths@[j])@ == panes@[j].path@,
        decreases panes.len() - i,
    {
        paths.push(panes[i].path.clone());
        i += 1;
    }
    assert(fs_path::path_list(paths@) =~= pane_paths(agent_pane::pane_list(panes@)));
    paths
}

/// Begin to resolve a name against one snapshot of the agents.
pub fn resolve_worktree_agents_from_snapshot<E>(name: &str, agent_panes: Vec<AgentPane>) -> (
resolution: Resolution<E>)
    ensures
        resolution@ == begin::<E>(name@, agent_pane::pane_list(agent_panes@)),
{
    match AgentSelector::parse(name) {
        AgentSelector::Qualified { project, handle } => Resolution::AskRoots(
            RootsQuery { handle, project: Some(project), panes: agent_panes },
        ),
        AgentSelector::Local(name) => Resolution::AskRepository(
            RepositoryQuery { name, panes: agent_panes },
        ),
    }
}

/// Begin to resolve a name against the agents that were loaded; if they could not
/// be, that is the outcome.
pub fn resolve_worktree_agents<E>(name: &str, loaded: Result<Vec<AgentPane>, E>) -> (resolution:
    Resolution<E>)
    ensures
        resolution@ == (match loaded {
            Ok(panes) => begin::<E>(name@, agent_pane::pane_list(panes@)),
            Err(error) => ResolutionView::Done(Err(FailureView::Lookup(error))),
        }),
{
    match loaded {
        Ok(panes) => resolve_worktree_agents_from_snapshot(name, panes),
        Err(error) => Resolution::Done(Err(ResolveFailure::Lookup(error))),
    }
}

/// The first agent of a resolved worktree, which is its primary one; an error if
/// none runs there.
pub fn resolve_worktree_agent<E>(
    name: &str,
    resolved: Result<(FsPath, Vec<AgentPane>), ResolveFailure<E>>,
) -> (agent: Result<(FsPath, AgentPane), ResolveFailure<E>>)
    ensures
        match result_view(resolved) {
            Err(failure) => agent matches Err(got) && got@ == failure,
            Ok((path, panes)) => if panes.len() == 0 {
                agent matches Err(got) && got@ == FailureView::<E>::Unresolved(
                    ResolveErrorView::NotRunning { name: name@ },
                )
            } else {
                agent matches Ok((root, pane)) && root@ == path && pane@ == panes[0]
            },
        },
{
    match resolved {
        Err(failure) => Err(failure),
        Ok((path, agents)) => {
            if agents.len() == 0 {
                Err(
                    ResolveFailure::Unresolved(
                        ResolveError::NotRunning { name: name.to_owned() },
                    ),
                )
            } else {
                let mut agents = agents;
                let first = agents.swap_remove(0);
                Ok((path, first))
            }
        },
    }
}

impl RepositoryQuery {
    /// Go on, knowing whether the working directory is in a repository.
    pub fn answer<E>(self, in_repository: Result<bool, E>) -> (next: Resolution<E>)
        ensures
            next@ == after_repository::<E>(self.name(), self.panes(), in_repository),
    {
        match in_repository {
            Ok(true) => Resolution::AskWorktree(
                WorktreeQuery { name: self.name, panes: self.panes },
            ),
            Ok(false) => Resolution::AskRoots(
                RootsQuery { handle: self.name, project: None, panes: self.panes },
            ),
            Err(error) => Resolution::Done(Err(ResolveFailure::Lookup(error))),
        }
    }
}

/// What the answer to a worktree query holds.
pub open spec fn worktree_answer<E>(worktree: Result<Option<FsPath>, E>) -> Result<
    Option<Seq<u8>>,
    E,
> {
    match worktree {
        Ok(path) => Ok(fs_path::path_option(path)),
        Err(error) => Err(error),
    }
}

impl WorktreeQuery {
    /// The name to look up.
    pub fn worktree_name(&self) -> (name: &str)
        ensures
            name@ == self.name(),
    {
        self.name.as_str()
    }

    /// Go on, knowing the path of the worktree, or that there is none of that name.
    pub fn answer<E>(self, worktree: Result<Option<FsPath>, E>) -> (next: Resolution<E>)
        ensures
            next@ == after_worktree::<E>(self.name(), self.panes(), worktree_answer(worktree)),
    {
        match worktree {
            Ok(Some(worktree)) => Resolution::AskCanonical(
                CanonicalQuery { worktree, panes: self.panes },
            ),
            Ok(None) => Resolution::AskRoots(
                RootsQuery { handle: self.name, project: None, panes: self.panes },
            ),
            Err(error) => Resolution::Done(Err(ResolveFailure::Lookup(error))),
        }
    }
}

impl CanonicalQuery {
    /// The path of the worktree.
    pub fn worktree_path(&self) -> (path: &FsPath)
        ensures
            path@ == self.worktree(),
    {
        &self.worktree
    }

    /// The path of every agent.
    pub fn agent_paths(&self) -> (paths: Vec<FsPath>)
        ensures
            fs_path::path_list(paths@) == pane_paths(self.panes()),
    {
        paths_of(&self.panes)
    }

    /// Go on, knowing the canonical path of the worktree and of every agent.
    pub fn answer<E>(self, canonical_worktree: &FsPath, canonical: &[FsPath]) -> (next: Resolution<
        E,
    >)
        requires
            canonical@.len() == self.panes().len(),
        ensures
            next@ == after_canonical::<E>(
                self.worktree(),
                self.panes(),
                canonical_worktree@,
                fs_path::path_list(canonical@),
            ),
    {
        Resolution::Done(
            Ok(
                resolve_local_agents(
                    self.panes.as_slice(),
                    canonical,
                    &self.worktree,
                    canonical_worktree,
                ),
            ),
        )
    }
}

impl RootsQuery {
    /// The path of every agent.
    pub fn agent_paths(&self) -> (paths: Vec<FsPath>)
        ensures
            fs_path::path_list(paths@) == pane_paths(self.panes()),
    {
        paths_of(&self.panes)
    }

    /// Go on, knowing the worktree root of every agent, where it has one.
    pub fn answer<E>(self, roots: &[Option<FsPath>]) -> (next: Resolution<E>)
        requires
            roots@.len() == self.panes().len(),
        ensures
            next@ == after_roots::<E>(
                self.handle(),
                self.project(),
                self.panes(),
                agent_groups::root_list(roots@),
            ),
    {
        let groups = group_agents(self.panes.as_slice(), roots, self.handle.as_str());
        if self.project.is_some() || groups.len() > 1 {
            Resolution::AskProjects(
                ProjectsQuery { groups, handle: self.handle, project: self.project },
            )
        } else {
            let projects: Vec<AgentProject> = Vec::new();
            assert(agent_groups::project_list(projects@) =~= seq![]);
            match resolve_global_agents(groups, &projects, self.handle.as_str(), None) {
                Ok(resolved) => Resolution::Done(Ok(resolved)),
                Err(error) => Resolution::Done(Err(ResolveFailure::Unresolved(error))),
            }
        }
    }
}

impl ProjectsQuery {
    /// The root of every matching worktree.
    pub fn worktree_roots(&self) -> (roots: Vec<FsPath>)
        ensures
            fs_path::path_list(roots@) == group_roots(self.groups()),
    {
        let mut roots: Vec<FsPath> = Vec::new();
        let mut i: usize = 0;
        while i < self.groups.len()
            invariant
                i <= self.groups@.len(),
                roots@.len() == i,
                forall|j: int| 0 <= j < i ==> (#[trigger] roots@[j])@ == self.groups@[j].root@,
            decreases self.groups.len() - i,
        {
            roots.push(self.groups[i].root.clone());
            i += 1;
        }
        assert(fs_path::path_list(roots@) =~= group_roots(self.groups()));
        roots
    }

    /// Go on, knowing the repository name of every matching worktree, where git
    /// knows one.
    pub fn answer<E>(self, repositories: &[Option<String>]) -> (next: Resolution<E>)
        requires
            repositories@.len() == self.groups().len(),
        ensures
            next@ == after_projects::<E>(
                self.groups(),
                self.handle(),
                self.project(),
                name_list(repositories@),
            ),
    {
        let mut projects: Vec<AgentProject> = Vec::new();
        let mut i: usize = 0;
        let ghost all = projects_of(self.groups(), name_list(repositories@));
        while i < self.groups.len()
            invariant
                i <= self.groups@.len(),
                repositories@.len() == self.groups@.len(),
                projects@.len() == i,
                all == projects_of(self.groups(), name_list(repositories@)),
                forall|j: int| 0 <= j < i ==> (#[trigger] projects@[j])@ == all[j],
            decreases self.groups.len() - i,
        {
            let repository = text::copy_text_option(&repositories[i]);
            projects.push(AgentProject::for_worktree(&self.groups[i].root, repository));
            i += 1;
        }
        assert(agent_groups::project_list(projects@) =~= all);
        let project = match &self.project {
            Some(project) => Some(project.as_str()),
            None => None,
        };
        match resolve_global_agents(self.groups, &projects, self.handle.as_str(), project) {
            Ok(resolved) => Resolution::Done(Ok(resolved)),
            Err(error) => Resolution::Done(Err(ResolveFailure::Unresolved(error))),
        }
    }
}

/// A world that answers every lookup the same way each time.
pub struct World<E> {
    /// Whether the working directory is in a repository.
    pub in_repository: Result<bool, E>,
    /// The local git worktree of a name.
    pub worktree: spec_fn(Seq<char>) -> Result<Option<Seq<u8>>, E>,
    /// The canonical form of a path.
    pub canonical: spec_fn(Seq<u8>) -> Seq<u8>,
    /// The worktree root that contains a path.
    pub root: spec_fn(Seq<u8>) -> Option<Seq<u8>>,
    /// The repository name of a worktree.
    pub repository: spec_fn(Seq<u8>) -> Option<Seq<char>>,
}

/// The next stage of a resolution in a world; an outcome stays as it is.
pub open spec fn next_stage<E>(stage: ResolutionView<E>, world: World<E>) -> ResolutionView<E> {
    match stage {
        ResolutionView::AskRepository { name, panes } => after_repository(
            name,
            panes,
            world.in_repository,
        ),
        ResolutionView::AskWorktree { name, panes } => after_worktree(
            name,
            panes,
            (world.worktree)(name),
        ),
        ResolutionView::AskCanonical { worktree, panes } => after_canonical(
            worktree,
            panes,
            (world.canonical)(worktree),
            pane_paths(panes).map_values(world.canonical),
        ),
        ResolutionView::AskRoots { handle, project, panes } => after_roots(
            handle,
            project,
            panes,
            pane_paths(panes).map_values(world.root),
        ),
        ResolutionView::AskProjects { groups, handle, project } => after_projects(
            groups,
            handle,
            project,
            group_roots(groups).map_values(world.repository),
        ),
        ResolutionView::Done(result) => stage,
    }
}

/// The stage of a resolution after a number of answers.
pub open spec fn stage_after<E>(stage: ResolutionView<E>, world: World<E>, answers: nat) ->
    ResolutionView<E>
    decreases answers,
{
    if answers == 0 {
        stage
    } else {
        stage_after(next_stage(stage, world), world, (answers - 1) as nat)
    }
}

/// The outcome of a global search in a world.
pub open spec fn global_outcome<E>(
    handle: Seq<char>,
    project: Option<Seq<char>>,
    panes: Seq<PaneView>,
    world: World<E>,
) -> Result<(Seq<u8>, Seq<PaneView>), FailureView<E>> {
    let groups = agent_groups::grouped(panes, pane_paths(panes).map_values(world.root), handle);
    let projects = if agent_groups::needs_projects(groups, project) {
        projects_of(groups, group_roots(groups).map_values(world.repository))
    } else {
        seq![]
    };
    match agent_groups::choose_group(groups, projects, handle, project) {
        Ok(resolved) => Ok(resolved),
        Err(error) => Err(FailureView::Unresolved(error)),
    }
}

/// What a name resolves to in a world: a qualified name globally; a plain name
/// to its local worktree if there is one, and globally if not.
pub open spec fn resolved_in<E>(name: Seq<char>, panes: Seq<PaneView>, world: World<E>) -> Result<
    (Seq<u8>, Seq<PaneView>),
    FailureView<E>,
> {
    match agent_selector::parse_selector(name) {
        SelectorView::Qualified { project, handle } => global_outcome(
            handle,
            Some(project),
            panes,
            world,
        ),
        SelectorView::Local(name) => match world.in_repository {
            Err(error) => Err(FailureView::Lookup(error)),
            Ok(false) => global_outcome(name, None, panes, world),
            Ok(true) => match (world.worktree)(name) {
                Err(error) => Err(FailureView::Lookup(error)),
                Ok(None) => global_outcome(name, None, panes, world),
                Ok(Some(worktree)) => Ok(
                    (
                        worktree,
                        agent_pane::panes_in(
                            panes,
                            pane_paths(panes).map_values(world.canonical),
                            (world.canonical)(worktree),
                        ),
                    ),
                ),
            },
        },
    }
}

/// However the world answers, four answers at most resolve a name, and to what
/// the order of the lookups promises.
pub proof fn lemma_resolution_follows_the_order_of_lookups<E>(
    name: Seq<char>,
    panes: Seq<PaneView>,
    world: World<E>,
)
    ensures
        stage_after(begin::<E>(name, panes), world, 4) == ResolutionView::Done(
            resolved_in(name, panes, world),
        ),
{
    reveal_with_fuel(stage_after, 5);
}

/// The groups of a handle in a world.
pub open spec fn groups_in<E>(handle: Seq<char>, panes: Seq<PaneView>, world: World<E>) -> Seq<
    GroupView,
> {
    agent_groups::grouped(panes, pane_paths(panes).map_values(world.root), handle)
}

/// The project of a worktree in a world.
pub open spec fn project_in<E>(root: Seq<u8>, world: World<E>) -> ProjectView {
    agent_selector::project_for(root, (world.repository)(root))
}

/// The selector that is suggested for a worktree resolves to that worktree, unless
/// the project of another worktree goes by the same name. Then the selector is
/// ambiguous; it never resolves to another worktree.
pub proof fn lemma_suggested_selector_resolves<E>(
    handle: Seq<char>,
    panes: Seq<PaneView>,
    world: World<E>,
    i: int,
)
    requires
        handle.len() > 0,
        0 <= i < groups_in(handle, panes, world).len(),
        project_in(groups_in(handle, panes, world)[i].root, world).preferred_name() matches Some(
            name,
        ) && name.len() > 0 && !name.contains(':'),
    ensures
        ({
            let groups = groups_in(handle, panes, world);
            let project = project_in(groups[i].root, world);
            let name = project.preferred_name()->0;
            match resolved_in(project.selector(handle)->0, panes, world) {
                Ok(resolved) => resolved == (groups[i].root, groups[i].panes) && (forall|j: int|
                    0 <= j < groups.len() && j != i ==> !project_in(
                        (#[trigger] groups[j]).root,
                        world,
                    ).matches(name)),
                Err(failure) => failure matches FailureView::Unresolved(error)
                    && error is Ambiguous && (exists|j: int|
                    0 <= j < groups.len() && j != i && project_in(
                        (#[trigger] groups[j]).root,
                        world,
                    ).matches(name)),
            }
        }),
{
    let groups = groups_in(handle, panes, world);
    let project = project_in(groups[i].root, world);
    let name = project.preferred_name()->0;
    let projects = projects_of(groups, group_roots(groups).map_values(world.repository));
    agent_selector::lemma_qualified_selector_reads_back(name, handle);
    assert forall|j: int| 0 <= j < groups.len() implies #[trigger] agent_groups::is_candidate(
        projects,
        Some(name),
        j,
    ) == project_in(groups[j].root, world).matches(name) by {
        assert(group_roots(groups)[j] == groups[j].root);
    }
    agent_groups::lemma_choice_is_unique(groups, projects, handle, Some(name), i);
    match agent_groups::choose_group(groups, projects, handle, Some(name)) {
        Ok(resolved) => {
            assert forall|j: int| 0 <= j < groups.len() && j != i implies !project_in(
                (#[trigger] groups[j]).root,
                world,
            ).matches(name) by {
                assert(!agent_groups::is_candidate(projects, Some(name), j));
            }
        },
        Err(error) => {
            let j = choose|j: int|
                0 <= j < groups.len() && j != i && #[trigger] agent_groups::is_candidate(
                    projects,
                    Some(name),
                    j,
                );
            assert(project_in(groups[j].root, world).matches(name));
        },
    }
}

/// Projects do not bear on the choice among one group at most without a qualifier.
proof fn lemma_projects_do_not_matter(
    groups: Seq<GroupView>,
    projects: Seq<ProjectView>,
    handle: Seq<char>,
)
    requires
        groups.len() <= 1,
    ensures
        agent_groups::choose_group(groups, seq![], handle, None) == agent_groups::choose_group(
            groups,
            projects,
            handle,
            None,
        ),
{
    reveal_with_fuel(agent_groups::candidates, 2);
}

/// The outcome of a global search as a choice among the groups of a handle.
pub proof fn lemma_global_outcome_is_a_choice<E>(
    handle: Seq<char>,
    project: Option<Seq<char>>,
    panes: Seq<PaneView>,
    world: World<E>,
)
    ensures
        ({
            let groups = agent_groups::grouped(
                panes,
                agent_groups::roots_by(panes, world.root),
                handle,
            );
            let projects = agent_groups::projects_by(
                groups,
                |root: Seq<u8>| project_in(root, world),
            );
            global_outcome(handle, project, panes, world) == (match agent_groups::choose_group(
                groups,
                projects,
                handle,
                project,
            ) {
                Ok(resolved) => Ok(resolved),
                Err(error) => Err(FailureView::<E>::Unresolved(error)),
            })
        }),
{
    let groups = groups_in(handle, panes, world);
    let projects = agent_groups::projects_by(groups, |root: Seq<u8>| project_in(root, world));
    assert(pane_paths(panes).map_values(world.root) =~= agent_groups::roots_by(
        panes,
        world.root,
    ));
    assert(projects_of(groups, group_roots(groups).map_values(world.repository)) =~= projects);
    if !agent_groups::needs_projects(groups, project) {
        lemma_projects_do_not_matter(groups, projects, handle);
    }
}

/// The outcome of a global search does not depend on the order of the panes: it
/// ends with the same root and the same panes, or with the same error. Panes of the
/// same worktree must have its root spelled alike, since the root is shown as the
/// first of them spells it.
pub proof fn lemma_global_search_ignores_the_order_of_panes<E>(
    handle: Seq<char>,
    project: Option<Seq<char>>,
    a: Seq<PaneView>,
    b: Seq<PaneView>,
    world: World<E>,
)
    requires
        a.to_multiset() == b.to_multiset(),
        agent_groups::roots_spelled_alike(a, world.root),
    ensures
        agent_groups::same_but_for_order(
            global_outcome(handle, project, a, world),
            global_outcome(handle, project, b, world),
        ),
{
    lemma_global_outcome_is_a_choice(handle, project, a, world);
    lemma_global_outcome_is_a_choice(handle, project, b, world);
    agent_groups::lemma_choice_ignores_the_order_of_panes(
        a,
        b,
        world.root,
        |root: Seq<u8>| project_in(root, world),
        handle,
        project,
    );
}

/// Panes whose paths are in their shortest spelling have the root of the same
/// worktree spelled alike, where the root of a path is the nearest place above it
/// that holds a marker.
pub proof fn lemma_normal_panes_have_roots_spelled_alike(
    panes: Seq<PaneView>,
    root: spec_fn(Seq<u8>) -> Option<Seq<u8>>,
    exists_at: spec_fn(Seq<u8>) -> bool,
)
    requires
        forall|i: int| 0 <= i < panes.len() ==> fs_path::is_normal((#[trigger] panes[i]).path),
        forall|i: int|
            0 <= i < panes.len() ==> root((#[trigger] panes[i]).path)
                == worktree_root::worktree_root(panes[i].path, exists_at),
    ensures
        agent_groups::roots_spelled_alike(panes, root),
{
    assert forall|i: int, j: int|
        0 <= i < panes.len() && 0 <= j < panes.len() && fs_path::same_path(
            agent_groups::root_by(#[trigger] panes[i], root),
            agent_groups::root_by(#[trigger] panes[j], root),
        ) implies agent_groups::root_by(panes[i], root) == agent_groups::root_by(
        panes[j],
        root,
    ) by {
        worktree_root::lemma_worktree_root_is_normal(panes[i].path, exists_at);
        worktree_root::lemma_worktree_root_is_normal(panes[j].path, exists_at);
        fs_path::lemma_normal_paths_are_spelled_alike(
            agent_groups::root_by(panes[i], root),
            agent_groups::root_by(panes[j], root),
        );
    }
}

/// What a name resolves to does not depend on the order of the panes if their paths
/// are in their shortest spelling: the resolution ends with the same worktree and
/// the same panes, or with the same error. This holds of the global search for any
/// handle and project as well.
pub proof fn lemma_resolution_ignores_the_order_of_panes<E>(
    name: Seq<char>,
    handle: Seq<char>,
    project: Option<Seq<char>>,
    a: Seq<PaneView>,
    b: Seq<PaneView>,
    world: World<E>,
    exists_at: spec_fn(Seq<u8>) -> bool,
)
    requires
        a.to_multiset() == b.to_multiset(),
        forall|i: int| 0 <= i < a.len() ==> fs_path::is_normal((#[trigger] a[i]).path),
        forall|i: int|
            0 <= i < a.len() ==> (world.root)((#[trigger] a[i]).path)
                == worktree_root::worktree_root(a[i].path, exists_at),
    ensures
        agent_groups::same_but_for_order(
            global_outcome(handle, project, a, world),
            global_outcome(handle, project, b, world),
        ),
        agent_groups::same_but_for_order(
            resolved_in(name, a, world),
            resolved_in(name, b, world),
        ),
{
    lemma_normal_panes_have_roots_spelled_alike(a, world.root, exists_at);
    lemma_global_search_ignores_the_order_of_panes(handle, project, a, b, world);
    match agent_selector::parse_selector(name) {
        SelectorView::Qualified { project, handle } => {
            lemma_global_search_ignores_the_order_of_panes(handle, Some(project), a, b, world);
        },
        SelectorView::Local(name) => {
            lemma_global_search_ignores_the_order_of_panes(name, None, a, b, world);
            if let Ok(Some(worktree)) = (world.worktree)(name) {
                agent_pane::lemma_panes_in_ignore_order(
                    a,
                    b,
                    world.canonical,
                    (world.canonical)(worktree),
                );
                assert(pane_paths(a).map_values(world.canonical) =~= a.map_values(
                    |p: PaneView| (world.canonical)(p.path),
                ));
                assert(pane_paths(b).map_values(world.canonical) =~= b.map_values(
                    |p: PaneView| (world.canonical)(p.path),
                ));
            }
        },
    }
}

} // verus!
