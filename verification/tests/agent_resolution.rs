//! Resolving agent names in worlds of repositories and worktrees.

use workmux::agent_groups::{group_agents, resolve_global_agents, ResolveError};
use workmux::agent_pane::{match_agents_to_worktree, AgentPane};
use workmux::agent_resolve::{
    resolve_worktree_agent, resolve_worktree_agents, resolve_worktree_agents_from_snapshot,
    Resolution, ResolveFailure,
};
use workmux::agent_selector::{format_selector, AgentProject, AgentSelector};
use workmux::fs_path::FsPath;
use workmux::worktree_root::{find_worktree_root, git_marker_paths};

type Resolved = Result<(FsPath, Vec<AgentPane>), ResolveFailure<String>>;

fn path(text: &str) -> FsPath {
    FsPath::from_text(text)
}

fn agent_at(directory: &str, pane_id: &str) -> AgentPane {
    AgentPane {
        session: "test".to_string(),
        window_name: "wm-feature".to_string(),
        pane_id: pane_id.to_string(),
        path: path(directory),
    }
}

/// Git checkouts, each with the name of its repository, and what git says of the
/// working directory.
struct World {
    checkouts: Vec<(String, String)>,
    in_repository: Result<bool, String>,
    worktrees: Result<Vec<(String, String)>, String>,
    aliases: Vec<(String, String)>,
    project_lookups: Vec<String>,
}

fn outside_of_repositories() -> World {
    World {
        checkouts: vec![],
        in_repository: Ok(false),
        worktrees: Ok(vec![]),
        aliases: vec![],
        project_lookups: vec![],
    }
}

impl World {
    /// A repository with a linked worktree, and an agent in a directory of it.
    fn linked_worktree(&mut self, repository: &str, root: &str) -> AgentPane {
        let name = repository.rsplit('/').next().unwrap().to_string();
        self.checkouts.push((repository.to_string(), name.clone()));
        self.checkouts.push((root.to_string(), name));
        agent_at(&format!("{root}/src"), "%1")
    }

    fn holds(&self, marker: &FsPath) -> bool {
        let marker = marker.to_text();
        self.checkouts.iter().any(|(root, _)| format!("{root}/.git") == marker)
    }

    fn root_of(&self, directory: &FsPath) -> Option<FsPath> {
        let found: Vec<bool> =
            git_marker_paths(directory).iter().map(|marker| self.holds(marker)).collect();
        find_worktree_root(directory, &found)
    }

    fn repository_of(&self, root: &FsPath) -> Option<String> {
        let root = self.root_of(root)?.to_text();
        self.checkouts.iter().find(|(place, _)| *place == root).map(|(_, name)| name.clone())
    }

    fn canonical(&self, directory: &FsPath) -> FsPath {
        let text = directory.to_text();
        match self.aliases.iter().find(|(alias, _)| *alias == text) {
            Some((_, real)) => path(real),
            None => directory.clone(),
        }
    }

    fn run(&mut self, mut resolution: Resolution<String>) -> Resolved {
        loop {
            resolution = match resolution {
                Resolution::AskRepository(query) => query.answer(self.in_repository.clone()),
                Resolution::AskWorktree(query) => {
                    let name = query.worktree_name().to_string();
                    let answer = self.worktrees.clone().map(|list| {
                        list.iter().find(|(known, _)| *known == name).map(|(_, at)| path(at))
                    });
                    query.answer(answer)
                }
                Resolution::AskCanonical(query) => {
                    let worktree = self.canonical(query.worktree_path());
                    let agents: Vec<FsPath> =
                        query.agent_paths().iter().map(|at| self.canonical(at)).collect();
                    query.answer(&worktree, &agents)
                }
                Resolution::AskRoots(query) => {
                    let roots: Vec<Option<FsPath>> =
                        query.agent_paths().iter().map(|at| self.root_of(at)).collect();
                    query.answer(&roots)
                }
                Resolution::AskProjects(query) => {
                    let roots = query.worktree_roots();
                    for root in &roots {
                        self.project_lookups.push(root.to_text());
                    }
                    let names: Vec<Option<String>> =
                        roots.iter().map(|root| self.repository_of(root)).collect();
                    query.answer(&names)
                }
                Resolution::Done(result) => return result,
            };
        }
    }

    fn resolve(&mut self, name: &str, panes: &[AgentPane]) -> Resolved {
        let resolution = resolve_worktree_agents_from_snapshot(name, panes.to_vec());
        self.run(resolution)
    }

    fn resolve_globally(
        &self,
        panes: &[AgentPane],
        handle: &str,
        project: Option<&str>,
    ) -> Result<(FsPath, Vec<AgentPane>), ResolveError> {
        let roots: Vec<Option<FsPath>> = panes.iter().map(|pane| self.root_of(&pane.path)).collect();
        let groups = group_agents(panes, &roots, handle);
        let projects: Vec<AgentProject> = groups
            .iter()
            .map(|group| AgentProject::for_worktree(&group.root, self.repository_of(&group.root)))
            .collect();
        resolve_global_agents(groups, &projects, handle, project)
    }
}

fn ids(panes: &[AgentPane]) -> Vec<String> {
    panes.iter().map(|pane| pane.pane_id.clone()).collect()
}

/// Everything that the panes hold.
fn fields(panes: &[AgentPane]) -> Vec<(String, String, String, Vec<u8>)> {
    panes
        .iter()
        .map(|pane| {
            (
                pane.session.clone(),
                pane.window_name.clone(),
                pane.pane_id.clone(),
                pane.path.as_bytes().to_vec(),
            )
        })
        .collect()
}

fn resolved_root(result: Resolved) -> String {
    match result {
        Ok((root, _)) => root.to_text(),
        Err(failure) => panic!("{}", failure_text(failure)),
    }
}

fn failure_text(failure: ResolveFailure<String>) -> String {
    match failure {
        ResolveFailure::Lookup(error) => error,
        ResolveFailure::Unresolved(error) => error.message(),
    }
}

fn error_text(result: Resolved) -> String {
    match result {
        Ok((root, _)) => panic!("resolved to {}", root.to_text()),
        Err(failure) => failure_text(failure),
    }
}

#[test]
fn qualified_selectors_use_git_project_identity_across_layouts() {
    for layout in ["quiver__worktrees", "quiver/.worktrees", "custom", "quiver"] {
        let mut world = outside_of_repositories();
        let repository = "/tmp/base/quiver";
        let root = format!("/tmp/base/{layout}/feature");
        let agent = world.linked_worktree(repository, &root);
        let panes = [agent.clone(), agent_at(&root, "%2")];
        let (resolved, matched) = world.resolve("quiver:feature", &panes).ok().unwrap();
        assert_eq!(resolved.to_text(), root);
        assert_eq!(fields(&matched), fields(&panes));

        let project = AgentProject::for_worktree(&path(&root), world.repository_of(&path(&root)));
        assert_eq!(project.selector("feature").as_deref(), Some("quiver:feature"));
        assert_eq!(world.repository_of(&agent.path).as_deref(), Some("quiver"));
        let parent = path(&root).parent().unwrap();
        let alias = format!(
            "{}:feature",
            String::from_utf8_lossy(&parent.file_name().unwrap())
        );
        assert_eq!(resolved_root(world.resolve(&alias, &panes)), root);
        assert_eq!(
            world.resolve_globally(&panes, "feature", None).ok().unwrap().0.to_text(),
            root
        );
        assert_eq!(
            error_text(world.resolve("wrong:feature", &panes)),
            "No agent found matching 'wrong:feature'"
        );
    }
}

#[test]
fn main_worktree_uses_its_own_project_name() {
    let mut world = outside_of_repositories();
    let repository = "/tmp/base/quiver";
    world.checkouts.push((repository.to_string(), "quiver".to_string()));
    let panes = [agent_at(repository, "%1")];
    assert_eq!(resolved_root(world.resolve("quiver:quiver", &panes)), repository);
}

#[test]
fn ambiguity_suggestions_use_project_names_and_round_trip() {
    let mut world = outside_of_repositories();
    let alpha = "/tmp/base/alpha/.worktrees/feature";
    let beta = "/tmp/base/beta/.worktrees/feature";
    let panes = [
        world.linked_worktree("/tmp/base/alpha", alpha),
        world.linked_worktree("/tmp/base/beta", beta),
    ];
    let error = match world.resolve_globally(&panes, "feature", None) {
        Ok(_) => panic!("resolved"),
        Err(error) => error.message(),
    };
    for (selector, root) in [("alpha:feature", alpha), ("beta:feature", beta)] {
        assert!(error.contains(selector), "{error}");
        assert_eq!(resolved_root(world.resolve(selector, &panes)), root);
    }
    assert!(!error.contains(".worktrees:feature"), "{error}");
    assert!(error_text(world.resolve(".worktrees:feature", &panes)).contains("Ambiguous"));
}

#[test]
fn alias_collision_cannot_silently_select_an_agent() {
    let mut world = outside_of_repositories();
    let panes = [
        world.linked_worktree("/tmp/base/alpha", "/tmp/base/beta/feature"),
        world.linked_worktree("/tmp/base/other/beta", "/tmp/base/other/trees/feature"),
    ];
    let error = error_text(world.resolve("beta:feature", &panes));
    assert!(error.contains("Ambiguous agent name 'beta:feature'"), "{error}");
    assert!(error.contains("alpha:feature"), "{error}");
}

#[test]
fn duplicate_project_names_report_distinct_paths() {
    let mut world = outside_of_repositories();
    let roots = ["/tmp/base/one/trees/feature", "/tmp/base/two/trees/feature"];
    let panes = [
        world.linked_worktree("/tmp/base/one/quiver", roots[0]),
        world.linked_worktree("/tmp/base/two/quiver", roots[1]),
    ];
    let error = error_text(world.resolve("quiver:feature", &panes));
    assert!(error.contains("Ambiguous"), "{error}");
    for root in roots {
        assert!(error.contains(&format!("quiver:feature ({root})")), "{error}");
    }
    assert!(error.contains("run from the intended repository"), "{error}");
}

#[test]
fn git_identity_failure_preserves_parent_alias() {
    let mut world = outside_of_repositories();
    let root = "/tmp/base/custom/feature";
    let panes = [agent_at(root, "%1")];
    assert_eq!(world.repository_of(&path(root)), None);
    assert_eq!(
        AgentProject::for_worktree(&path(root), None).selector("feature").as_deref(),
        Some("custom:feature")
    );
    assert_eq!(resolved_root(world.resolve("custom:feature", &panes)), root);
}

#[test]
fn bare_repository_identity_matches_status() {
    let mut world = outside_of_repositories();
    world.linked_worktree("/tmp/base/source", "/tmp/base/trees/feature");
    let linked = "/tmp/base/bare-trees/feature";
    world.checkouts.push((linked.to_string(), ".bare".to_string()));
    let panes = [agent_at(linked, "%1")];
    assert_eq!(world.repository_of(&path(linked)).as_deref(), Some(".bare"));
    assert_eq!(resolved_root(world.resolve(".bare:feature", &panes)), linked);
}

#[test]
fn ambiguity_message_lists_the_options_in_order() {
    let mut world = outside_of_repositories();
    let panes = [
        world.linked_worktree("/w/zeta", "/w/zeta__worktrees/feature"),
        world.linked_worktree("/w/alpha", "/w/alpha__worktrees/feature"),
        agent_at("/feature", "%3"),
    ];
    assert_eq!(
        error_text(world.resolve("feature", &panes)),
        "Ambiguous agent name 'feature'. Found in multiple worktrees:\n  \
         alpha:feature (/w/alpha__worktrees/feature)\n  \
         feature (/feature)\n  \
         zeta:feature (/w/zeta__worktrees/feature)\n\n\
         Use a unique 'project:handle' selector or run from the intended repository with a plain handle."
    );
}

#[test]
fn options_do_not_depend_on_the_order_of_the_agents() {
    let mut world = outside_of_repositories();
    let one = world.linked_worktree("/w/zeta", "/w/zeta__worktrees/feature");
    let two = world.linked_worktree("/w/alpha", "/w/alpha__worktrees/feature");
    let forwards = error_text(world.resolve("feature", &[one.clone(), two.clone()]));
    let backwards = error_text(world.resolve("feature", &[two, one]));
    assert_eq!(forwards, backwards);
}

#[test]
fn resolutions_do_not_depend_on_the_order_of_the_agents() {
    let mut world = outside_of_repositories();
    world.worktrees = Ok(vec![("local".to_string(), "/w/trees".to_string())]);
    let one = world.linked_worktree("/w/quiver", "/w/trees/feature");
    let two = agent_at("/w/trees/feature", "%2");
    let other = world.linked_worktree("/w/arrow", "/w/arrow__worktrees/feature");
    let forwards = [one.clone(), other.clone(), two.clone()];
    let backwards = [two.clone(), other.clone(), one.clone()];
    for in_repository in [false, true] {
        world.in_repository = Ok(in_repository);
        for name in ["quiver:feature", "arrow:feature", "local", "feature", "wrong:feature"] {
            match (world.resolve(name, &forwards), world.resolve(name, &backwards)) {
                (Ok((root, panes)), Ok((same_root, same_panes))) => {
                    assert_eq!(root.as_bytes(), same_root.as_bytes());
                    let (mut panes, mut same_panes) = (fields(&panes), fields(&same_panes));
                    panes.sort();
                    same_panes.sort();
                    assert_eq!(panes, same_panes);
                }
                (Err(failure), Err(same_failure)) => {
                    assert_eq!(failure_text(failure), failure_text(same_failure));
                }
                _ => panic!("{name} depends on the order"),
            }
        }
    }
    world.in_repository = Ok(false);
    let (_, panes) = world.resolve("quiver:feature", &forwards).ok().unwrap();
    assert_eq!(fields(&panes), fields(&[one.clone(), two.clone()]));
    let (_, panes) = world.resolve("quiver:feature", &backwards).ok().unwrap();
    assert_eq!(fields(&panes), fields(&[two, one]));
}

#[test]
fn a_unique_plain_handle_needs_no_project() {
    let mut world = outside_of_repositories();
    let panes = [
        world.linked_worktree("/w/quiver", "/w/trees/feature"),
        agent_at("/w/trees/feature", "%2"),
    ];
    assert_eq!(resolved_root(world.resolve("feature", &panes)), "/w/trees/feature");
    assert_eq!(world.project_lookups.len(), 0);
    assert_eq!(resolved_root(world.resolve("quiver:feature", &panes)), "/w/trees/feature");
    assert_eq!(world.project_lookups, ["/w/trees/feature"]);
}

#[test]
fn a_missing_handle_is_reported_as_it_was_written() {
    let mut world = outside_of_repositories();
    assert_eq!(
        error_text(world.resolve("feature", &[])),
        "No agent found matching 'feature'"
    );
    assert_eq!(
        error_text(world.resolve("quiver:feature", &[])),
        "No agent found matching 'quiver:feature'"
    );
}

#[test]
fn agents_outside_of_repositories_count_under_their_own_path() {
    let mut world = outside_of_repositories();
    let panes = [agent_at("/work/feature", "%1"), agent_at("/work/feature/src", "%2")];
    let (root, matched) = world.resolve("feature", &panes).ok().unwrap();
    assert_eq!(root.to_text(), "/work/feature");
    assert_eq!(ids(&matched), ["%1"]);
}

#[test]
fn paths_that_differ_only_in_separators_make_one_group() {
    let panes = [agent_at("/work/feature", "%1"), agent_at("/work//feature/", "%2")];
    let groups = group_agents(&panes, &[None, None], "feature");
    assert_eq!(groups.len(), 1);
    assert_eq!(groups[0].root.to_text(), "/work/feature");
    assert_eq!(ids(&groups[0].panes), ["%1", "%2"]);
}

#[test]
fn undecodable_directory_names_are_matched_as_they_print() {
    let pane = AgentPane { path: FsPath::new(b"/work/wt-\xff".to_vec()), ..agent_at("/", "%1") };
    let groups = group_agents(&[pane], &[None], "wt-\u{fffd}");
    assert_eq!(groups.len(), 1);
    assert_eq!(groups[0].root.as_bytes(), b"/work/wt-\xff");
    assert_eq!(groups[0].root.to_text(), "/work/wt-\u{fffd}");
}

#[test]
fn plain_names_are_tried_locally_first() {
    let mut world = outside_of_repositories();
    world.in_repository = Ok(true);
    world.worktrees = Ok(vec![("feature".to_string(), "/link/feature".to_string())]);
    world.aliases = vec![
        ("/link/feature".to_string(), "/real/feature".to_string()),
        ("/other/alias".to_string(), "/real/feature/deep".to_string()),
    ];
    let panes = [
        agent_at("/real/feature", "%1"),
        agent_at("/real/feature/src", "%2"),
        agent_at("/real/feature-two", "%3"),
        agent_at("/other/alias", "%4"),
        agent_at("/elsewhere/feature", "%5"),
    ];
    let (root, matched) = world.resolve("feature", &panes).ok().unwrap();
    assert_eq!(root.to_text(), "/link/feature");
    assert_eq!(ids(&matched), ["%1", "%2", "%4"]);
}

#[test]
fn a_local_worktree_may_have_no_agent() {
    let mut world = outside_of_repositories();
    world.in_repository = Ok(true);
    world.worktrees = Ok(vec![("feature".to_string(), "/real/feature".to_string())]);
    let resolved = world.resolve("feature", &[agent_at("/elsewhere/feature", "%1")]);
    let agent = resolve_worktree_agent("feature", resolved);
    assert_eq!(
        agent.err().map(failure_text).as_deref(),
        Some("No agent running in worktree 'feature'")
    );
}

#[test]
fn unknown_local_names_are_searched_for_globally() {
    let mut world = outside_of_repositories();
    world.in_repository = Ok(true);
    let panes = [world.linked_worktree("/w/quiver", "/w/trees/feature")];
    assert_eq!(resolved_root(world.resolve("feature", &panes)), "/w/trees/feature");
}

#[test]
fn failed_lookups_end_the_resolution() {
    let mut world = outside_of_repositories();
    let panes = [world.linked_worktree("/w/quiver", "/w/trees/feature")];
    world.in_repository = Err("no git".to_string());
    assert_eq!(error_text(world.resolve("feature", &panes)), "no git");
    assert_eq!(resolved_root(world.resolve("quiver:feature", &panes)), "/w/trees/feature");
    world.in_repository = Ok(true);
    world.worktrees = Err("broken worktree list".to_string());
    assert_eq!(error_text(world.resolve("feature", &panes)), "broken worktree list");
    let unloaded: Resolution<String> =
        resolve_worktree_agents("feature", Err("no state".to_string()));
    assert_eq!(error_text(world.run(unloaded)), "no state");
}

#[test]
fn the_first_agent_is_the_primary_one() {
    let mut world = outside_of_repositories();
    let panes = vec![agent_at("/w/feature", "%7"), agent_at("/w/feature", "%8")];
    let resolution = resolve_worktree_agents("feature", Ok(panes));
    let (root, agent) = resolve_worktree_agent("feature", world.run(resolution)).ok().unwrap();
    assert_eq!(root.to_text(), "/w/feature");
    assert_eq!(agent.pane_id, "%7");
    let missing = world.resolve("other", &[]);
    assert_eq!(
        resolve_worktree_agent("other", missing).err().map(failure_text).as_deref(),
        Some("No agent found matching 'other'")
    );
}

#[test]
fn agents_are_matched_to_a_worktree_by_whole_components() {
    let agents = [
        agent_at("/w/feature", "%1"),
        agent_at("/w/feature/src", "%2"),
        agent_at("/w/feature2", "%3"),
        agent_at("/w", "%4"),
    ];
    let canonical: Vec<FsPath> = agents.iter().map(|agent| agent.path.clone()).collect();
    let matched = match_agents_to_worktree(&agents, &canonical, &path("/w/./feature/"));
    let matched: Vec<&str> = matched.iter().map(|agent| agent.pane_id.as_str()).collect();
    assert_eq!(matched, ["%1", "%2"]);
}

fn parsed(name: &str) -> (Option<String>, String) {
    match AgentSelector::parse(name) {
        AgentSelector::Local(name) => (None, name),
        AgentSelector::Qualified { project, handle } => (Some(project), handle),
    }
}

#[test]
fn selectors_are_split_at_the_first_colon() {
    assert_eq!(parsed("feature"), (None, "feature".to_string()));
    assert_eq!(parsed(""), (None, String::new()));
    assert_eq!(parsed(":feature"), (None, ":feature".to_string()));
    assert_eq!(parsed("quiver:"), (None, "quiver:".to_string()));
    assert_eq!(parsed(":"), (None, ":".to_string()));
    assert_eq!(parsed("quiver:feature"), (Some("quiver".to_string()), "feature".to_string()));
    assert_eq!(parsed("a:b:c"), (Some("a".to_string()), "b:c".to_string()));
    assert_eq!(parsed("köcher:ü"), (Some("köcher".to_string()), "ü".to_string()));
}

#[test]
fn written_selectors_are_read_back() {
    let written = format_selector("feature", Some("quiver"));
    assert_eq!(written, "quiver:feature");
    assert_eq!(parsed(&written), (Some("quiver".to_string()), "feature".to_string()));
    assert_eq!(format_selector("feature", None), "feature");
}

#[test]
fn projects_match_by_repository_and_by_directory() {
    let project = AgentProject::for_worktree(&path("/w/trees/feature"), Some("quiver".to_string()));
    assert!(project.matches("quiver"));
    assert!(project.matches("trees"));
    assert!(!project.matches("feature"));
    assert!(!project.matches(""));
    assert_eq!(project.selector("feature").as_deref(), Some("quiver:feature"));
    let orphan = AgentProject::for_worktree(&path("/feature"), None);
    assert!(!orphan.matches("feature"));
    assert_eq!(orphan.selector("feature"), None);
}

#[test]
fn the_nearest_marker_decides_the_worktree_root() {
    let at = path("/a/b/c");
    let markers: Vec<String> = git_marker_paths(&at).iter().map(|m| m.to_text()).collect();
    assert_eq!(markers, ["/a/b/c/.git", "/a/b/.git", "/a/.git", "/.git"]);
    let root = |found: &[bool]| find_worktree_root(&at, found).map(|root| root.to_text());
    assert_eq!(root(&[true, false, true]).as_deref(), Some("/a/b/c"));
    assert_eq!(root(&[false, true, true, true]).as_deref(), Some("/a/b"));
    assert_eq!(root(&[false, false, false, true]).as_deref(), Some("/"));
    assert_eq!(root(&[false, false, false, false]), None);
    assert_eq!(root(&[]), None);
}

#[test]
fn relative_paths_end_at_the_empty_path() {
    let markers: Vec<String> =
        git_marker_paths(&path("a/b")).iter().map(|marker| marker.to_text()).collect();
    assert_eq!(markers, ["a/b/.git", "a/.git", ".git"]);
    assert_eq!(
        find_worktree_root(&path("a/b"), &[false, false, true]).map(|root| root.to_text()),
        Some(String::new())
    );
}
