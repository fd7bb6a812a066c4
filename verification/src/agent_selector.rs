//! Agent targets as they are written, and the projects that qualify them.

use crate::fs_path;
use crate::fs_path::FsPath;
use crate::text;
use vstd::prelude::*;

verus! {

broadcast use vstd::string::group_string_axioms;

/// A parsed agent target.
pub enum AgentSelector {
    /// A plain name, resolved locally first and then globally.
    Local(String),
    /// A `project:handle` name, for another project.
    Qualified { project: String, handle: String },
}

/// What a selector holds.
pub enum SelectorView {
    Local(Seq<char>),
    Qualified { project: Seq<char>, handle: Seq<char> },
}

impl View for AgentSelector {
    type V = SelectorView;

    open spec fn view(&self) -> SelectorView {
        match self {
            AgentSelector::Local(name) => SelectorView::Local(name@),
            AgentSelector::Qualified { project, handle } => SelectorView::Qualified {
                project: project@,
                handle: handle@,
            },
        }
    }
}

/// How a name is read: split at its first colon when both sides have text,
/// and taken whole otherwise.
pub open spec fn parse_selector(name: Seq<char>) -> SelectorView {
    let colon = text::first_index(name, ':');
    if 0 < colon < name.len() - 1 {
        SelectorView::Qualified { project: name.take(colon), handle: name.skip(colon + 1) }
    } else {
        SelectorView::Local(name)
    }
}

/// How a handle is written, with its project if there is one.
pub open spec fn selector_text(handle: Seq<char>, project: Option<Seq<char>>) -> Seq<char> {
    match project {
        Some(project) => project + seq![':'] + handle,
        None => handle,
    }
}

impl AgentSelector {
    /// Read a target: `project:handle`, or a plain name. A branch name holds no
    /// colon, so the two cannot be confused.
    pub fn parse(s: &str) -> (selector: AgentSelector)
        ensures
            selector@ == parse_selector(s@),
    {
        let length = s.unicode_len();
        let colon = text::find_char(s, ':');
        if 0 < colon && colon < length && colon + 1 < length {
            let project = s.substring_char(0, colon);
            let handle = s.substring_char(colon + 1, length);
            assert(project@ =~= s@.take(colon as int));
            assert(handle@ =~= s@.skip(colon + 1));
            AgentSelector::Qualified { project: project.to_owned(), handle: handle.to_owned() }
        } else {
            AgentSelector::Local(s.to_owned())
        }
    }
}

/// Write a handle with its project, if there is one.
pub fn format_selector(handle: &str, project: Option<&str>) -> (s: String)
    ensures
        s@ == selector_text(
            handle@,
            match project {
                Some(project) => Some(project@),
                None => None,
            },
        ),
{
    match project {
        Some(project) => {
            proof {
                reveal_strlit(":");
                assert(":"@ =~= seq![':']);
            }
            let mut s = project.to_owned();
            s.append(":");
            s.append(handle);
            s
        },
        None => handle.to_owned(),
    }
}

/// A qualified selector is read back as it was written, if the project is not
/// empty and holds no colon and the handle is not empty.
pub proof fn lemma_qualified_selector_reads_back(project: Seq<char>, handle: Seq<char>)
    requires
        project.len() > 0,
        handle.len() > 0,
        !project.contains(':'),
    ensures
        parse_selector(selector_text(handle, Some(project))) == (SelectorView::Qualified {
            project,
            handle,
        }),
{
    let written = selector_text(handle, Some(project));
    let colon = project.len() as int;
    assert forall|j: int| 0 <= j < colon implies written[j] != ':' by {
        assert(written[j] == project[j]);
        assert(project.contains(project[j]));
    }
    text::lemma_first_index_unique(written, ':', colon);
    assert(written.take(colon) =~= project);
    assert(written.skip(colon + 1) =~= handle);
}

/// A plain handle without a colon is read back as it was written.
pub proof fn lemma_plain_selector_reads_back(handle: Seq<char>)
    requires
        !handle.contains(':'),
    ensures
        parse_selector(selector_text(handle, None)) == SelectorView::Local(handle),
{
    text::lemma_first_index(handle, ':');
    let colon = text::first_index(handle, ':');
    if colon < handle.len() {
        assert(handle.contains(handle[colon]));
    }
}

/// The names by which the project of a worktree can be qualified.
pub struct AgentProject {
    name: Option<String>,
    parent_name: Option<String>,
}

/// What an agent project holds.
pub struct ProjectView {
    pub name: Option<Seq<char>>,
    pub parent_name: Option<Seq<char>>,
}

impl View for AgentProject {
    type V = ProjectView;

    closed spec fn view(&self) -> ProjectView {
        ProjectView {
            name: text::text_option(self.name),
            parent_name: text::text_option(self.parent_name),
        }
    }
}

/// The name of the directory that holds a worktree.
pub open spec fn parent_directory_name(root: Seq<u8>) -> Option<Seq<char>> {
    match fs_path::parent(root) {
        Some(up) => match fs_path::file_name(up) {
            Some(name) => Some(fs_path::utf8_lossy(name)),
            None => None,
        },
        None => None,
    }
}

/// The qualifiers of a worktree in a repository of the given name.
pub open spec fn project_for(root: Seq<u8>, repository: Option<Seq<char>>) -> ProjectView {
    ProjectView { name: repository, parent_name: parent_directory_name(root) }
}

impl ProjectView {
    /// Whether a qualifier names this project: by its repository or by the
    /// directory above the worktree, both alike.
    pub open spec fn matches(self, qualifier: Seq<char>) -> bool {
        self.name == Some(qualifier) || self.parent_name == Some(qualifier)
    }

    /// The name by which the project is suggested: that of the repository, or
    /// else that of the directory above the worktree.
    pub open spec fn preferred_name(self) -> Option<Seq<char>> {
        match self.name {
            Some(name) => Some(name),
            None => self.parent_name,
        }
    }

    /// The selector of a handle in this project.
    pub open spec fn selector(self, handle: Seq<char>) -> Option<Seq<char>> {
        match self.preferred_name() {
            Some(name) => Some(selector_text(handle, Some(name))),
            None => None,
        }
    }
}

/// Whether an optional string is the given text.
fn option_is(option: &Option<String>, wanted: &str) -> (same: bool)
    ensures
        same == (text::text_option(*option) == Some(wanted@)),
{
    match option {
        Some(s) => text::same_text(s.as_str(), wanted),
        None => false,
    }
}

impl AgentProject {
    /// The qualifiers of a worktree, given the name of its repository where git
    /// knows one.
    pub fn for_worktree(root: &FsPath, repository: Option<String>) -> (project: AgentProject)
        ensures
            project@ == project_for(root@, text::text_option(repository)),
    {
        let parent_name = match root.parent() {
            Some(up) => match up.file_name() {
                Some(name) => Some(fs_path::lossy_text(name.as_slice())),
                None => None,
            },
            None => None,
        };
        AgentProject { name: repository, parent_name }
    }

    /// Whether a qualifier names this project. Directory names count as much as
    /// repository names, so that a collision cannot silently redirect a command
    /// to a different agent.
    pub fn matches(&self, qualifier: &str) -> (matched: bool)
        ensures
            matched == self@.matches(qualifier@),
    {
        option_is(&self.name, qualifier) || option_is(&self.parent_name, qualifier)
    }

    /// The selector of a handle in this project: by the name of the repository,
    /// or by that of the directory above where git knows none.
    pub fn selector(&self, handle: &str) -> (selector: Option<String>)
        ensures
            text::text_option(selector) == self@.selector(handle@),
    {
        match &self.name {
            Some(name) => Some(format_selector(handle, Some(name.as_str()))),
            None => match &self.parent_name {
                Some(name) => Some(format_selector(handle, Some(name.as_str()))),
                None => None,
            },
        }
    }
}

/// A suggested selector leads back to its project: it is read as a qualified
/// selector whose qualifier the project matches.
pub proof fn lemma_suggested_selector_matches(project: ProjectView, handle: Seq<char>)
    requires
        project.preferred_name() matches Some(name) && name.len() > 0 && !name.contains(':'),
        handle.len() > 0,
    ensures
        parse_selector(project.selector(handle)->0) matches SelectorView::Qualified {
            project: qualifier,
            handle: read,
        } && project.matches(qualifier) && read == handle,
{
    lemma_qualified_selector_reads_back(project.preferred_name()->0, handle);
}

/// A name is qualified exactly if it can be written as a project without a colon, a
/// colon and a handle, neither of them empty; then these are its parts. Any other
/// name is taken whole.
pub proof fn lemma_names_are_split_at_their_first_colon(name: Seq<char>)
    ensures
        match parse_selector(name) {
            SelectorView::Qualified { project, handle } => name == project + seq![':'] + handle
                && project.len() > 0 && handle.len() > 0 && !project.contains(':'),
            SelectorView::Local(whole) => whole == name && (forall|
                project: Seq<char>,
                handle: Seq<char>,
            |
                project.len() > 0 && handle.len() > 0 && !project.contains(':') ==> name !=
                    #[trigger] (project + seq![':'] + handle)),
        },
{
    let colon = text::first_index(name, ':');
    text::lemma_first_index(name, ':');
    match parse_selector(name) {
        SelectorView::Qualified { project, handle } => {
            assert(name =~= project + seq![':'] + handle);
            if project.contains(':') {
                let k = choose|k: int| 0 <= k < project.len() && project[k] == ':';
                assert(name[k] == ':');
            }
        },
        SelectorView::Local(whole) => {
            assert forall|project: Seq<char>, handle: Seq<char>|
                project.len() > 0 && handle.len() > 0 && !project.contains(':') implies name !=
            #[trigger] (project + seq![':'] + handle) by {
                if name == project + seq![':'] + handle {
                    lemma_qualified_selector_reads_back(project, handle);
                }
            }
        },
    }
}

/// A selector is written as the project, a colon and the handle, or as the handle
/// alone.
pub proof fn lemma_selectors_are_written_with_a_colon(handle: Seq<char>, project: Seq<char>)
    ensures
        selector_text(handle, None) == handle,
        selector_text(handle, Some(project)).len() == project.len() + 1 + handle.len(),
        selector_text(handle, Some(project)).take(project.len() as int) == project,
        selector_text(handle, Some(project))[project.len() as int] == ':',
        selector_text(handle, Some(project)).skip(project.len() as int + 1) == handle,
{
    let written = selector_text(handle, Some(project));
    assert(written.take(project.len() as int) =~= project);
    assert(written.skip(project.len() as int + 1) =~= handle);
}

/// A qualifier matches a project only if it is the whole name of the repository, or
/// the whole name of the directory above the worktree; and each of these does match.
pub proof fn lemma_only_whole_names_match(project: ProjectView, qualifier: Seq<char>)
    ensures
        project.name != Some(qualifier) && project.parent_name != Some(qualifier)
            ==> !project.matches(qualifier),
        project.name == Some(qualifier) ==> project.matches(qualifier),
        project.parent_name == Some(qualifier) ==> project.matches(qualifier),
{
}

/// The qualifiers of a worktree are the name of its repository, and the name that is
/// the last component but one of its root.
pub proof fn lemma_qualifiers_of_a_worktree(root: Seq<u8>, repository: Option<Seq<char>>)
    ensures
        project_for(root, repository).name == repository,
        ({
            let parts = fs_path::components(root);
            project_for(root, repository).parent_name == (if parts.len() >= 2 {
                match parts[parts.len() - 2] {
                    fs_path::Component::Name(name) => Some(fs_path::utf8_lossy(name)),
                    _ => None,
                }
            } else {
                None
            })
        }),
{
    let parts = fs_path::components(root);
    fs_path::lemma_parent_is_the_path_without_its_last_component(root);
    if let Some(up) = fs_path::parent(root) {
        assert(fs_path::components(up) == parts.take(parts.len() - 1));
    }
}

/// A project is suggested by the name of its repository, or else by that of the
/// directory above the worktree; without either there is no suggestion.
pub proof fn lemma_suggestions_prefer_the_repository(project: ProjectView, handle: Seq<char>)
    ensures
        project.name matches Some(name) ==> project.selector(handle) == Some(
            name + seq![':'] + handle,
        ),
        project.name is None && project.parent_name is Some ==> project.selector(handle) == Some(
            project.parent_name->0 + seq![':'] + handle,
        ),
        project.selector(handle) is None <==> project.name is None && project.parent_name is None,
{
}

} // verus!
