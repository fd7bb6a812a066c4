//! Changing the layout of a tmux window around its sidebar.
//!
//! The sidebar pane is moved out of the window, the layout is applied to what
//! remains, and the sidebar is put back. A change of layout asks for one step at
//! a time and is told what came of it.

use crate::text;
use vstd::prelude::*;

verus! {

broadcast use vstd::string::group_string_axioms;

/// Where the sidebar stands in its window.
#[derive(Clone, Copy, PartialEq, Eq, Structural, Debug)]
pub enum SidebarPosition {
    Left,
    Top,
}

/// Add an argument to a command.
fn push_argument(list: &mut Vec<String>, argument: &str)
    ensures
        text::texts(final(list)@) == text::texts(old(list)@).push(argument@),
{
    let ghost before = text::texts(list@);
    list.push(argument.to_owned());
    assert(text::texts(list@) =~= before.push(argument@));
}

/// The command that tells the identifier of a window: the target's, or that of
/// the current window.
pub open spec fn window_id_command(target: Option<Seq<char>>) -> Seq<Seq<char>> {
    match target {
        Some(target) => seq!["display-message"@, "-t"@, target, "-p"@, "#{window_id}"@],
        None => seq!["display-message"@, "-p"@, "#{window_id}"@],
    }
}

/// The command that lists the panes of a window.
pub open spec fn list_panes_command(window: Seq<char>) -> Seq<Seq<char>> {
    seq!["list-panes"@, "-t"@, window, "-F"@, "#{pane_id}"@]
}

/// The command that applies a layout: the next one, the previous one, or the one
/// of that name.
pub open spec fn select_layout_command(window: Seq<char>, layout: Seq<char>) -> Seq<Seq<char>> {
    if layout == "next"@ {
        seq!["select-layout"@, "-n"@, "-t"@, window]
    } else if layout == "previous"@ {
        seq!["select-layout"@, "-p"@, "-t"@, window]
    } else {
        seq!["select-layout"@, "-t"@, window, layout]
    }
}

/// The command that moves the sidebar to a window of its own.
pub open spec fn break_pane_command(sidebar: Seq<char>) -> Seq<Seq<char>> {
    seq!["break-pane"@, "-d"@, "-P"@, "-F"@, "#{window_id}"@, "-s"@, sidebar]
}

/// The command that puts the sidebar back: left of, or above, the whole window.
pub open spec fn join_pane_command(
    content: Seq<char>,
    sidebar: Seq<char>,
    position: SidebarPosition,
    size: nat,
) -> Seq<Seq<char>> {
    seq![
        "join-pane"@,
        match position {
            SidebarPosition::Left => "-hbf"@,
            SidebarPosition::Top => "-vbf"@,
        },
        "-d"@,
        "-l"@,
        text::decimal(size),
        "-s"@,
        sidebar,
        "-t"@,
        content,
    ]
}

/// The arguments that ask for the identifier of a window.
pub fn window_id_arguments(target: Option<&str>) -> (list: Vec<String>)
    ensures
        text::texts(list@) == window_id_command(
            match target {
                Some(target) => Some(target@),
                None => None,
            },
        ),
{
    let mut list: Vec<String> = Vec::new();
    push_argument(&mut list, "display-message");
    if let Some(target) = target {
        push_argument(&mut list, "-t");
        push_argument(&mut list, target);
    }
    push_argument(&mut list, "-p");
    push_argument(&mut list, "#{window_id}");
    assert(text::texts(list@) =~= window_id_command(
        match target {
            Some(target) => Some(target@),
            None => None,
        },
    ));
    list
}

/// The identifier of a window from what tmux wrote; `None` if it wrote nothing.
pub fn canonical_window_id(output: String) -> (window_id: Option<String>)
    ensures
        window_id == (if output@.len() == 0 {
            None
        } else {
            Some(output)
        }),
{
    if output.as_str().is_empty() {
        None
    } else {
        Some(output)
    }
}

/// The first pane of a window other than the sidebar, from the list that tmux
/// wrote.
pub open spec fn content_pane(panes: Seq<char>, sidebar: Seq<char>) -> Option<Seq<char>> {
    text::first_other(text::lines(panes), sidebar)
}

/// The first pane of a window other than the sidebar; `None` if the sidebar is
/// alone.
pub fn content_pane_id(panes: &str, sidebar_pane_id: &str) -> (pane: Option<String>)
    ensures
        text::text_option(pane) == content_pane(panes@, sidebar_pane_id@),
{
    text::first_other_line(panes, sidebar_pane_id)
}

/// The arguments that list the panes of a window.
fn list_panes(window_id: &str) -> (list: Vec<String>)
    ensures
        text::texts(list@) == list_panes_command(window_id@),
{
    let mut list: Vec<String> = Vec::new();
    push_argument(&mut list, "list-panes");
    push_argument(&mut list, "-t");
    push_argument(&mut list, window_id);
    push_argument(&mut list, "-F");
    push_argument(&mut list, "#{pane_id}");
    assert(text::texts(list@) =~= list_panes_command(window_id@));
    list
}

/// The arguments that apply a layout.
pub fn select_layout(window_id: &str, layout: &str) -> (list: Vec<String>)
    ensures
        text::texts(list@) == select_layout_command(window_id@, layout@),
{
    let mut list: Vec<String> = Vec::new();
    push_argument(&mut list, "select-layout");
    if text::same_text(layout, "next") {
        push_argument(&mut list, "-n");
        push_argument(&mut list, "-t");
        push_argument(&mut list, window_id);
    } else if text::same_text(layout, "previous") {
        push_argument(&mut list, "-p");
        push_argument(&mut list, "-t");
        push_argument(&mut list, window_id);
    } else {
        push_argument(&mut list, "-t");
        push_argument(&mut list, window_id);
        push_argument(&mut list, layout);
    }
    assert(text::texts(list@) =~= select_layout_command(window_id@, layout@));
    list
}

/// The arguments that move the sidebar to a window of its own.
fn break_pane(sidebar_pane_id: &str) -> (list: Vec<String>)
    ensures
        text::texts(list@) == break_pane_command(sidebar_pane_id@),
{
    let mut list: Vec<String> = Vec::new();
    push_argument(&mut list, "break-pane");
    push_argument(&mut list, "-d");
    push_argument(&mut list, "-P");
    push_argument(&mut list, "-F");
    push_argument(&mut list, "#{window_id}");
    push_argument(&mut list, "-s");
    push_argument(&mut list, sidebar_pane_id);
    assert(text::texts(list@) =~= break_pane_command(sidebar_pane_id@));
    list
}

/// The arguments that put the sidebar back.
pub fn join_sidebar(
    content_pane_id: &str,
    sidebar_pane_id: &str,
    position: SidebarPosition,
    size: u16,
) -> (list: Vec<String>)
    ensures
        text::texts(list@) == join_pane_command(
            content_pane_id@,
            sidebar_pane_id@,
            position,
            size as nat,
        ),
{
    let split_flag = match position {
        SidebarPosition::Left => "-hbf",
        SidebarPosition::Top => "-vbf",
    };
    let mut list: Vec<String> = Vec::new();
    push_argument(&mut list, "join-pane");
    push_argument(&mut list, split_flag);
    push_argument(&mut list, "-d");
    push_argument(&mut list, "-l");
    push_argument(&mut list, text::decimal_text(size as u64).as_str());
    push_argument(&mut list, "-s");
    push_argument(&mut list, sidebar_pane_id);
    push_argument(&mut list, "-t");
    push_argument(&mut list, content_pane_id);
    assert(text::texts(list@) =~= join_pane_command(
        content_pane_id@,
        sidebar_pane_id@,
        position,
        size as nat,
    ));
    list
}

/// A sidebar, the window it stands in, and a pane of that window beside it.
pub struct PlacedSidebar {
    pub window_id: String,
    pub sidebar_pane_id: String,
    pub content_pane_id: String,
    pub position: SidebarPosition,
    pub size: u16,
}

/// What a placed sidebar holds.
pub struct PlacedView {
    pub window: Seq<char>,
    pub sidebar: Seq<char>,
    pub content: Seq<char>,
    pub position: SidebarPosition,
    pub size: nat,
}

impl View for PlacedSidebar {
    type V = PlacedView;

    open spec fn view(&self) -> PlacedView {
        PlacedView {
            window: self.window_id@,
            sidebar: self.sidebar_pane_id@,
            content: self.content_pane_id@,
            position: self.position,
            size: self.size as nat,
        }
    }
}

/// Why a layout was not changed.
pub enum LayoutError<E> {
    /// There is no tmux around.
    NotInTmux,
    /// The window is not known to tmux.
    NoWindow,
    /// The window has no pane but the sidebar.
    OnlySidebar,
    /// A step failed.
    Failed(E),
    /// The sidebar was not put back.
    NotRestored(RestoreFailure<E>),
}

/// A sidebar that was left in a temporary window.
pub struct RestoreFailure<E> {
    /// Why the sidebar was not put back.
    pub error: E,
    /// Why the layout was not applied either, if it was not.
    pub layout_error: Option<E>,
    pub window_id: String,
    pub sidebar_pane_id: String,
    pub temporary_window: String,
}

/// What a layout error holds.
pub enum LayoutErrorView<E> {
    NotInTmux,
    NoWindow,
    OnlySidebar,
    Failed(E),
    NotRestored {
        error: E,
        layout_error: Option<E>,
        window: Seq<char>,
        sidebar: Seq<char>,
        temporary: Seq<char>,
    },
}

impl<E> View for LayoutError<E> {
    type V = LayoutErrorView<E>;

    open spec fn view(&self) -> LayoutErrorView<E> {
        match *self {
            LayoutError::NotInTmux => LayoutErrorView::NotInTmux,
            LayoutError::NoWindow => LayoutErrorView::NoWindow,
            LayoutError::OnlySidebar => LayoutErrorView::OnlySidebar,
            LayoutError::Failed(error) => LayoutErrorView::Failed(error),
            LayoutError::NotRestored(failure) => LayoutErrorView::NotRestored {
                error: failure.error,
                layout_error: failure.layout_error,
                window: failure.window_id@,
                sidebar: failure.sidebar_pane_id@,
                temporary: failure.temporary_window@,
            },
        }
    }
}

/// How an error of the layout change itself reads; the steps that fail have
/// messages of their own.
pub open spec fn layout_message<E>(error: LayoutErrorView<E>) -> Option<Seq<char>> {
    match error {
        LayoutErrorView::NotInTmux => Some("Sidebar requires tmux"@),
        LayoutErrorView::NoWindow => Some("could not detect tmux window"@),
        LayoutErrorView::OnlySidebar => Some(
            "cannot change layout in a window with only a sidebar pane"@,
        ),
        _ => None,
    }
}

/// Where a sidebar that was not put back can be found, and that the layout failed
/// as well, if it did.
pub open spec fn restore_context(
    sidebar: Seq<char>,
    temporary: Seq<char>,
    layout_failure: Option<Seq<char>>,
) -> Seq<char> {
    "sidebar pane "@ + sidebar + " remains in temporary window "@ + temporary + (
    match layout_failure {
        Some(message) => "; layout action also failed: "@ + message,
        None => seq![],
    })
}

impl<E> LayoutError<E> {
    /// How an error of the layout change itself reads.
    pub fn message(&self) -> (message: Option<String>)
        ensures
            text::text_option(message) == layout_message(self@),
    {
        match self {
            LayoutError::NotInTmux => Some("Sidebar requires tmux".to_owned()),
            LayoutError::NoWindow => Some("could not detect tmux window".to_owned()),
            LayoutError::OnlySidebar => Some(
                "cannot change layout in a window with only a sidebar pane".to_owned(),
            ),
            _ => None,
        }
    }
}

impl<E> RestoreFailure<E> {
    /// What was being done when the sidebar was not put back.
    pub fn join_context(&self) -> (context: String)
        ensures
            context@ == "failed to restore sidebar to window "@ + self.window_id@,
    {
        let mut context = "failed to restore sidebar to window ".to_owned();
        context.append(self.window_id.as_str());
        context
    }

    /// Where the sidebar can be found, given how the layout error prints, if there
    /// is one.
    pub fn context(&self, layout_failure: Option<&str>) -> (context: String)
        ensures
            context@ == restore_context(
                self.sidebar_pane_id@,
                self.temporary_window@,
                match layout_failure {
                    Some(message) => Some(message@),
                    None => None,
                },
            ),
    {
        let mut context = "sidebar pane ".to_owned();
        context.append(self.sidebar_pane_id.as_str());
        context.append(" remains in temporary window ");
        context.append(self.temporary_window.as_str());
        if let Some(message) = layout_failure {
            let ghost head = context@;
            context.append("; layout action also failed: ");
            context.append(message);
            assert(context@ =~= head + ("; layout action also failed: "@ + message@));
        } else {
            assert(context@ + seq![] =~= context@);
        }
        context
    }
}

/// The step that a layout change waits for.
pub enum LayoutStep<E> {
    /// Run the command and capture what it writes: the window.
    CaptureWindow,
    /// Find the sidebar pane of the window.
    FindSidebar { window_id: String },
    /// Run the command: there is no sidebar, so the layout is applied at once.
    SelectLayout { window_id: String },
    /// Run the command and capture what it writes: the panes.
    ListPanes { window_id: String, sidebar_pane_id: String },
    /// Read the position and size of the sidebar.
    ReadPlacement { window_id: String, sidebar_pane_id: String, content_pane_id: String },
    /// Run the command and capture what it writes: the temporary window.
    BreakPane { sidebar: PlacedSidebar },
    /// Run the command: the layout is applied to the other panes.
    ArrangeContent { sidebar: PlacedSidebar, temporary_window: String },
    /// Run the command: the sidebar is put back.
    JoinPane { sidebar: PlacedSidebar, temporary_window: String, arranged: Result<(), E> },
    /// Let the panes flow around the sidebar.
    Reflow { sidebar: PlacedSidebar, arranged: Result<(), E> },
    /// Nothing is left to do.
    Done(Result<(), LayoutError<E>>),
}

/// What a step holds.
pub enum StepView<E> {
    CaptureWindow,
    FindSidebar { window: Seq<char> },
    SelectLayout { window: Seq<char> },
    ListPanes { window: Seq<char>, sidebar: Seq<char> },
    ReadPlacement { window: Seq<char>, sidebar: Seq<char>, content: Seq<char> },
    BreakPane { placed: PlacedView },
    ArrangeContent { placed: PlacedView, temporary: Seq<char> },
    JoinPane { placed: PlacedView, temporary: Seq<char>, arranged: Result<(), E> },
    Reflow { placed: PlacedView, arranged: Result<(), E> },
    Done(Result<(), LayoutErrorView<E>>),
}

/// What an outcome holds.
pub open spec fn done_view<E>(result: Result<(), LayoutError<E>>) -> Result<
    (),
    LayoutErrorView<E>,
> {
    match result {
        Ok(unit) => Ok(unit),
        Err(error) => Err(error@),
    }
}

impl<E> View for LayoutStep<E> {
    type V = StepView<E>;

    open spec fn view(&self) -> StepView<E> {
        match *self {
            LayoutStep::CaptureWindow => StepView::CaptureWindow,
            LayoutStep::FindSidebar { window_id } => StepView::FindSidebar { window: window_id@ },
            LayoutStep::SelectLayout { window_id } => StepView::SelectLayout { window: window_id@ },
            LayoutStep::ListPanes { window_id, sidebar_pane_id } => StepView::ListPanes {
                window: window_id@,
                sidebar: sidebar_pane_id@,
            },
            LayoutStep::ReadPlacement { window_id, sidebar_pane_id, content_pane_id } =>
                StepView::ReadPlacement {
                window: window_id@,
                sidebar: sidebar_pane_id@,
                content: content_pane_id@,
            },
            LayoutStep::BreakPane { sidebar } => StepView::BreakPane { placed: sidebar@ },
            LayoutStep::ArrangeContent { sidebar, temporary_window } => StepView::ArrangeContent {
                placed: sidebar@,
                temporary: temporary_window@,
            },
            LayoutStep::JoinPane { sidebar, temporary_window, arranged } => StepView::JoinPane {
                placed: sidebar@,
                temporary: temporary_window@,
                arranged,
            },
            LayoutStep::Reflow { sidebar, arranged } => StepView::Reflow {
                placed: sidebar@,
                arranged,
            },
            LayoutStep::Done(result) => StepView::Done(done_view(result)),
        }
    }
}

/// What came of a step.
pub enum LayoutEvent<E> {
    /// A command was run, and this is what it wrote.
    Captured(Result<String, E>),
    /// The sidebar was looked for.
    SidebarFound(Result<Option<String>, E>),
    /// The placement of the sidebar was read.
    Placement(Result<(SidebarPosition, u16), E>),
    /// A command was run.
    Ran(Result<(), E>),
    /// The panes were reflowed.
    Reflowed,
}

/// What an event holds.
pub enum LayoutEventView<E> {
    Captured(Result<Seq<char>, E>),
    SidebarFound(Result<Option<Seq<char>>, E>),
    Placement(Result<(SidebarPosition, nat), E>),
    Ran(Result<(), E>),
    Reflowed,
}

impl<E> View for LayoutEvent<E> {
    type V = LayoutEventView<E>;

    open spec fn view(&self) -> LayoutEventView<E> {
        match *self {
            LayoutEvent::Captured(result) => LayoutEventView::Captured(
                match result {
                    Ok(output) => Ok(output@),
                    Err(error) => Err(error),
                },
            ),
            LayoutEvent::SidebarFound(result) => LayoutEventView::SidebarFound(
                match result {
                    Ok(pane) => Ok(text::text_option(pane)),
                    Err(error) => Err(error),
                },
            ),
            LayoutEvent::Placement(result) => LayoutEventView::Placement(
                match result {
                    Ok((position, size)) => Ok((position, size as nat)),
                    Err(error) => Err(error),
                },
            ),
            LayoutEvent::Ran(result) => LayoutEventView::Ran(result),
            LayoutEvent::Reflowed => LayoutEventView::Reflowed,
        }
    }
}

/// Which events can answer a step.
pub open spec fn answers<E>(event: LayoutEventView<E>, step: StepView<E>) -> bool {
    match step {
        StepView::CaptureWindow => event is Captured,
        StepView::FindSidebar { .. } => event is SidebarFound,
        StepView::SelectLayout { .. } => event is Ran,
        StepView::ListPanes { .. } => event is Captured,
        StepView::ReadPlacement { .. } => event is Placement,
        StepView::BreakPane { .. } => event is Captured,
        StepView::ArrangeContent { .. } => event is Ran,
        StepView::JoinPane { .. } => event is Ran,
        StepView::Reflow { .. } => event is Reflowed,
        StepView::Done(_) => false,
    }
}

/// A change of layout in progress.
pub struct LayoutChange<E> {
    layout: String,
    target: Option<String>,
    step: LayoutStep<E>,
}

/// What a change of layout holds.
pub struct ChangeView<E> {
    pub layout: Seq<char>,
    pub target: Option<Seq<char>>,
    pub step: StepView<E>,
}

impl<E> View for LayoutChange<E> {
    type V = ChangeView<E>;

    closed spec fn view(&self) -> ChangeView<E> {
        ChangeView {
            layout: self.layout@,
            target: text::text_option(self.target),
            step: self.step@,
        }
    }
}

/// How a change of layout begins.
pub open spec fn begin<E>(in_tmux: bool, layout: Seq<char>, target: Option<Seq<char>>) ->
    ChangeView<E> {
    ChangeView {
        layout,
        target,
        step: if in_tmux {
            StepView::CaptureWindow
        } else {
            StepView::Done(Err(LayoutErrorView::NotInTmux))
        },
    }
}

/// The outcome of a layout command.
pub open spec fn layout_outcome<E>(arranged: Result<(), E>) -> Result<(), LayoutErrorView<E>> {
    match arranged {
        Ok(unit) => Ok(unit),
        Err(error) => Err(LayoutErrorView::Failed(error)),
    }
}

/// The step after one that was answered.
pub open spec fn next_step<E>(step: StepView<E>, event: LayoutEventView<E>) -> StepView<E> {
    match (step, event) {
        (StepView::CaptureWindow, LayoutEventView::Captured(Ok(window))) => if window.len() == 0 {
            StepView::Done(Err(LayoutErrorView::NoWindow))
        } else {
            StepView::FindSidebar { window }
        },
        (StepView::FindSidebar { window }, LayoutEventView::SidebarFound(Ok(None))) =>
            StepView::SelectLayout { window },
        (StepView::FindSidebar { window }, LayoutEventView::SidebarFound(Ok(Some(sidebar)))) =>
            StepView::ListPanes { window, sidebar },
        (StepView::SelectLayout { .. }, LayoutEventView::Ran(result)) => StepView::Done(
            layout_outcome(result),
        ),
        (StepView::ListPanes { window, sidebar }, LayoutEventView::Captured(Ok(panes))) =>
            match content_pane(panes, sidebar) {
            Some(content) => StepView::ReadPlacement { window, sidebar, content },
            None => StepView::Done(Err(LayoutErrorView::OnlySidebar)),
        },
        (
            StepView::ReadPlacement { window, sidebar, content },
            LayoutEventView::Placement(Ok((position, size))),
        ) => StepView::BreakPane {
            placed: PlacedView { window, sidebar, content, position, size },
        },
        (StepView::BreakPane { placed }, LayoutEventView::Captured(Ok(temporary))) =>
            StepView::ArrangeContent { placed, temporary },
        // From here on the sidebar is put back, whatever came of the layout.
        (StepView::ArrangeContent { placed, temporary }, LayoutEventView::Ran(arranged)) =>
            StepView::JoinPane { placed, temporary, arranged },
        (StepView::JoinPane { placed, temporary, arranged }, LayoutEventView::Ran(Err(error))) =>
            StepView::Done(
            Err(
                LayoutErrorView::NotRestored {
                    error,
                    layout_error: match arranged {
                        Ok(_) => None,
                        Err(error) => Some(error),
                    },
                    window: placed.window,
                    sidebar: placed.sidebar,
                    temporary,
                },
            ),
        ),
        (StepView::JoinPane { placed, arranged, .. }, LayoutEventView::Ran(Ok(_))) =>
            StepView::Reflow { placed, arranged },
        (StepView::Reflow { arranged, .. }, LayoutEventView::Reflowed) => StepView::Done(
            layout_outcome(arranged),
        ),
        (_, LayoutEventView::Captured(Err(error))) => StepView::Done(
            Err(LayoutErrorView::Failed(error)),
        ),
        (_, LayoutEventView::SidebarFound(Err(error))) => StepView::Done(
            Err(LayoutErrorView::Failed(error)),
        ),
        (_, LayoutEventView::Placement(Err(error))) => StepView::Done(
            Err(LayoutErrorView::Failed(error)),
        ),
        _ => step,
    }
}

/// The command of a step, if it runs one.
pub open spec fn command<E>(change: ChangeView<E>) -> Option<Seq<Seq<char>>> {
    match change.step {
        StepView::CaptureWindow => Some(window_id_command(change.target)),
        StepView::SelectLayout { window } => Some(select_layout_command(window, change.layout)),
        StepView::ListPanes { window, .. } => Some(list_panes_command(window)),
        StepView::BreakPane { placed } => Some(break_pane_command(placed.sidebar)),
        StepView::ArrangeContent { placed, .. } => Some(
            select_layout_command(placed.window, change.layout),
        ),
        StepView::JoinPane { placed, .. } => Some(
            join_pane_command(placed.content, placed.sidebar, placed.position, placed.size),
        ),
        _ => None,
    }
}

impl<E> LayoutChange<E> {
    /// Begin to apply a layout to the target window, or to the current one.
    pub fn apply(in_tmux: bool, layout: &str, target: Option<&str>) -> (change: LayoutChange<E>)
        ensures
            change@ == begin::<E>(
                in_tmux,
                layout@,
                match target {
                    Some(target) => Some(target@),
                    None => None,
                },
            ),
    {
        LayoutChange {
            layout: layout.to_owned(),
            target: match target {
                Some(target) => Some(target.to_owned()),
                None => None,
            },
            step: if in_tmux {
                LayoutStep::CaptureWindow
            } else {
                LayoutStep::Done(Err(LayoutError::NotInTmux))
            },
        }
    }

    /// The step that is to be taken next.
    pub fn step(&self) -> (step: &LayoutStep<E>)
        ensures
            step@ == self@.step,
    {
        &self.step
    }

    /// The arguments of the tmux command that the step runs, if it runs one.
    pub fn command(&self) -> (list: Option<Vec<String>>)
        ensures
            match command(self@) {
                Some(wanted) => list matches Some(got) && text::texts(got@) == wanted,
                None => list is None,
            },
    {
        match &self.step {
            LayoutStep::CaptureWindow => {
                let target = match &self.target {
                    Some(target) => Some(target.as_str()),
                    None => None,
                };
                Some(window_id_arguments(target))
            },
            LayoutStep::SelectLayout { window_id } => Some(
                select_layout(window_id.as_str(), self.layout.as_str()),
            ),
            LayoutStep::ListPanes { window_id, .. } => Some(list_panes(window_id.as_str())),
            LayoutStep::BreakPane { sidebar } => Some(
                break_pane(sidebar.sidebar_pane_id.as_str()),
            ),
            LayoutStep::ArrangeContent { sidebar, .. } => Some(
                select_layout(sidebar.window_id.as_str(), self.layout.as_str()),
            ),
            LayoutStep::JoinPane { sidebar, .. } => Some(
                join_sidebar(
                    sidebar.content_pane_id.as_str(),
                    sidebar.sidebar_pane_id.as_str(),
                    sidebar.position,
                    sidebar.size,
                ),
            ),
            _ => None,
        }
    }

    /// Go on, knowing what came of the step.
    pub fn answer(self, event: LayoutEvent<E>) -> (change: LayoutChange<E>)
        requires
            answers(event@, self@.step),
        ensures
            change@ == (ChangeView { step: next_step(self@.step, event@), ..self@ }),
    {
        let LayoutChange { layout, target, step } = self;
        let next = match step {
            LayoutStep::CaptureWindow => match event {
                LayoutEvent::Captured(Ok(output)) => match canonical_window_id(output) {
                    Some(window_id) => LayoutStep::FindSidebar { window_id },
                    None => LayoutStep::Done(Err(LayoutError::NoWindow)),
                },
                LayoutEvent::Captured(Err(error)) => LayoutStep::Done(
                    Err(LayoutError::Failed(error)),
                ),
                _ => LayoutStep::CaptureWindow,
            },
            LayoutStep::FindSidebar { window_id } => match event {
                LayoutEvent::SidebarFound(Ok(Some(sidebar_pane_id))) => LayoutStep::ListPanes {
                    window_id,
                    sidebar_pane_id,
                },
                LayoutEvent::SidebarFound(Ok(None)) => LayoutStep::SelectLayout { window_id },
                LayoutEvent::SidebarFound(Err(error)) => LayoutStep::Done(
                    Err(LayoutError::Failed(error)),
                ),
                _ => LayoutStep::FindSidebar { window_id },
            },
            LayoutStep::SelectLayout { window_id } => match event {
                LayoutEvent::Ran(Ok(())) => LayoutStep::Done(Ok(())),
                LayoutEvent::Ran(Err(error)) => LayoutStep::Done(Err(LayoutError::Failed(error))),
                _ => LayoutStep::SelectLayout { window_id },
            },
            LayoutStep::ListPanes { window_id, sidebar_pane_id } => match event {
                LayoutEvent::Captured(Ok(panes)) => match content_pane_id(
                    panes.as_str(),
                    sidebar_pane_id.as_str(),
                ) {
                    Some(content_pane_id) => LayoutStep::ReadPlacement {
                        window_id,
                        sidebar_pane_id,
                        content_pane_id,
                    },
                    None => LayoutStep::Done(Err(LayoutError::OnlySidebar)),
                },
                LayoutEvent::Captured(Err(error)) => LayoutStep::Done(
                    Err(LayoutError::Failed(error)),
                ),
                _ => LayoutStep::ListPanes { window_id, sidebar_pane_id },
            },
            LayoutStep::ReadPlacement { window_id, sidebar_pane_id, content_pane_id } => match event {
                LayoutEvent::Placement(Ok((position, size))) => LayoutStep::BreakPane {
                    sidebar: PlacedSidebar {
                        window_id,
                        sidebar_pane_id,
                        content_pane_id,
                        position,
                        size,
                    },
                },
                LayoutEvent::Placement(Err(error)) => LayoutStep::Done(
                    Err(LayoutError::Failed(error)),
                ),
                _ => LayoutStep::ReadPlacement { window_id, sidebar_pane_id, content_pane_id },
            },
            LayoutStep::BreakPane { sidebar } => match event {
                LayoutEvent::Captured(Ok(temporary_window)) => LayoutStep::ArrangeContent {
                    sidebar,
                    temporary_window,
                },
                LayoutEvent::Captured(Err(error)) => LayoutStep::Done(
                    Err(LayoutError::Failed(error)),
                ),
                _ => LayoutStep::BreakPane { sidebar },
            },
            LayoutStep::ArrangeContent { sidebar, temporary_window } => match event {
                LayoutEvent::Ran(arranged) => LayoutStep::JoinPane {
                    sidebar,
                    temporary_window,
                    arranged,
                },
                _ => LayoutStep::ArrangeContent { sidebar, temporary_window },
            },
            LayoutStep::JoinPane { sidebar, temporary_window, arranged } => match event {
                LayoutEvent::Ran(Err(error)) => LayoutStep::Done(
                    Err(
                        LayoutError::NotRestored(
                            RestoreFailure {
                                error,
                                layout_error: match arranged {
                                    Ok(()) => None,
                                    Err(error) => Some(error),
                                },
                                window_id: sidebar.window_id,
                                sidebar_pane_id: sidebar.sidebar_pane_id,
                                temporary_window,
                            },
                        ),
                    ),
                ),
                LayoutEvent::Ran(Ok(())) => LayoutStep::Reflow { sidebar, arranged },
                _ => LayoutStep::JoinPane { sidebar, temporary_window, arranged },
            },
            LayoutStep::Reflow { sidebar, arranged } => match arranged {
                Ok(()) => LayoutStep::Done(Ok(())),
                Err(error) => LayoutStep::Done(Err(LayoutError::Failed(error))),
            },
            LayoutStep::Done(result) => LayoutStep::Done(result),
        };
        LayoutChange { layout, target, step: next }
    }

    /// The outcome of a change that is done; `None` before that.
    pub fn outcome(self) -> (outcome: Option<Result<(), LayoutError<E>>>)
        ensures
            match self@.step {
                StepView::Done(result) => outcome matches Some(got) && done_view(got) == result,
                _ => outcome is None,
            },
    {
        match self.step {
            LayoutStep::Done(result) => Some(result),
            _ => None,
        }
    }
}

/// Once the sidebar is out of its window, putting it back is always attempted, and
/// by the same command whatever came of the layout.
pub proof fn lemma_sidebar_is_always_put_back<E>(
    layout: Seq<char>,
    target: Option<Seq<char>>,
    placed: PlacedView,
    temporary: Seq<char>,
    event: LayoutEventView<E>,
)
    requires
        answers(event, StepView::ArrangeContent { placed, temporary }),
    ensures
        command(
            ChangeView {
                layout,
                target,
                step: next_step(StepView::ArrangeContent { placed, temporary }, event),
            },
        ) == Some(
            join_pane_command(placed.content, placed.sidebar, placed.position, placed.size),
        ),
{
}

/// The sidebar is taken out of its window only when everything is known that is
/// needed to put it back: a pane to put it beside, its position and its size.
pub proof fn lemma_sidebar_is_moved_only_when_it_can_be_put_back<E>(
    step: StepView<E>,
    event: LayoutEventView<E>,
)
    requires
        answers(event, step),
        next_step(step, event) is BreakPane,
    ensures
        ({
            let placed = next_step(step, event)->BreakPane_placed;
            &&& step == StepView::<E>::ReadPlacement {
                window: placed.window,
                sidebar: placed.sidebar,
                content: placed.content,
            }
            &&& event == LayoutEventView::<E>::Placement(Ok((placed.position, placed.size)))
        }),
{
}

/// The pane that a sidebar is put back beside is a pane of the window and is not the
/// sidebar; there is none only if the window has no other pane.
pub proof fn lemma_content_pane_is_not_the_sidebar(panes: Seq<char>, sidebar: Seq<char>)
    ensures
        content_pane(panes, sidebar) matches Some(content) ==> content != sidebar && text::lines(
            panes,
        ).contains(content),
        content_pane(panes, sidebar) is None ==> forall|i: int|
            0 <= i < text::lines(panes).len() ==> #[trigger] text::lines(panes)[i] == sidebar,
{
    text::lemma_first_other(text::lines(panes), sidebar);
}

/// A tmux and a sidebar that answer every step the same way each time.
pub struct TmuxWorld<E> {
    pub window: Result<Seq<char>, E>,
    pub sidebar: Result<Option<Seq<char>>, E>,
    pub panes: Result<Seq<char>, E>,
    pub placement: Result<(SidebarPosition, nat), E>,
    pub broken: Result<Seq<char>, E>,
    pub arranged: Result<(), E>,
    pub joined: Result<(), E>,
}

/// What such a world answers to a step.
pub open spec fn world_event<E>(world: TmuxWorld<E>, step: StepView<E>) -> LayoutEventView<E> {
    match step {
        StepView::CaptureWindow => LayoutEventView::Captured(world.window),
        StepView::FindSidebar { .. } => LayoutEventView::SidebarFound(world.sidebar),
        StepView::SelectLayout { .. } => LayoutEventView::Ran(world.arranged),
        StepView::ListPanes { .. } => LayoutEventView::Captured(world.panes),
        StepView::ReadPlacement { .. } => LayoutEventView::Placement(world.placement),
        StepView::BreakPane { .. } => LayoutEventView::Captured(world.broken),
        StepView::ArrangeContent { .. } => LayoutEventView::Ran(world.arranged),
        StepView::JoinPane { .. } => LayoutEventView::Ran(world.joined),
        _ => LayoutEventView::Reflowed,
    }
}

/// The step of a change after this many answers.
pub open spec fn step_after<E>(step: StepView<E>, world: TmuxWorld<E>, count: nat) -> StepView<E>
    decreases count,
{
    if count == 0 || step is Done {
        step
    } else {
        step_after(next_step(step, world_event(world, step)), world, (count - 1) as nat)
    }
}

/// What a change of layout comes to in a world: without a sidebar, what the layout
/// command comes to; with one, the same once the sidebar is back in its place.
pub open spec fn applied_in<E>(world: TmuxWorld<E>) -> Result<(), LayoutErrorView<E>> {
    match (world.window, world.sidebar) {
        (Err(error), _) => Err(LayoutErrorView::Failed(error)),
        (Ok(window), sidebar) => if window.len() == 0 {
            Err(LayoutErrorView::NoWindow)
        } else {
            match sidebar {
                Err(error) => Err(LayoutErrorView::Failed(error)),
                Ok(None) => layout_outcome(world.arranged),
                Ok(Some(sidebar)) => match world.panes {
                    Err(error) => Err(LayoutErrorView::Failed(error)),
                    Ok(panes) => if content_pane(panes, sidebar) is None {
                        Err(LayoutErrorView::OnlySidebar)
                    } else {
                        match (world.placement, world.broken, world.joined) {
                            (Err(error), _, _) => Err(LayoutErrorView::Failed(error)),
                            (_, Err(error), _) => Err(LayoutErrorView::Failed(error)),
                            (_, Ok(temporary), Err(error)) => Err(
                                LayoutErrorView::NotRestored {
                                    error,
                                    layout_error: match world.arranged {
                                        Ok(_) => None,
                                        Err(error) => Some(error),
                                    },
                                    window,
                                    sidebar,
                                    temporary,
                                },
                            ),
                            _ => layout_outcome(world.arranged),
                        }
                    },
                },
            }
        },
    }
}

/// However tmux answers, a change of layout is done after eight answers at most,
/// with the outcome that the order of its steps promises.
pub proof fn lemma_layout_change_outcome<E>(
    layout: Seq<char>,
    target: Option<Seq<char>>,
    world: TmuxWorld<E>,
)
    ensures
        step_after(begin::<E>(true, layout, target).step, world, 8) == StepView::Done(
            applied_in(world),
        ),
{
    reveal_with_fuel(step_after, 9);
}

} // verus!
