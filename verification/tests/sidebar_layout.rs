//! Changing layouts around a sidebar.

use workmux::sidebar_layout::{
    canonical_window_id, content_pane_id, join_sidebar, select_layout, window_id_arguments,
    LayoutChange, LayoutError, LayoutEvent, LayoutStep, SidebarPosition,
};

/// A tmux that answers each kind of command, and notes the commands.
struct Tmux {
    window: Result<String, String>,
    sidebar: Result<Option<String>, String>,
    panes: Result<String, String>,
    placement: Result<(SidebarPosition, u16), String>,
    temporary: Result<String, String>,
    layout: Result<(), String>,
    join: Result<(), String>,
    commands: Vec<String>,
    reflowed: Vec<String>,
}

fn tmux_with_sidebar() -> Tmux {
    Tmux {
        window: Ok("@1".to_string()),
        sidebar: Ok(Some("%9".to_string())),
        panes: Ok("%9\n%2\n%3".to_string()),
        placement: Ok((SidebarPosition::Left, 30)),
        temporary: Ok("@5".to_string()),
        layout: Ok(()),
        join: Ok(()),
        commands: vec![],
        reflowed: vec![],
    }
}

impl Tmux {
    fn apply(&mut self, layout: &str, target: Option<&str>) -> Result<(), LayoutError<String>> {
        let mut change: LayoutChange<String> = LayoutChange::apply(true, layout, target);
        loop {
            if let Some(command) = change.command() {
                self.commands.push(command.join(" "));
            }
            let event = match change.step() {
                LayoutStep::CaptureWindow => LayoutEvent::Captured(self.window.clone()),
                LayoutStep::FindSidebar { window_id } => {
                    assert_eq!(window_id, "@1");
                    LayoutEvent::SidebarFound(self.sidebar.clone())
                }
                LayoutStep::SelectLayout { .. } => LayoutEvent::Ran(self.layout.clone()),
                LayoutStep::ListPanes { .. } => LayoutEvent::Captured(self.panes.clone()),
                LayoutStep::ReadPlacement { .. } => LayoutEvent::Placement(self.placement.clone()),
                LayoutStep::BreakPane { .. } => LayoutEvent::Captured(self.temporary.clone()),
                LayoutStep::ArrangeContent { .. } => LayoutEvent::Ran(self.layout.clone()),
                LayoutStep::JoinPane { .. } => LayoutEvent::Ran(self.join.clone()),
                LayoutStep::Reflow { sidebar, .. } => {
                    self.reflowed.push(format!(
                        "{} {} {:?} {}",
                        sidebar.window_id, sidebar.sidebar_pane_id, sidebar.position, sidebar.size
                    ));
                    LayoutEvent::Reflowed
                }
                LayoutStep::Done(_) => break,
            };
            change = change.answer(event);
        }
        change.outcome().unwrap()
    }
}

fn failed(result: Result<(), LayoutError<String>>) -> String {
    match result {
        Err(LayoutError::Failed(error)) => error,
        _ => panic!("no failed step"),
    }
}

fn message(result: Result<(), LayoutError<String>>) -> Option<String> {
    match result {
        Ok(()) => panic!("the layout was applied"),
        Err(error) => error.message(),
    }
}

#[test]
fn the_layout_is_applied_around_the_sidebar() {
    let mut tmux = tmux_with_sidebar();
    assert!(tmux.apply("tiled", Some("main")).is_ok());
    assert_eq!(
        tmux.commands,
        [
            "display-message -t main -p #{window_id}",
            "list-panes -t @1 -F #{pane_id}",
            "break-pane -d -P -F #{window_id} -s %9",
            "select-layout -t @1 tiled",
            "join-pane -hbf -d -l 30 -s %9 -t %2",
        ]
    );
    assert_eq!(tmux.reflowed, ["@1 %9 Left 30"]);
}

#[test]
fn the_layout_is_applied_at_once_without_a_sidebar() {
    let mut tmux = tmux_with_sidebar();
    tmux.sidebar = Ok(None);
    assert!(tmux.apply("next", None).is_ok());
    assert_eq!(
        tmux.commands,
        ["display-message -p #{window_id}", "select-layout -n -t @1"]
    );
    assert_eq!(tmux.reflowed.len(), 0);
    tmux.layout = Err("bad layout".to_string());
    assert_eq!(failed(tmux.apply("next", None)), "bad layout");
}

#[test]
fn the_sidebar_is_put_back_after_a_failed_layout() {
    let mut tmux = tmux_with_sidebar();
    tmux.layout = Err("bad layout".to_string());
    assert_eq!(failed(tmux.apply("odd", None)), "bad layout");
    assert_eq!(tmux.commands.last().unwrap(), "join-pane -hbf -d -l 30 -s %9 -t %2");
    assert_eq!(tmux.reflowed.len(), 1);
}

#[test]
fn a_sidebar_that_is_not_put_back_can_be_found() {
    let mut tmux = tmux_with_sidebar();
    tmux.join = Err("no space".to_string());
    let failure = match tmux.apply("tiled", None) {
        Err(LayoutError::NotRestored(failure)) => failure,
        _ => panic!("the sidebar was put back"),
    };
    assert_eq!(failure.error, "no space");
    assert_eq!(failure.layout_error, None);
    assert_eq!(failure.join_context(), "failed to restore sidebar to window @1");
    assert_eq!(
        failure.context(None),
        "sidebar pane %9 remains in temporary window @5"
    );
    assert_eq!(tmux.reflowed.len(), 0);
    tmux.layout = Err("bad layout".to_string());
    let failure = match tmux.apply("tiled", None) {
        Err(LayoutError::NotRestored(failure)) => failure,
        _ => panic!("the sidebar was put back"),
    };
    assert_eq!(
        failure.context(failure.layout_error.as_deref()),
        "sidebar pane %9 remains in temporary window @5; layout action also failed: bad layout"
    );
}

#[test]
fn nothing_is_moved_before_the_way_back_is_known() {
    let mut tmux = tmux_with_sidebar();
    tmux.panes = Ok("%9\n".to_string());
    assert_eq!(
        message(tmux.apply("tiled", None)).as_deref(),
        Some("cannot change layout in a window with only a sidebar pane")
    );
    tmux.panes = Err("no panes".to_string());
    assert_eq!(failed(tmux.apply("tiled", None)), "no panes");
    tmux.panes = Ok("%2".to_string());
    tmux.placement = Err("no options".to_string());
    assert_eq!(failed(tmux.apply("tiled", None)), "no options");
    assert!(!tmux.commands.iter().any(|command| command.starts_with("break-pane")));
    tmux.placement = Ok((SidebarPosition::Top, 5));
    tmux.temporary = Err("cannot break".to_string());
    assert_eq!(failed(tmux.apply("tiled", None)), "cannot break");
    assert!(!tmux.commands.iter().any(|command| command.starts_with("select-layout")));
}

#[test]
fn windows_that_cannot_be_detected_are_refused() {
    let mut tmux = tmux_with_sidebar();
    tmux.window = Ok(String::new());
    assert_eq!(
        message(tmux.apply("tiled", None)).as_deref(),
        Some("could not detect tmux window")
    );
    tmux.window = Err("no server".to_string());
    assert_eq!(failed(tmux.apply("tiled", None)), "no server");
    tmux.window = Ok("@1".to_string());
    tmux.sidebar = Err("no sidebar list".to_string());
    assert_eq!(failed(tmux.apply("tiled", None)), "no sidebar list");
}

#[test]
fn a_layout_change_needs_tmux() {
    let change: LayoutChange<String> = LayoutChange::apply(false, "tiled", None);
    assert!(change.command().is_none());
    assert_eq!(
        message(change.outcome().unwrap()).as_deref(),
        Some("Sidebar requires tmux")
    );
    let started: LayoutChange<String> = LayoutChange::apply(true, "tiled", None);
    assert!(started.outcome().is_none());
}

#[test]
fn commands_are_written_argument_by_argument() {
    assert_eq!(window_id_arguments(None), ["display-message", "-p", "#{window_id}"]);
    assert_eq!(select_layout("@1", "next"), ["select-layout", "-n", "-t", "@1"]);
    assert_eq!(select_layout("@1", "previous"), ["select-layout", "-p", "-t", "@1"]);
    assert_eq!(
        select_layout("@1", "main vertical"),
        ["select-layout", "-t", "@1", "main vertical"]
    );
    assert_eq!(
        join_sidebar("%2", "%9", SidebarPosition::Top, 65535),
        ["join-pane", "-vbf", "-d", "-l", "65535", "-s", "%9", "-t", "%2"]
    );
    assert_eq!(
        join_sidebar("%2", "%9", SidebarPosition::Left, 0)[4],
        "0"
    );
}

#[test]
fn the_content_pane_is_the_first_other_line() {
    assert_eq!(content_pane_id("%9\n%2\n%3", "%9").as_deref(), Some("%2"));
    assert_eq!(content_pane_id("%2\r\n%9\r\n", "%9").as_deref(), Some("%2"));
    assert_eq!(content_pane_id("%9\r\n%9\n", "%9"), None);
    assert_eq!(content_pane_id("", "%9"), None);
    assert_eq!(content_pane_id("%9\n\n", "%9").as_deref(), Some(""));
    assert_eq!(canonical_window_id(String::new()), None);
    assert_eq!(canonical_window_id("@1".to_string()).as_deref(), Some("@1"));
}
