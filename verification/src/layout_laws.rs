//! What a change of layout runs and comes to, in terms of what tmux answers.

use crate::sidebar_layout;
use crate::sidebar_layout::{
    ChangeView, LayoutError, LayoutErrorView, LayoutEvent, LayoutEventView, PlacedSidebar,
    PlacedView, RestoreFailure, SidebarPosition, StepView, TmuxWorld,
};
use crate::text;
use vstd::prelude::*;

verus! {

/// The layout is applied by the same command whether or not there is a sidebar: by the
/// flag for the next or the previous layout, and by its name otherwise.
pub proof fn lemma_the_layout_command_is_the_same_with_a_sidebar<E>(
    layout: Seq<char>,
    target: Option<Seq<char>>,
    placed: PlacedView,
    temporary: Seq<char>,
)
    ensures
        ({
            let without = sidebar_layout::command(
                ChangeView::<E> {
                    layout,
                    target,
                    step: StepView::SelectLayout { window: placed.window },
                },
            );
            let with = sidebar_layout::command(
                ChangeView::<E> {
                    layout,
                    target,
                    step: StepView::ArrangeContent { placed, temporary },
                },
            );
            &&& with == without
            &&& layout == "next"@ ==> with == Some(
                seq!["select-layout"@, "-n"@, "-t"@, placed.window],
            )
            &&& layout == "previous"@ ==> with == Some(
                seq!["select-layout"@, "-p"@, "-t"@, placed.window],
            )
            &&& layout != "next"@ && layout != "previous"@ ==> with == Some(
                seq!["select-layout"@, "-t"@, placed.window, layout],
            )
        }),
{
    reveal_strlit("next");
    reveal_strlit("previous");
    assert("next"@.len() != "previous"@.len());
}

/// The commands that find the window and its panes, and that move the sidebar out of
/// the window and back.
pub proof fn lemma_the_commands_around_the_layout<E>(
    layout: Seq<char>,
    target: Option<Seq<char>>,
    placed: PlacedView,
    temporary: Seq<char>,
    arranged: Result<(), E>,
)
    ensures
        sidebar_layout::command(
            ChangeView::<E> { layout, target, step: StepView::CaptureWindow },
        ) == Some(
            match target {
                Some(target) => seq!["display-message"@, "-t"@, target, "-p"@, "#{window_id}"@],
                None => seq!["display-message"@, "-p"@, "#{window_id}"@],
            },
        ),
        sidebar_layout::command(
            ChangeView::<E> {
                layout,
                target,
                step: StepView::ListPanes { window: placed.window, sidebar: placed.sidebar },
            },
        ) == Some(seq!["list-panes"@, "-t"@, placed.window, "-F"@, "#{pane_id}"@]),
        sidebar_layout::command(
            ChangeView::<E> { layout, target, step: StepView::BreakPane { placed } },
        ) == Some(
            seq!["break-pane"@, "-d"@, "-P"@, "-F"@, "#{window_id}"@, "-s"@, placed.sidebar],
        ),
        sidebar_layout::command(
            ChangeView::<E> {
                layout,
                target,
                step: StepView::JoinPane { placed, temporary, arranged },
            },
        ) == Some(
            seq![
                "join-pane"@,
                if placed.position is Left {
                    "-hbf"@
                } else {
                    "-vbf"@
                },
                "-d"@,
                "-l"@,
                text::decimal(placed.size),
                "-s"@,
                placed.sidebar,
                "-t"@,
                placed.content,
            ],
        ),
{
}

/// The commands of the functions that write them one by one.
pub proof fn lemma_commands_on_their_own(
    target: Option<Seq<char>>,
    window: Seq<char>,
    layout: Seq<char>,
    content: Seq<char>,
    sidebar: Seq<char>,
    position: SidebarPosition,
    size: nat,
)
    ensures
        sidebar_layout::window_id_command(target) == (match target {
            Some(target) => seq!["display-message"@, "-t"@, target, "-p"@, "#{window_id}"@],
            None => seq!["display-message"@, "-p"@, "#{window_id}"@],
        }),
        sidebar_layout::select_layout_command(window, layout) == (if layout == "next"@ {
            seq!["select-layout"@, "-n"@, "-t"@, window]
        } else if layout == "previous"@ {
            seq!["select-layout"@, "-p"@, "-t"@, window]
        } else {
            seq!["select-layout"@, "-t"@, window, layout]
        }),
        sidebar_layout::join_pane_command(content, sidebar, position, size) == seq![
            "join-pane"@,
            if position is Left {
                "-hbf"@
            } else {
                "-vbf"@
            },
            "-d"@,
            "-l"@,
            text::decimal(size),
            "-s"@,
            sidebar,
            "-t"@,
            content,
        ],
{
}

/// The commands that a change of layout runs in a world, in this many steps.
pub open spec fn commands_over<E>(
    layout: Seq<char>,
    target: Option<Seq<char>>,
    step: StepView<E>,
    world: TmuxWorld<E>,
    count: nat,
) -> Seq<Seq<Seq<char>>>
    decreases count,
{
    if count == 0 || step is Done {
        seq![]
    } else {
        (match sidebar_layout::command(ChangeView { layout, target, step }) {
            Some(command) => seq![command],
            None => seq![],
        }) + commands_over(
            layout,
            target,
            sidebar_layout::next_step(step, sidebar_layout::world_event(world, step)),
            world,
            (count - 1) as nat,
        )
    }
}

/// A window without a sidebar gets the layout at once, and what comes of that is the
/// outcome.
pub proof fn lemma_a_window_without_a_sidebar<E>(
    layout: Seq<char>,
    target: Option<Seq<char>>,
    window: Seq<char>,
    world: TmuxWorld<E>,
)
    requires
        world.window == Ok::<Seq<char>, E>(window),
        window.len() > 0,
        world.sidebar == Ok::<Option<Seq<char>>, E>(None),
    ensures
        ({
            let start = sidebar_layout::begin::<E>(true, layout, target).step;
            &&& commands_over(layout, target, start, world, 8) == seq![
                sidebar_layout::window_id_command(target),
                sidebar_layout::select_layout_command(window, layout),
            ]
            &&& match sidebar_layout::step_after(start, world, 8) {
                StepView::Done(Ok(_)) => world.arranged is Ok,
                StepView::Done(Err(LayoutErrorView::Failed(error))) => world.arranged == Err::<
                    (),
                    E,
                >(error),
                _ => false,
            }
        }),
{
    reveal_with_fuel(sidebar_layout::step_after, 9);
    reveal_with_fuel(commands_over, 9);
    let start = sidebar_layout::begin::<E>(true, layout, target).step;
    assert(commands_over(layout, target, start, world, 8) =~= seq![
        sidebar_layout::window_id_command(target),
        sidebar_layout::select_layout_command(window, layout),
    ]);
}

/// A sidebar is moved out of its window, the layout is applied, and the sidebar is put
/// back beside the first other pane, with the position and size that it had, whatever
/// came of the layout. If it is back, the panes are reflowed around it and the outcome
/// is what came of the layout; if not, the outcome tells where it is left, and what came
/// of the layout.
pub proof fn lemma_a_window_with_a_sidebar<E>(
    layout: Seq<char>,
    target: Option<Seq<char>>,
    placed: PlacedView,
    temporary: Seq<char>,
    panes: Seq<char>,
    at: int,
    world: TmuxWorld<E>,
)
    requires
        world.window == Ok::<Seq<char>, E>(placed.window),
        placed.window.len() > 0,
        world.sidebar == Ok::<Option<Seq<char>>, E>(Some(placed.sidebar)),
        world.panes == Ok::<Seq<char>, E>(panes),
        0 <= at < text::lines(panes).len(),
        text::lines(panes)[at] == placed.content,
        placed.content != placed.sidebar,
        forall|j: int| 0 <= j < at ==> #[trigger] text::lines(panes)[j] == placed.sidebar,
        world.placement == Ok::<(SidebarPosition, nat), E>((placed.position, placed.size)),
        world.broken == Ok::<Seq<char>, E>(temporary),
    ensures
        ({
            let start = sidebar_layout::begin::<E>(true, layout, target).step;
            &&& commands_over(layout, target, start, world, 8) == seq![
                sidebar_layout::window_id_command(target),
                seq!["list-panes"@, "-t"@, placed.window, "-F"@, "#{pane_id}"@],
                seq!["break-pane"@, "-d"@, "-P"@, "-F"@, "#{window_id}"@, "-s"@, placed.sidebar],
                sidebar_layout::select_layout_command(placed.window, layout),
                sidebar_layout::join_pane_command(
                    placed.content,
                    placed.sidebar,
                    placed.position,
                    placed.size,
                ),
            ]
            &&& world.joined is Ok ==> sidebar_layout::step_after(start, world, 7)
                == StepView::Reflow { placed, arranged: world.arranged }
            &&& match (world.joined, world.arranged) {
                (Ok(_), Ok(_)) => sidebar_layout::step_after(start, world, 8) matches StepView::Done(
                    Ok(_),
                ),
                (Ok(_), Err(error)) => sidebar_layout::step_after(start, world, 8)
                    == StepView::Done(Err(LayoutErrorView::Failed(error))),
                (Err(error), arranged) => sidebar_layout::step_after(start, world, 8)
                    == StepView::Done(
                    Err(
                        LayoutErrorView::NotRestored {
                            error,
                            layout_error: match arranged {
                                Ok(_) => None,
                                Err(error) => Some(error),
                            },
                            window: placed.window,
                            sidebar: placed.sidebar,
                            temporary,
                        },
                    ),
                ),
            }
        }),
{
    reveal_with_fuel(sidebar_layout::step_after, 9);
    reveal_with_fuel(commands_over, 9);
    let start = sidebar_layout::begin::<E>(true, layout, target).step;
    text::lemma_first_other_is_the_first(text::lines(panes), placed.sidebar, at);
    assert(commands_over(layout, target, start, world, 8) =~= seq![
        sidebar_layout::window_id_command(target),
        seq!["list-panes"@, "-t"@, placed.window, "-F"@, "#{pane_id}"@],
        seq!["break-pane"@, "-d"@, "-P"@, "-F"@, "#{window_id}"@, "-s"@, placed.sidebar],
        sidebar_layout::select_layout_command(placed.window, layout),
        sidebar_layout::join_pane_command(
            placed.content,
            placed.sidebar,
            placed.position,
            placed.size,
        ),
    ]);
}

/// Whatever fails before the sidebar is moved is the outcome, and then nothing is moved
/// and no layout is applied: outside tmux, without a window, when a step fails, or when
/// the window has no pane but the sidebar.
pub proof fn lemma_failures_before_the_sidebar_is_moved<E>(
    layout: Seq<char>,
    target: Option<Seq<char>>,
    world: TmuxWorld<E>,
)
    ensures
        sidebar_layout::begin::<E>(false, layout, target).step == StepView::<E>::Done(
            Err(LayoutErrorView::NotInTmux),
        ),
        ({
            let start = sidebar_layout::begin::<E>(true, layout, target).step;
            let end = sidebar_layout::step_after(start, world, 8);
            let ran = commands_over(layout, target, start, world, 8);
            match world.window {
                Err(error) => end == StepView::<E>::Done(Err(LayoutErrorView::Failed(error)))
                    && ran.len() == 1,
                Ok(window) => if window.len() == 0 {
                    end == StepView::<E>::Done(Err(LayoutErrorView::NoWindow)) && ran.len() == 1
                } else {
                    match (world.sidebar, world.panes, world.placement, world.broken) {
                        (Err(error), _, _, _) => end == StepView::<E>::Done(
                            Err(LayoutErrorView::Failed(error)),
                        ) && ran.len() == 1,
                        (Ok(Some(_)), Err(error), _, _) => end == StepView::<E>::Done(
                            Err(LayoutErrorView::Failed(error)),
                        ) && ran.len() == 2,
                        (Ok(Some(sidebar)), Ok(panes), placement, broken) => {
                            let alone = forall|j: int|
                                0 <= j < text::lines(panes).len() ==> #[trigger] text::lines(
                                    panes,
                                )[j] == sidebar;
                            &&& alone ==> end == StepView::<E>::Done(
                                Err(LayoutErrorView::OnlySidebar),
                            ) && ran.len() == 2
                            &&& !alone && placement is Err ==> end == StepView::<E>::Done(
                                Err(LayoutErrorView::Failed(placement->Err_0)),
                            ) && ran.len() == 2
                            &&& !alone && placement is Ok && broken is Err ==> end == StepView::<
                                E,
                            >::Done(Err(LayoutErrorView::Failed(broken->Err_0))) && ran.len() == 3
                        },
                        _ => true,
                    }
                },
            }
        }),
{
    reveal_with_fuel(sidebar_layout::step_after, 9);
    reveal_with_fuel(commands_over, 9);
    if let (Ok(Some(sidebar)), Ok(panes)) = (world.sidebar, world.panes) {
        text::lemma_first_other(text::lines(panes), sidebar);
        if let Some(found) = text::first_other(text::lines(panes), sidebar) {
            let k = choose|k: int|
                0 <= k < text::lines(panes).len() && text::lines(panes)[k] == found;
            assert(text::lines(panes)[k] != sidebar);
        }
    }
}

/// How the errors of a change of layout read.
pub proof fn lemma_messages_of_layout_errors<E>(
    sidebar: Seq<char>,
    temporary: Seq<char>,
    message: Seq<char>,
)
    ensures
        sidebar_layout::layout_message(LayoutErrorView::<E>::NotInTmux) == Some(
            "Sidebar requires tmux"@,
        ),
        sidebar_layout::layout_message(LayoutErrorView::<E>::NoWindow) == Some(
            "could not detect tmux window"@,
        ),
        sidebar_layout::layout_message(LayoutErrorView::<E>::OnlySidebar) == Some(
            "cannot change layout in a window with only a sidebar pane"@,
        ),
        sidebar_layout::restore_context(sidebar, temporary, None) == "sidebar pane "@ + sidebar
            + " remains in temporary window "@ + temporary,
        sidebar_layout::restore_context(sidebar, temporary, Some(message)) == "sidebar pane "@
            + sidebar + " remains in temporary window "@ + temporary
            + "; layout action also failed: "@ + message,
{
    let place = "sidebar pane "@ + sidebar + " remains in temporary window "@ + temporary;
    assert(place + seq![] =~= place);
    assert(place + ("; layout action also failed: "@ + message) =~= place
        + "; layout action also failed: "@ + message);
}

/// A change of layout begins with the layout and target that it was given, and each
/// step waits for an event that tells what came of it, be it a failure or not.
pub proof fn lemma_how_a_change_of_layout_begins<E>(
    in_tmux: bool,
    layout: Seq<char>,
    target: Option<Seq<char>>,
    step: StepView<E>,
    world: TmuxWorld<E>,
)
    ensures
        sidebar_layout::begin::<E>(in_tmux, layout, target).layout == layout,
        sidebar_layout::begin::<E>(in_tmux, layout, target).target == target,
        in_tmux ==> sidebar_layout::begin::<E>(in_tmux, layout, target).step is CaptureWindow,
        step !is Done ==> sidebar_layout::answers(sidebar_layout::world_event(world, step), step),
{
}

/// What came of a step is told as it was given.
pub proof fn lemma_layout_events_tell_what_was_given<E>(
    captured: Result<String, E>,
    found: Result<Option<String>, E>,
    placement: Result<(SidebarPosition, u16), E>,
    ran: Result<(), E>,
)
    ensures
        LayoutEvent::Captured(captured)@ matches LayoutEventView::Captured(told) && match captured {
            Ok(output) => told == Ok::<Seq<char>, E>(output@),
            Err(error) => told == Err::<Seq<char>, E>(error),
        },
        LayoutEvent::SidebarFound(found)@ matches LayoutEventView::SidebarFound(told)
            && match found {
            Ok(Some(pane)) => told == Ok::<Option<Seq<char>>, E>(Some(pane@)),
            Ok(None) => told == Ok::<Option<Seq<char>>, E>(None),
            Err(error) => told == Err::<Option<Seq<char>>, E>(error),
        },
        LayoutEvent::Placement(placement)@ matches LayoutEventView::Placement(told)
            && match placement {
            Ok(given) => told == Ok::<(SidebarPosition, nat), E>((given.0, given.1 as nat)),
            Err(error) => told == Err::<(SidebarPosition, nat), E>(error),
        },
        LayoutEvent::Ran(ran)@ == LayoutEventView::Ran(ran),
{
}

/// A placed sidebar, and one that was left elsewhere, are told with all they hold.
pub proof fn lemma_sidebars_are_told_as_they_are<E>(
    placed: PlacedSidebar,
    failure: RestoreFailure<E>,
)
    ensures
        placed@.window == placed.window_id@,
        placed@.sidebar == placed.sidebar_pane_id@,
        placed@.content == placed.content_pane_id@,
        placed@.position == placed.position,
        placed@.size == placed.size,
        LayoutError::NotRestored(failure)@ == (LayoutErrorView::NotRestored {
            error: failure.error,
            layout_error: failure.layout_error,
            window: failure.window_id@,
            sidebar: failure.sidebar_pane_id@,
            temporary: failure.temporary_window@,
        }),
{
}

} // verus!
