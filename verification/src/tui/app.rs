//! What the dashboard's loop does with keys, actions and frames.
use crate::base::queue::Offer;
use crate::base::types;
use crate::base::types::{Event, EventView};
use crate::tui::ui;
use crate::tui::ui::{UiData, UiState};
use vstd::prelude::*;

verus! {

/// The time between two redraws, in milliseconds (about 15 a second).
pub const FRAME_INTERVAL: u64 = 66;

/// A key of the keyboard.
#[derive(Debug, Clone, Copy, PartialEq, Eq, Structural)]
pub enum Key {
    /// A character key.
    Char(char),
    /// The escape key.
    Esc,
    /// Any other key.
    Other,
}

/// What a user asked for.
#[derive(Debug, Clone, Copy, PartialEq, Eq, Structural)]
pub enum Action {
    /// Quit the dashboard.
    Quit,
    /// Show the chart of the metric at this position, counted from 0.
    Select(usize),
    /// Toggle the paused state.
    TogglePause,
    /// Nothing: the key has no meaning.
    Ignore,
}

/// How long the loop keeps running.
#[derive(Debug, Clone, Copy, PartialEq, Eq, Structural)]
pub enum RunLimit {
    /// Until the user quits or the run finishes.
    UntilQuit,
    /// For this many frames.
    Frames(usize),
}

/// What a key asks for: `q` and escape quit, `p` pauses, `1` to `4` select a
/// metric.
pub open spec fn key_action(key: Key) -> Action {
    match key {
        Key::Esc => Action::Quit,
        Key::Char(c) => if c == 'q' || c == 'Q' {
            Action::Quit
        } else if c == 'p' || c == 'P' {
            Action::TogglePause
        } else if '1' <= c && c <= '4' {
            Action::Select((c as u32 - '1' as u32) as usize)
        } else {
            Action::Ignore
        },
        Key::Other => Action::Ignore,
    }
}

/// Maps a key to an action.
pub fn map_key(code: Key) -> (r: Action)
    ensures
        r == key_action(code),
{
    match code {
        Key::Esc => Action::Quit,
        Key::Char(c) => if c == 'q' || c == 'Q' {
            Action::Quit
        } else if c == 'p' || c == 'P' {
            Action::TogglePause
        } else if '1' <= c && c <= '4' {
            Action::Select((c as u32 - '1' as u32) as usize)
        } else {
            Action::Ignore
        },
        Key::Other => Action::Ignore,
    }
}

/// Whether the key reader goes on after an action: it ends once a quit was
/// queued or the dashboard is gone. A full queue only drops the action.
pub fn keep_reading(action: Action, handed: Offer) -> (r: bool)
    ensures
        r == !(handed == Offer::Gone || (handed == Offer::Taken && action == Action::Quit)),
{
    match handed {
        Offer::Gone => false,
        Offer::Taken => action != Action::Quit,
        Offer::Full => true,
    }
}

/// The state after the first `k` events.
pub open spec fn events_applied(s: UiData, events: Seq<EventView>, k: int) -> UiData
    decreases k,
{
    if k <= 0 {
        s
    } else {
        ui::state_after(events_applied(s, events, k - 1), events[k - 1])
    }
}

/// The state after an action.
pub open spec fn action_applied(s: UiData, action: Action) -> UiData {
    match action {
        Action::Select(n) => if n < s.metrics.len() {
            UiData { selected: n, ..s }
        } else {
            s
        },
        Action::TogglePause => UiData { paused: !s.paused, ..s },
        Action::Quit => s,
        Action::Ignore => s,
    }
}

/// The first quit from position `i` on, or the end.
pub open spec fn first_quit(actions: Seq<Action>, i: int) -> int
    decreases actions.len() - i,
{
    if i >= actions.len() || actions[i] == Action::Quit {
        i
    } else {
        first_quit(actions, i + 1)
    }
}

/// The state after the first `k` actions.
pub open spec fn actions_applied(s: UiData, actions: Seq<Action>, k: int) -> UiData
    decreases k,
{
    if k <= 0 {
        s
    } else {
        action_applied(actions_applied(s, actions, k - 1), actions[k - 1])
    }
}

/// What the loop does with a frame.
#[derive(Debug, Clone, Copy, PartialEq, Eq, Structural)]
pub enum FrameOutcome {
    /// The user quit: draw nothing and return.
    Quit,
    /// Draw unless paused, and return if this was the last frame.
    Frame { draw: bool, last: bool },
}

/// The state after a frame: all waiting events, then the actions up to a quit.
pub open spec fn frame_state(s: UiData, events: Seq<EventView>, actions: Seq<Action>) -> UiData {
    actions_applied(
        events_applied(s, events, events.len() as int),
        actions,
        first_quit(actions, 0),
    )
}

/// What the loop does with a frame, after `frames` frames before it.
pub open spec fn frame_outcome(
    s: UiData,
    actions: Seq<Action>,
    frames: usize,
    limit: RunLimit,
) -> FrameOutcome {
    if first_quit(actions, 0) < actions.len() {
        FrameOutcome::Quit
    } else {
        FrameOutcome::Frame {
            draw: !s.paused,
            last: match limit {
                RunLimit::UntilQuit => s.finished,
                RunLimit::Frames(max) => frames + 1 >= max,
            },
        }
    }
}

/// One turn of the dashboard's loop: reduces the waiting `events`, applies the
/// waiting `actions`, and says whether to draw and whether to go on.
///
/// `frames` counts the turns before this one. The loop ends when the user
/// quits, when the frame limit is reached, or, without such a limit, when the
/// run has finished and its events are drained.
pub fn run_frame(
    state: &mut UiState,
    events: &Vec<Event>,
    actions: &Vec<Action>,
    frames: usize,
    limit: RunLimit,
) -> (r: FrameOutcome)
    ensures
        final(state)@ == frame_state(old(state)@, types::event_views(events@), actions@),
        r == frame_outcome(final(state)@, actions@, frames, limit),
{
    let ghost s0 = state@;
    let ghost es = types::event_views(events@);
    let mut i: usize = 0;
    while i < events.len()
        invariant
            i <= events@.len(),
            es == types::event_views(events@),
            state@ == events_applied(s0, es, i as int),
        decreases events.len() - i,
    {
        state.apply(&events[i]);
        i = i + 1;
    }
    let ghost s1 = state@;
    let mut k: usize = 0;
    while k < actions.len() && actions[k] != Action::Quit
        invariant
            k <= actions@.len(),
            first_quit(actions@, 0) == first_quit(actions@, k as int),
            state@ == actions_applied(s1, actions@, k as int),
        decreases actions.len() - k,
    {
        match actions[k] {
            Action::Select(n) => state.select(n),
            Action::TogglePause => state.toggle_pause(),
            Action::Quit => {},
            Action::Ignore => {},
        }
        k = k + 1;
    }
    if k < actions.len() {
        return FrameOutcome::Quit;
    }
    let last: bool = match limit {
        RunLimit::UntilQuit => state.finished,
        RunLimit::Frames(max) => max <= 1 || frames >= max - 1,
    };
    FrameOutcome::Frame { draw: !state.paused, last }
}

/// Selecting and pausing keep a sound state sound, whatever events came before.
pub proof fn frames_keep_state_sound(s: UiData, events: Seq<EventView>, actions: Seq<Action>)
    requires
        ui::sound(s),
    ensures
        ui::sound(frame_state(s, events, actions)),
{
    lemma_events_sound(s, events, events.len() as int);
    lemma_actions_sound(
        events_applied(s, events, events.len() as int),
        actions,
        first_quit(actions, 0),
    );
}

proof fn lemma_events_sound(s: UiData, events: Seq<EventView>, k: int)
    requires
        ui::sound(s),
    ensures
        ui::sound(events_applied(s, events, k)),
    decreases k,
{
    if k > 0 {
        lemma_events_sound(s, events, k - 1);
        ui::events_keep_state_sound(events_applied(s, events, k - 1), events[k - 1]);
    }
}

proof fn lemma_actions_sound(s: UiData, actions: Seq<Action>, k: int)
    requires
        ui::sound(s),
    ensures
        ui::sound(actions_applied(s, actions, k)),
    decreases k,
{
    if k > 0 {
        lemma_actions_sound(s, actions, k - 1);
    }
}

/// `q` and escape quit, `p` pauses, the digits 1 to 4 select the first to the fourth
/// metric, in either case of the letters, and no other key does anything.
pub proof fn keys_do_what_they_say(c: char)
    ensures
        key_action(Key::Esc) == Action::Quit,
        key_action(Key::Other) == Action::Ignore,
        key_action(Key::Char(c)) == Action::Quit <==> c == 'q' || c == 'Q',
        key_action(Key::Char(c)) == Action::TogglePause <==> c == 'p' || c == 'P',
        c == '1' ==> key_action(Key::Char(c)) == Action::Select(0),
        c == '2' ==> key_action(Key::Char(c)) == Action::Select(1),
        c == '3' ==> key_action(Key::Char(c)) == Action::Select(2),
        c == '4' ==> key_action(Key::Char(c)) == Action::Select(3),
        key_action(Key::Char(c)) is Select ==> c == '1' || c == '2' || c == '3' || c == '4',
{
    assert('1' as u32 == 49);
}

/// A frame takes in every waiting event, in order.
pub proof fn frames_take_in_every_event(s: UiData, events: Seq<EventView>, k: int)
    requires
        0 <= k <= events.len(),
    ensures
        events_applied(s, events, k) == ui::reached(s, events.take(k)),
    decreases k,
{
    if k > 0 {
        frames_take_in_every_event(s, events, k - 1);
        assert(events.take(k).drop_last() =~= events.take(k - 1));
        assert(events.take(k).last() == events[k - 1]);
    } else {
        assert(events.take(0) =~= Seq::<EventView>::empty());
    }
}

/// Actions count up to the first quit and not beyond it; a loop without one goes on
/// until its limit, or until the run has finished where there is none, and draws unless
/// it is paused.
pub proof fn frames_end_at_the_first_quit(
    s: UiData,
    actions: Seq<Action>,
    frames: usize,
    limit: RunLimit,
)
    ensures
        frame_outcome(s, actions, frames, limit) == FrameOutcome::Quit <==> actions.contains(
            Action::Quit,
        ),
        0 <= first_quit(actions, 0) <= actions.len(),
        forall|i: int| 0 <= i < first_quit(actions, 0) ==> #[trigger] actions[i] != Action::Quit,
        first_quit(actions, 0) < actions.len() ==> actions[first_quit(actions, 0)] == Action::Quit,
        frame_outcome(s, actions, frames, limit) matches FrameOutcome::Frame { draw, last } ==> {
            &&& draw == !s.paused
            &&& limit is UntilQuit ==> last == s.finished
            &&& limit matches RunLimit::Frames(max) ==> (last <==> frames + 1 >= max)
        },
{
    lemma_first_quit(actions, 0);
    let q = first_quit(actions, 0);
    if q < actions.len() {
        assert(actions.contains(actions[q]));
    } else if actions.contains(Action::Quit) {
        let i = choose|i: int| 0 <= i < actions.len() && actions[i] == Action::Quit;
        assert(actions[i] != Action::Quit);
    }
}

proof fn lemma_first_quit(actions: Seq<Action>, i: int)
    requires
        0 <= i <= actions.len(),
    ensures
        i <= first_quit(actions, i) <= actions.len(),
        forall|j: int| i <= j < first_quit(actions, i) ==> #[trigger] actions[j] != Action::Quit,
        first_quit(actions, i) < actions.len() ==> actions[first_quit(actions, i)] == Action::Quit,
    decreases actions.len() - i,
{
    if i < actions.len() && actions[i] != Action::Quit {
        lemma_first_quit(actions, i + 1);
    }
}

/// Each action changes what it is for and nothing else: selecting shows a metric that is
/// there, and pausing turns drawing off and on again.
pub proof fn actions_change_their_own_part(s: UiData, actions: Seq<Action>, k: int)
    requires
        0 <= k < actions.len(),
    ensures
        ({
            let before = actions_applied(s, actions, k);
            let after = actions_applied(s, actions, k + 1);
            &&& actions_applied(s, actions, 0) == s
            &&& actions[k] matches Action::Select(n) ==> after.selected == (if n
                < before.metrics.len() {
                n
            } else {
                before.selected
            })
            &&& !(actions[k] is Select) ==> after.selected == before.selected
            &&& after.paused == (if actions[k] is TogglePause {
                !before.paused
            } else {
                before.paused
            })
            &&& after == (UiData { selected: after.selected, paused: after.paused, ..before })
        }),
{
}

} // verus!
