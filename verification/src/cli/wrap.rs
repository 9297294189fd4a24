//! A training command with a sidecar engine beside it.
//!
//! The engine is started first; the command runs once the engine listens, and the
//! engine gets time to drain before it is stopped.
use crate::base::error::EmryError;
use crate::base::labels;
use crate::base::path;
use crate::base::text;
use crate::base::types::{Event, EventView, MetricRecordView};
use crate::engine::session;
use crate::store::sink;
use crate::store::sink::{JsonlSink, RecordView, SinkData};
use std::collections::BTreeMap;
use vstd::prelude::*;
use vstd::string::*;

verus! {

/// How often to look whether the engine listens.
pub const BIND_POLLS: u32 = 200;

/// How often to look whether the engine has ended.
pub const DRAIN_POLLS: u32 = 100;

/// Milliseconds between two looks.
pub const WRAP_INTERVAL: u64 = 50;

/// The name part of the socket: the job, else the process.
pub open spec fn socket_tag(job_id: Option<Seq<char>>, pid: u32) -> Seq<char> {
    match job_id {
        Some(id) if id.len() > 0 => id,
        _ => text::decimal(pid as nat),
    }
}

/// The socket of a wrapped command: the one given, else one in the directory for
/// temporary files that is named after the job, else after the process.
pub fn slurm_socket_path(
    explicit: Option<&str>,
    job_id: Option<String>,
    tmp: &str,
    pid: u32,
) -> (r: String)
    ensures
        r@ == (match explicit {
            Some(path) => path@,
            None => path::path_join(
                tmp@,
                "emry-"@ + socket_tag(
                    match job_id {
                        Some(id) => Some(id@),
                        None => None,
                    },
                    pid,
                ) + ".sock"@,
            ),
        }),
{
    if let Some(path) = explicit {
        return path.to_owned();
    }
    let tag: String = match job_id {
        Some(id) => if id.as_str().unicode_len() > 0 {
            id
        } else {
            text::decimal_text(pid as u64)
        },
        None => text::decimal_text(pid as u64),
    };
    let name = text::joined(text::joined("emry-", tag.as_str()).as_str(), ".sock");
    path::join_path(tmp, name.as_str())
}

/// The exit code of a finished command as shells give it: its own, else 128 and
/// the signal that ended it, else 1.
pub fn command_exit_code(code: Option<i32>, signal: Option<i32>) -> (r: i32)
    requires
        signal matches Some(s) ==> s <= i32::MAX - 128,
    ensures
        r == (match (code, signal) {
            (Some(c), _) => c as int,
            (None, Some(s)) => 128 + s,
            (None, None) => 1,
        }),
{
    match (code, signal) {
        (Some(c), _) => c,
        (None, Some(s)) => 128 + s,
        (None, None) => 1,
    }
}

/// The arguments of the engine.
pub fn engine_args(project: &str, socket: &str, log_dir: Option<&str>) -> (r: Vec<String>)
    ensures
        text::texts(r@) == seq!["engine"@, "--project"@, project@, "--socket"@, socket@] + (
        match log_dir {
            Some(dir) => seq!["--log-dir"@, dir@],
            None => Seq::empty(),
        }),
{
    let mut args: Vec<String> = Vec::new();
    args.push("engine".to_owned());
    args.push("--project".to_owned());
    args.push(project.to_owned());
    args.push("--socket".to_owned());
    args.push(socket.to_owned());
    if let Some(dir) = log_dir {
        args.push("--log-dir".to_owned());
        args.push(dir.to_owned());
    }
    assert(text::texts(args@) =~= seq![
        "engine"@,
        "--project"@,
        project@,
        "--socket"@,
        socket@,
    ] + (match log_dir {
        Some(dir) => seq!["--log-dir"@, dir@],
        None => Seq::empty(),
    }));
    args
}

/// The environment that points a command at its engine.
pub fn command_env(socket: &str) -> (r: Vec<(String, String)>)
    ensures
        r@.len() == 2,
        r@[0].0@ == "EMRY_MODE"@,
        r@[0].1@ == "sidecar"@,
        r@[1].0@ == "EMRY_SOCKET"@,
        r@[1].1@ == socket@,
{
    let mut env: Vec<(String, String)> = Vec::new();
    env.push(("EMRY_MODE".to_owned(), "sidecar".to_owned()));
    env.push(("EMRY_SOCKET".to_owned(), socket.to_owned()));
    env
}

/// Where a wrapped command stands.
#[derive(Debug, PartialEq)]
pub enum WrapState {
    /// The engine was started; so often it was seen not to listen.
    Binding { tried: u32 },
    /// The command runs.
    Running,
    /// The command has ended with this code; so often the engine was seen to be
    /// at work still.
    Draining { tried: u32, code: i32 },
    /// All is over.
    Done,
}

/// What is seen next.
#[derive(Debug, PartialEq)]
pub enum WrapEvent {
    /// Whether the socket is there, and how the engine has ended if it has.
    Looked { listening: bool, ended: Option<String> },
    /// The command has ended with this code.
    Finished { code: i32 },
    /// The command could not be started.
    NotStarted { program: String, error: String },
}

/// What to do next.
#[derive(Debug, PartialEq)]
pub enum WrapAction {
    /// Sleep, then look again.
    Wait,
    /// Run the command.
    RunCommand,
    /// Look at the engine without a sleep before.
    Look,
    /// Give up. `stop` says whether the engine has to be killed and waited for,
    /// `clean` whether the socket is removed.
    Fail { message: String, stop: bool, clean: bool },
    /// Wait for the engine, after killing it if `stop` says so, remove the socket,
    /// and exit with the code.
    Exit { code: i32, stop: bool },
}

/// Whether the transition from `state` on `event` leads to `next` with `action`.
pub open spec fn wrap_step(
    state: WrapState,
    event: WrapEvent,
    next: WrapState,
    action: WrapAction,
) -> bool {
    match (state, event) {
        (WrapState::Binding { tried }, WrapEvent::Looked { listening, ended }) => if tried
            >= BIND_POLLS {
            &&& next == WrapState::Done
            &&& action matches WrapAction::Fail { message, stop: true, clean: false }
            &&& message@ == "slurm-wrap: engine did not bind the socket within 10s"@
        } else if listening {
            next == WrapState::Running && action == WrapAction::RunCommand
        } else {
            match ended {
                Some(status) => {
                    &&& next == WrapState::Done
                    &&& action matches WrapAction::Fail { message, stop: false, clean: false }
                    &&& message@ == "slurm-wrap: engine exited before binding ("@ + status@ + ")"@
                },
                None => next == (WrapState::Binding { tried: (tried + 1) as u32 }) && action
                    == WrapAction::Wait,
            }
        },
        (WrapState::Running, WrapEvent::Finished { code }) => next == (WrapState::Draining {
            tried: 0,
            code,
        }) && action == WrapAction::Look,
        (WrapState::Running, WrapEvent::NotStarted { program, error }) => {
            &&& next == WrapState::Done
            &&& action matches WrapAction::Fail { message, stop: true, clean: true }
            &&& message@ == "slurm-wrap: failed to run `"@ + program@ + "`: "@ + error@
        },
        (WrapState::Draining { tried, code }, WrapEvent::Looked { listening, ended }) => if tried
            >= DRAIN_POLLS {
            next == WrapState::Done && action == (WrapAction::Exit { code, stop: true })
        } else if ended is Some {
            next == WrapState::Done && action == (WrapAction::Exit { code, stop: false })
        } else {
            next == (WrapState::Draining { tried: (tried + 1) as u32, code }) && action
                == WrapAction::Wait
        },
        _ => false,
    }
}

/// Whether an event can come in a state.
pub open spec fn can_see(state: WrapState, event: WrapEvent) -> bool {
    match (state, event) {
        (WrapState::Binding { .. }, WrapEvent::Looked { .. }) => true,
        (WrapState::Running, WrapEvent::Finished { .. }) => true,
        (WrapState::Running, WrapEvent::NotStarted { .. }) => true,
        (WrapState::Draining { .. }, WrapEvent::Looked { .. }) => true,
        _ => false,
    }
}

/// What to do next around a wrapped command, and where it then stands.
pub fn wrap_turn(state: WrapState, event: WrapEvent) -> (r: (WrapState, WrapAction))
    requires
        can_see(state, event),
    ensures
        wrap_step(state, event, r.0, r.1),
{
    match (state, event) {
        (WrapState::Binding { tried }, WrapEvent::Looked { listening, ended }) => {
            if tried >= BIND_POLLS {
                let message = "slurm-wrap: engine did not bind the socket within 10s".to_owned();
                return (WrapState::Done, WrapAction::Fail { message, stop: true, clean: false });
            }
            if listening {
                return (WrapState::Running, WrapAction::RunCommand);
            }
            match ended {
                Some(status) => {
                    let start = text::joined(
                        "slurm-wrap: engine exited before binding (",
                        status.as_str(),
                    );
                    let message = text::joined(start.as_str(), ")");
                    (WrapState::Done, WrapAction::Fail { message, stop: false, clean: false })
                },
                None => (WrapState::Binding { tried: tried + 1 }, WrapAction::Wait),
            }
        },
        (WrapState::Running, WrapEvent::Finished { code }) => (
            WrapState::Draining { tried: 0, code },
            WrapAction::Look,
        ),
        (WrapState::Running, WrapEvent::NotStarted { program, error }) => {
            let start = text::joined("slurm-wrap: failed to run `", program.as_str());
            let middle = text::joined(start.as_str(), "`: ");
            let message = text::joined(middle.as_str(), error.as_str());
            (WrapState::Done, WrapAction::Fail { message, stop: true, clean: true })
        },
        (WrapState::Draining { tried, code }, WrapEvent::Looked { listening: _, ended }) => {
            if tried >= DRAIN_POLLS {
                return (WrapState::Done, WrapAction::Exit { code, stop: true });
            }
            if ended.is_some() {
                return (WrapState::Done, WrapAction::Exit { code, stop: false });
            }
            (WrapState::Draining { tried: tried + 1, code }, WrapAction::Wait)
        },
        (other, _) => (other, WrapAction::Look),
    }
}

/// How many looks a state can still take at most.
pub open spec fn looks_left(state: WrapState) -> int {
    match state {
        WrapState::Binding { tried } => if tried >= BIND_POLLS {
            1 + DRAIN_POLLS + 2
        } else {
            BIND_POLLS - tried + 1 + DRAIN_POLLS + 2
        },
        WrapState::Running => DRAIN_POLLS + 2,
        WrapState::Draining { tried, code: _ } => if tried >= DRAIN_POLLS {
            1
        } else {
            DRAIN_POLLS - tried + 1
        },
        WrapState::Done => 0,
    }
}

/// A wrapped command comes to an end: every turn leaves fewer turns to take.
pub proof fn wrapping_ends(
    state: WrapState,
    event: WrapEvent,
    next: WrapState,
    action: WrapAction,
)
    requires
        wrap_step(state, event, next, action),
    ensures
        0 <= looks_left(next) < looks_left(state),
{
}

/// The engine never outlives the wrapper: when all is over, either it was seen to
/// have ended or it is killed.
pub proof fn no_engine_is_left_behind(
    state: WrapState,
    event: WrapEvent,
    next: WrapState,
    action: WrapAction,
)
    requires
        wrap_step(state, event, next, action),
        next == WrapState::Done,
    ensures
        ({
            let ended = event matches WrapEvent::Looked { listening: _, ended } && ended is Some;
            match action {
                WrapAction::Fail { message: _, stop, clean: _ } => stop || ended,
                WrapAction::Exit { code: _, stop } => stop || ended,
                _ => false,
            }
        }),
{
}

/// The wrapper exits with the command's own code, however the engine ends.
pub proof fn exit_codes_pass_through(
    state: WrapState,
    event: WrapEvent,
    next: WrapState,
    action: WrapAction,
    code: i32,
)
    requires
        wrap_step(state, event, next, action),
        state matches WrapState::Draining { tried: _, code: c } && c == code,
    ensures
        next matches WrapState::Draining { tried: _, code: c } ==> c == code,
        action matches WrapAction::Exit { code: c, stop: _ } ==> c == code,
        next == WrapState::Done <==> action is Exit,
{
}

/// Whether the engine goes on after one read from its socket.
#[derive(Debug, PartialEq)]
pub enum EngineNext {
    /// Read on.
    Continue,
    /// Close the log and end well.
    Finish,
    /// Close the log and end with the error.
    Abort(EmryError),
}

/// The names that the engine knows after an event.
pub open spec fn names_after(names: Map<u16, Seq<char>>, event: EventView) -> Map<u16, Seq<char>> {
    match event {
        EventView::MetricsRegistered { names: list } => labels::learned(
            names,
            list,
            list.len() as int,
        ),
        _ => names,
    }
}

/// Whether logging an event leads from one state of the log queue to another: the
/// event is offered first, and then its metric row, if it has one.
pub open spec fn logs(
    before: SinkData,
    event: EventView,
    row: Option<MetricRecordView>,
    after: SinkData,
) -> bool {
    match row {
        None => sink::offered(before, RecordView::Event(event), after),
        Some(r) => exists|middle: SinkData|
            {
                &&& #[trigger] sink::offered(before, RecordView::Event(event), middle)
                &&& sink::offered(middle, RecordView::Metric(r), after)
            },
    }
}

/// Takes what was read from the engine's socket.
///
/// An event is logged, and its metrics also as a row, so that the run can be
/// watched from its metric log. `names` holds the names that the run registered;
/// a metric without one goes under the stand-in that dashboards show. The run's
/// end ends the engine, as do the end of the stream and an error.
pub fn engine_turn(
    sink: &mut JsonlSink,
    names: &mut BTreeMap<u16, String>,
    read: Result<Option<Event>, EmryError>,
) -> (next: EngineNext)
    ensures
        match read {
            Ok(Some(event)) => {
                &&& labels::label_views(final(names)@) == names_after(
                    labels::label_views(old(names)@),
                    event@,
                )
                &&& logs(
                    old(sink)@,
                    event@,
                    session::labelled_row(labels::label_views(final(names)@), event@),
                    final(sink)@,
                )
                &&& next == (if event@ is RunFinished {
                    EngineNext::Finish
                } else {
                    EngineNext::Continue
                })
            },
            Ok(None) => final(sink)@ == old(sink)@ && final(names)@ == old(names)@ && next
                == EngineNext::Finish,
            Err(e) => final(sink)@ == old(sink)@ && final(names)@ == old(names)@ && next
                == EngineNext::Abort(e),
        },
{
    match read {
        Ok(Some(event)) => {
            let next = match &event {
                Event::RunFinished { .. } => EngineNext::Finish,
                _ => EngineNext::Continue,
            };
            match &event {
                Event::MetricsRegistered { names: list } => labels::learn_names(names, list),
                _ => {},
            }
            let row = session::labelled_record(names, &event);
            sink.write_event(event);
            match row {
                Some(r) => sink.write_metric(r),
                None => {},
            }
            next
        },
        Ok(None) => EngineNext::Finish,
        Err(e) => EngineNext::Abort(e),
    }
}

/// A run can be watched from its metric log: while the writer is there and both
/// records find room, an event that carries metrics puts itself and then its row
/// into the log queue, with every value under some name.
pub proof fn metrics_reach_both_logs(
    before: SinkData,
    names: Map<u16, Seq<char>>,
    event: EventView,
    after: SinkData,
)
    requires
        event is Metric || event is MetricsBatch,
        logs(before, event, session::labelled_row(names, event), after),
        before.open,
        after.heard,
        before.queued.len() + 2 <= before.capacity,
    ensures
        session::labelled_row(names, event) matches Some(row) && after.queued
            == before.queued.push(RecordView::Event(event)).push(RecordView::Metric(row)),
        after.dropped == before.dropped,
{
}

/// The command is run exactly when the engine is seen to listen in time: until then the
/// wrapper waits and counts its looks, and gives up when the engine has ended or the
/// looks are used up.
pub proof fn commands_wait_for_their_engine(
    tried: u32,
    listening: bool,
    ended: Option<String>,
    next: WrapState,
    action: WrapAction,
)
    requires
        wrap_step(
            WrapState::Binding { tried },
            WrapEvent::Looked { listening, ended },
            next,
            action,
        ),
    ensures
        action is RunCommand <==> listening && tried < BIND_POLLS,
        next is Running <==> listening && tried < BIND_POLLS,
        action is Wait <==> !listening && ended is None && tried < BIND_POLLS,
        action is Wait ==> next == (WrapState::Binding { tried: (tried + 1) as u32 }),
        action is Fail <==> tried >= BIND_POLLS || (!listening && ended is Some),
        action is Fail ==> next is Done,
        action matches WrapAction::Fail { stop, clean, .. } ==> stop == (tried >= BIND_POLLS)
            && !clean,
        action matches WrapAction::Fail { message, .. } ==> message@ == (if tried >= BIND_POLLS {
            "slurm-wrap: engine did not bind the socket within 10s"@
        } else {
            "slurm-wrap: engine exited before binding ("@ + (ended->0)@ + ")"@
        }),
{
}

/// Once the command has ended the engine may finish: the wrapper looks at once, waits
/// while the engine is at work, exits as soon as it has ended, and kills it only when the
/// looks are used up. A command that cannot be started ends everything.
pub proof fn engines_may_finish_their_work(
    state: WrapState,
    event: WrapEvent,
    next: WrapState,
    action: WrapAction,
)
    requires
        wrap_step(state, event, next, action),
    ensures
        state is Running && event is Finished ==> (event matches WrapEvent::Finished { code }
            && next == (WrapState::Draining { tried: 0, code }) && action is Look),
        state is Running && event is NotStarted ==> (
        action matches WrapAction::Fail { stop, clean, .. } && stop && clean && next is Done),
        state matches WrapState::Draining { tried, .. } ==> (event matches WrapEvent::Looked {
            ended,
            ..
        } && {
            &&& action is Wait <==> ended is None && tried < DRAIN_POLLS
            &&& action matches WrapAction::Exit { stop, .. } ==> stop == (tried >= DRAIN_POLLS)
            &&& action is Wait || action is Exit
            &&& next matches WrapState::Draining { tried: t, .. } ==> t == tried + 1
        }),
{
}

/// The names that an engine knows change with a name table alone, and an event without a
/// metric row is logged alone.
pub proof fn only_name_tables_teach_names(
    names: Map<u16, Seq<char>>,
    event: EventView,
    before: SinkData,
    after: SinkData,
)
    ensures
        event matches EventView::MetricsRegistered { names: list } ==> names_after(names, event)
            == labels::learned(names, list, list.len() as int),
        !(event is MetricsRegistered) ==> names_after(names, event) == names,
        logs(before, event, None, after) <==> sink::offered(
            before,
            RecordView::Event(event),
            after,
        ),
{
}

/// The name of a socket is that of the job, or the number of the process where there is
/// no job.
pub proof fn sockets_are_named_after_the_job(job_id: Option<Seq<char>>, pid: u32)
    ensures
        job_id matches Some(id) && id.len() > 0 ==> socket_tag(job_id, pid) == job_id->0,
        (job_id matches Some(id) ==> id.len() == 0) ==> text::numeral_value(
            socket_tag(job_id, pid),
        ) == pid,
{
    text::numerals_read_back(pid as nat);
}

} // verus!
