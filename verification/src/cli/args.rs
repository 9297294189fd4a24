//! Commands and the work they ask for.
use crate::base::path;
use vstd::prelude::*;

verus! {

/// Steps of the demo where none are given.
pub const DEMO_STEPS: u64 = 2000;

/// Port of the web dashboard where none is given.
pub const DEFAULT_PORT: u16 = 8787;

/// Project name of a wrapped command where none is given.
pub const DEFAULT_PROJECT: &'static str = "run";

/// Events waiting for a dashboard before new ones are dropped.
pub const EVENT_BUFFER: usize = 8192;

/// Milliseconds between two looks at a metric log.
pub const TAIL_INTERVAL: u64 = 200;

/// The directory for runs where none is given.
pub const LOG_DIR: &'static str = "logs";

/// The command line.
#[derive(Debug, PartialEq)]
pub struct Cli {
    pub command: Commands,
}

/// The commands.
#[allow(inconsistent_fields)]
#[derive(Debug, PartialEq)]
pub enum Commands {
    /// A synthetic run with the live dashboard.
    Demo { steps: u64 },
    /// The terminal dashboard on a run directory or a socket.
    Tui { run_dir: Option<String>, socket: Option<String>, compare: Option<String> },
    /// The terminal dashboard on a run directory or a metric log.
    Watch { path: String, compare: Option<String> },
    /// The web dashboard on a run directory, a socket, or a directory of runs.
    Web {
        run_dir: Option<String>,
        socket: Option<String>,
        port: u16,
        compare: Option<String>,
        project: Option<String>,
    },
    /// The list of runs.
    Runs { log_dir: Option<String> },
    /// The final values of two runs.
    Compare { run_a: String, run_b: String },
    /// A run's metrics in another format.
    Export { format: ExportFormat },
    /// The sidecar engine.
    Engine { project: String, socket: String, log_dir: Option<String> },
    /// A training command with a sidecar engine beside it.
    SlurmWrap {
        project: String,
        socket: Option<String>,
        log_dir: Option<String>,
        command: Vec<String>,
    },
}

/// Formats to export to.
#[allow(inconsistent_fields)]
#[derive(Debug, PartialEq)]
pub enum ExportFormat {
    /// CSV, to a file or to the standard output.
    Csv { run_dir: String, output: Option<String> },
    /// Parquet, to a file.
    Parquet { run_dir: String, output: String },
}

/// Where a dashboard gets its events.
#[derive(Debug, PartialEq)]
pub enum Source {
    /// The metric log of a run directory, or the log itself.
    RunDir(String),
    /// A sidecar's socket.
    Socket(String),
}

/// The work that a command asks for.
#[allow(inconsistent_fields)]
#[derive(Debug, PartialEq)]
pub enum Plan {
    Demo { steps: u64 },
    Dashboard { source: Source, compare: Option<String> },
    Serve { source: Source, port: u16, compare: Option<String> },
    ServeProject { dir: String, port: u16 },
    ListRuns { log_dir: Option<String> },
    Compare { run_a: String, run_b: String },
    ExportCsv { run_dir: String, output: Option<String> },
    ExportParquet { run_dir: String, output: String },
    Engine { project: String, socket: String, log_dir: Option<String> },
    Wrap {
        project: String,
        socket: Option<String>,
        log_dir: Option<String>,
        program: String,
        args: Vec<String>,
    },
}

/// Why a dashboard has nothing to show.
pub open spec fn no_target() -> Seq<char> {
    "specify --run-dir or --socket"@
}

/// Why there is nothing to wrap.
pub open spec fn no_command() -> Seq<char> {
    "slurm-wrap: no command given after `--`"@
}

/// Where a dashboard gets its events: a run directory comes before a socket.
pub open spec fn source_of(run_dir: Option<String>, socket: Option<String>) -> Option<Source> {
    match (run_dir, socket) {
        (Some(dir), _) => Some(Source::RunDir(dir)),
        (None, Some(sock)) => Some(Source::Socket(sock)),
        (None, None) => None,
    }
}

fn pick_source(run_dir: Option<String>, socket: Option<String>) -> (r: Result<Source, String>)
    ensures
        match r {
            Ok(source) => source_of(run_dir, socket) == Some(source),
            Err(e) => source_of(run_dir, socket) is None && e@ == no_target(),
        },
{
    match (run_dir, socket) {
        (Some(dir), _) => Ok(Source::RunDir(dir)),
        (None, Some(sock)) => Ok(Source::Socket(sock)),
        (None, None) => Err("specify --run-dir or --socket".to_owned()),
    }
}

/// The terminal dashboard on a run directory.
pub fn cmd_watch(path: String, compare: Option<String>) -> (r: Plan)
    ensures
        r == (Plan::Dashboard { source: Source::RunDir(path), compare }),
{
    Plan::Dashboard { source: Source::RunDir(path), compare }
}

/// The terminal dashboard on a socket.
pub fn cmd_socket_tui(sock: String, compare: Option<String>) -> (r: Plan)
    ensures
        r == (Plan::Dashboard { source: Source::Socket(sock), compare }),
{
    Plan::Dashboard { source: Source::Socket(sock), compare }
}

/// The terminal dashboard, on whichever target is given; a run directory comes
/// first.
pub fn cmd_tui(
    run_dir: Option<String>,
    socket: Option<String>,
    compare: Option<String>,
) -> (r: Result<Plan, String>)
    ensures
        match r {
            Ok(plan) => source_of(run_dir, socket) is Some && plan == (Plan::Dashboard {
                source: source_of(run_dir, socket)->0,
                compare,
            }),
            Err(e) => source_of(run_dir, socket) is None && e@ == no_target(),
        },
{
    match pick_source(run_dir, socket) {
        Ok(Source::RunDir(dir)) => Ok(cmd_watch(dir, compare)),
        Ok(Source::Socket(sock)) => Ok(cmd_socket_tui(sock, compare)),
        Err(e) => Err(e),
    }
}

/// The web dashboard: a directory of runs comes before a live run.
pub fn cmd_web(
    run_dir: Option<String>,
    socket: Option<String>,
    port: u16,
    compare: Option<String>,
    project: Option<String>,
) -> (r: Result<Plan, String>)
    ensures
        match r {
            Ok(plan) => match project {
                Some(dir) => plan == (Plan::ServeProject { dir, port }),
                None => source_of(run_dir, socket) is Some && plan == (Plan::Serve {
                    source: source_of(run_dir, socket)->0,
                    port,
                    compare,
                }),
            },
            Err(e) => project is None && source_of(run_dir, socket) is None && e@ == no_target(),
        },
{
    if let Some(dir) = project {
        return Ok(Plan::ServeProject { dir, port });
    }
    match pick_source(run_dir, socket) {
        Ok(source) => Ok(Plan::Serve { source, port, compare }),
        Err(e) => Err(e),
    }
}

/// An export.
pub fn cmd_export(format: ExportFormat) -> (r: Plan)
    ensures
        match format {
            ExportFormat::Csv { run_dir, output } => r == (Plan::ExportCsv { run_dir, output }),
            ExportFormat::Parquet { run_dir, output } => r == (Plan::ExportParquet {
                run_dir,
                output,
            }),
        },
{
    match format {
        ExportFormat::Csv { run_dir, output } => Plan::ExportCsv { run_dir, output },
        ExportFormat::Parquet { run_dir, output } => Plan::ExportParquet { run_dir, output },
    }
}

/// A wrapped command: its first word is the program.
pub fn cmd_slurm_wrap(
    project: String,
    socket: Option<String>,
    log_dir: Option<String>,
    command: Vec<String>,
) -> (r: Result<Plan, String>)
    ensures
        match r {
            Ok(plan) => {
                &&& command@.len() > 0
                &&& plan matches Plan::Wrap { project: p, socket: s, log_dir: l, program, args }
                &&& p == project
                &&& s == socket
                &&& l == log_dir
                &&& program == command@[0]
                &&& args@ == command@.skip(1)
            },
            Err(e) => command@.len() == 0 && e@ == no_command(),
        },
{
    let mut args: Vec<String> = command;
    if args.len() == 0 {
        return Err("slurm-wrap: no command given after `--`".to_owned());
    }
    let program = args.remove(0);
    assert(args@ =~= command@.skip(1));
    Ok(Plan::Wrap { project, socket, log_dir, program, args })
}

/// Whether `plan` is the work that `command` asks for, or `Err` why it asks for
/// none.
pub open spec fn planned(command: Commands, plan: Result<Plan, String>) -> bool {
    match command {
        Commands::Demo { steps } => plan == Ok::<Plan, String>(Plan::Demo { steps }),
        Commands::Watch { path, compare } => plan == Ok::<Plan, String>(
            Plan::Dashboard { source: Source::RunDir(path), compare },
        ),
        Commands::Tui { run_dir, socket, compare } => match source_of(run_dir, socket) {
            Some(source) => plan == Ok::<Plan, String>(Plan::Dashboard { source, compare }),
            None => plan matches Err(e) && e@ == no_target(),
        },
        Commands::Web { run_dir, socket, port, compare, project } => match project {
            Some(dir) => plan == Ok::<Plan, String>(Plan::ServeProject { dir, port }),
            None => match source_of(run_dir, socket) {
                Some(source) => plan == Ok::<Plan, String>(Plan::Serve { source, port, compare }),
                None => plan matches Err(e) && e@ == no_target(),
            },
        },
        Commands::Runs { log_dir } => plan == Ok::<Plan, String>(Plan::ListRuns { log_dir }),
        Commands::Compare { run_a, run_b } => plan == Ok::<Plan, String>(
            Plan::Compare { run_a, run_b },
        ),
        Commands::Export { format } => match format {
            ExportFormat::Csv { run_dir, output } => plan == Ok::<Plan, String>(
                Plan::ExportCsv { run_dir, output },
            ),
            ExportFormat::Parquet { run_dir, output } => plan == Ok::<Plan, String>(
                Plan::ExportParquet { run_dir, output },
            ),
        },
        Commands::Engine { project, socket, log_dir } => plan == Ok::<Plan, String>(
            Plan::Engine { project, socket, log_dir },
        ),
        Commands::SlurmWrap { project, socket, log_dir, command } => if command@.len() == 0 {
            plan matches Err(e) && e@ == no_command()
        } else {
            &&& plan matches Ok(work)
            &&& work matches Plan::Wrap { project: p, socket: s, log_dir: l, program, args }
            &&& p == project
            &&& s == socket
            &&& l == log_dir
            &&& program == command@[0]
            &&& args@ == command@.skip(1)
        },
    }
}

/// The work that a command asks for.
pub fn dispatch(command: Commands) -> (r: Result<Plan, String>)
    ensures
        planned(command, r),
{
    match command {
        Commands::Demo { steps } => Ok(Plan::Demo { steps }),
        Commands::Watch { path, compare } => Ok(cmd_watch(path, compare)),
        Commands::Tui { run_dir, socket, compare } => cmd_tui(run_dir, socket, compare),
        Commands::Web { run_dir, socket, port, compare, project } => cmd_web(
            run_dir,
            socket,
            port,
            compare,
            project,
        ),
        Commands::Runs { log_dir } => Ok(Plan::ListRuns { log_dir }),
        Commands::Compare { run_a, run_b } => Ok(Plan::Compare { run_a, run_b }),
        Commands::Export { format } => Ok(cmd_export(format)),
        Commands::Engine { project, socket, log_dir } => Ok(
            Plan::Engine { project, socket, log_dir },
        ),
        Commands::SlurmWrap { project, socket, log_dir, command } => cmd_slurm_wrap(
            project,
            socket,
            log_dir,
            command,
        ),
    }
}

/// The directory for runs: the one given, else `logs` in the working directory.
pub fn log_base(log_dir: Option<&str>, working_dir: &str) -> (r: String)
    ensures
        r@ == (match log_dir {
            Some(dir) => dir@,
            None => path::path_join(working_dir@, LOG_DIR@),
        }),
{
    match log_dir {
        Some(dir) => dir.to_owned(),
        None => path::join_path(working_dir, LOG_DIR),
    }
}

/// The exit code for a parser's own: it has to fit in a byte, else it is 1.
pub fn clap_exit_code(code: i32) -> (r: u8)
    ensures
        r == (if 0 <= code <= 255 {
            code as int
        } else {
            1
        }),
{
    if 0 <= code && code <= 255 {
        code as u8
    } else {
        1
    }
}

/// A dashboard follows the run directory where one is given, whatever the socket; else
/// the socket; and has nothing to show without either.
pub proof fn run_directories_come_first(run_dir: Option<String>, socket: Option<String>)
    ensures
        run_dir matches Some(dir) ==> source_of(run_dir, socket) == Some(Source::RunDir(dir)),
        run_dir is None && socket is Some ==> source_of(run_dir, socket) == Some(
            Source::Socket(socket->0),
        ),
        source_of(run_dir, socket) is None <==> run_dir is None && socket is None,
{
}

/// Whatever a command asks for is planned with the arguments that it came with. A
/// directory of runs comes before a single run; a dashboard without a target and a
/// wrapper without a command are refused, and nothing else is.
pub proof fn plans_carry_their_arguments(command: Commands, plan: Result<Plan, String>)
    requires
        planned(command, plan),
    ensures
        plan is Err <==> {
            ||| command matches Commands::Tui { run_dir, socket, .. } && run_dir is None && socket
                is None
            ||| command matches Commands::Web { run_dir, socket, project, .. } && project is None
                && run_dir is None && socket is None
            ||| command matches Commands::SlurmWrap { command: words, .. } && words@.len() == 0
        },
        plan matches Err(e) ==> e@ == (if command is SlurmWrap {
            "slurm-wrap: no command given after `--`"@
        } else {
            "specify --run-dir or --socket"@
        }),
        command matches Commands::Demo { steps } ==> plan == Ok::<Plan, String>(
            Plan::Demo { steps },
        ),
        command matches Commands::Watch { path, compare } ==> plan == Ok::<Plan, String>(
            Plan::Dashboard { source: Source::RunDir(path), compare },
        ),
        command matches Commands::Tui { run_dir, socket, compare } ==> (run_dir is Some || socket
            is Some ==> plan == Ok::<Plan, String>(
            Plan::Dashboard { source: source_of(run_dir, socket)->0, compare },
        )),
        command matches Commands::Web { project, port, .. } ==> (project is Some ==> plan == Ok::<
            Plan,
            String,
        >(Plan::ServeProject { dir: project->0, port })),
        command matches Commands::Web { run_dir, socket, port, compare, project } ==> (project
            is None && (run_dir is Some || socket is Some) ==> plan == Ok::<Plan, String>(
            Plan::Serve { source: source_of(run_dir, socket)->0, port, compare },
        )),
        command matches Commands::Runs { log_dir } ==> plan == Ok::<Plan, String>(
            Plan::ListRuns { log_dir },
        ),
        command matches Commands::Compare { run_a, run_b } ==> plan == Ok::<Plan, String>(
            Plan::Compare { run_a, run_b },
        ),
        command matches Commands::Engine { project, socket, log_dir } ==> plan == Ok::<
            Plan,
            String,
        >(Plan::Engine { project, socket, log_dir }),
        command matches Commands::Export { format } ==> (format matches ExportFormat::Csv {
            run_dir,
            output,
        } ==> plan == Ok::<Plan, String>(Plan::ExportCsv { run_dir, output })),
        command matches Commands::Export { format } ==> (format matches ExportFormat::Parquet {
            run_dir,
            output,
        } ==> plan == Ok::<Plan, String>(Plan::ExportParquet { run_dir, output })),
        command matches Commands::SlurmWrap { project, socket, log_dir, command: words } ==> (
        words@.len() > 0 ==> (plan matches Ok(work) && (work matches Plan::Wrap {
            project: p,
            socket: s,
            log_dir: l,
            program,
            args,
        } && p == project && s == socket && l == log_dir && seq![program] + args@ == words@))),
{
    if let Commands::SlurmWrap { command: words, .. } = command {
        if words@.len() > 0 {
            assert(seq![words@[0]] + words@.skip(1) =~= words@);
        }
    }
}

} // verus!
