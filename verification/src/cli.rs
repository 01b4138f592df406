//! What the command line asks for, and the job that each request stands
//! for once its defaults are filled in.

use std::path::PathBuf;
use vstd::prelude::*;

verus! {

/// A path of the file system. Nothing is known of what it holds.
#[verifier::external_type_specification]
#[verifier::external_body]
pub struct ExPathBuf(PathBuf);

/// The number of tours shown where the command line names none.
pub const DEFAULT_TOURS: u32 = 1;

/// The command line as a whole.
#[derive(Debug)]
pub struct Cli {
    pub command: Command,
}

/// The two families of commands.
#[derive(Debug)]
pub enum Command {
    Format { command: FormatCommand },
    Lobby { command: LobbyCommand },
}

/// What can be asked about script files.
#[derive(Debug)]
pub enum FormatCommand {
    ScanBreakpoint,
}

/// What can be asked about a lobby.
#[derive(Debug)]
pub enum LobbyCommand {
    Info { dir: Option<PathBuf> },
    Route { dir: Option<PathBuf>, num: Option<u32>, show_arc: bool },
    GenerateInput { string: String, csv: PathBuf, template: PathBuf },
}

/// One job with everything it needs. Where the command line left the
/// directory open, the directory is still open here: the working directory
/// is found where the job is done.
#[derive(Debug)]
pub enum Job {
    /// List the breakpoints of the script files under the working
    /// directory.
    ScanBreakpoints,
    /// Show the arcs of a lobby and their times.
    Info { dir: Option<PathBuf> },
    /// Show the `buffer_size` quickest tours of a lobby, with the time of
    /// each arc if `show_arc` is set.
    Route { dir: Option<PathBuf>, buffer_size: u32, show_arc: bool },
    /// Fill a template for each arc of a tour.
    GenerateInput { string: String, csv: PathBuf, template: PathBuf },
}

/// The job that a command about script files stands for.
pub fn _format(command: FormatCommand) -> (job: Job)
    ensures
        job is ScanBreakpoints,
{
    match command {
        FormatCommand::ScanBreakpoint => Job::ScanBreakpoints,
    }
}

/// The job that a command about a lobby stands for. A request for tours
/// that names no number asks for one tour.
pub fn _lobby(command: LobbyCommand) -> (job: Job)
    ensures
        match command {
            LobbyCommand::Info { dir } => job == (Job::Info { dir }),
            LobbyCommand::Route { dir, num, show_arc } => job == (Job::Route {
                dir,
                buffer_size: match num {
                    Some(n) => n,
                    None => DEFAULT_TOURS,
                },
                show_arc,
            }),
            LobbyCommand::GenerateInput { string, csv, template } => job == (Job::GenerateInput {
                string,
                csv,
                template,
            }),
        },
{
    match command {
        LobbyCommand::Info { dir } => Job::Info { dir },
        LobbyCommand::Route { dir, num, show_arc } => {
            let buffer_size = match num {
                Some(n) => n,
                None => DEFAULT_TOURS,
            };
            Job::Route { dir, buffer_size, show_arc }
        },
        LobbyCommand::GenerateInput { string, csv, template } => Job::GenerateInput {
            string,
            csv,
            template,
        },
    }
}

impl Cli {
    /// The job that the command line stands for.
    pub fn job(self) -> (job: Job)
        ensures
            match self.command {
                Command::Format { command } => job is ScanBreakpoints,
                Command::Lobby { command } => match command {
                    LobbyCommand::Info { dir } => job == (Job::Info { dir }),
                    LobbyCommand::Route { dir, num, show_arc } => job == (Job::Route {
                        dir,
                        buffer_size: match num {
                            Some(n) => n,
                            None => DEFAULT_TOURS,
                        },
                        show_arc,
                    }),
                    LobbyCommand::GenerateInput { string, csv, template } => job == (
                    Job::GenerateInput { string, csv, template }),
                },
            },
    {
        match self.command {
            Command::Format { command } => _format(command),
            Command::Lobby { command } => _lobby(command),
        }
    }
}

} // verus!
