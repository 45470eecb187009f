//! The commands of the program and their arguments.

use vstd::prelude::*;

verus! {

/// The arguments of the log collector.
#[derive(Debug)]
pub struct LogsArgs {
    /// The serial number of the device; without it the one device that is ready is
    /// taken, or the user is asked.
    pub serial: Option<String>,
}

/// The arguments of the screenshot command.
#[derive(Debug)]
pub struct ScreenshotArgs {
    pub serial: Option<String>,
}

/// The arguments of the network watch.
#[derive(Debug)]
pub struct NetwatchArgs {
    pub serial: Option<String>,
    /// The name of the application; without it the user is asked.
    pub package: Option<String>,
}

/// The arguments of the process list.
#[derive(Debug)]
pub struct ProcsArgs {
    pub serial: Option<String>,
    /// Whether to list all processes and not just packages.
    pub all: bool,
    /// The text that names have to hold.
    pub filter: Option<String>,
}

/// A command with its arguments.
#[derive(Debug)]
pub enum Command {
    /// Collects the log of a device.
    Logs(LogsArgs),
    /// Takes a picture of the screen.
    Screenshot(ScreenshotArgs),
    /// Watches the bytes that an application sends and receives.
    Netwatch(NetwatchArgs),
    /// Lists what runs on a device.
    Procs(ProcsArgs),
}

/// What the program is called with.
#[derive(Debug)]
pub struct Cli {
    /// The arguments of the log collector, for when no command is named.
    pub logs: LogsArgs,
    pub command: Option<Command>,
}

impl Cli {
    /// The command to run: the one that is named, else the log collector.
    pub fn resolve(self) -> (r: Command)
        ensures
            r == match self.command {
                Some(c) => c,
                None => Command::Logs(self.logs),
            },
    {
        match self.command {
            Some(c) => c,
            None => Command::Logs(self.logs),
        }
    }
}

/// A command that is named is run; where none is, the log is collected with the arguments
/// given for that.
pub proof fn law_log_is_collected_by_default(cli: Cli, r: Command)
    requires
        call_ensures(Cli::resolve, (cli,), r),
    ensures
        cli.command matches Some(c) ==> r == c,
        cli.command is None ==> (r matches Command::Logs(a) && a == cli.logs),
{
}

} // verus!
