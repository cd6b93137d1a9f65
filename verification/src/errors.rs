//! The errors of the command-line tool, each with the sentence that it is
//! shown as.

use vstd::prelude::*;
use vstd::string::*;

verus! {

/// What goes wrong in the command-line tool at large.
#[derive(Clone, Debug)]
pub enum CliError {
    UnknownLogLevel,
    /// Holds what the system said of the failure.
    LoginToCluster(String),
    UnknownCliError,
}

impl CliError {
    pub open spec fn message_spec(&self) -> Seq<char> {
        match *self {
            CliError::UnknownLogLevel => "unknown log level name"@,
            CliError::LoginToCluster(_) => "cannot log to the remote cluster"@,
            CliError::UnknownCliError => "unknown cli error... ╰U╯☜(◉ɷ◉ )"@,
        }
    }

    /// The error as a sentence.
    pub fn message(&self) -> (text: String)
        ensures
            text@ == self.message_spec(),
    {
        match self {
            CliError::UnknownLogLevel => String::from_str("unknown log level name"),
            CliError::LoginToCluster(_) => String::from_str("cannot log to the remote cluster"),
            CliError::UnknownCliError => String::from_str("unknown cli error... ╰U╯☜(◉ɷ◉ )"),
        }
    }
}

/// What goes wrong when a project is scaffolded.
#[derive(Clone, Debug)]
pub enum ScaffoldError {
    /// Holds what the system said of the failure.
    ProjectFilesystemStructure(String),
    UnknownScaffoldError,
}

impl ScaffoldError {
    pub open spec fn message_spec(&self) -> Seq<char> {
        match *self {
            ScaffoldError::ProjectFilesystemStructure(_) => "cannot create project's filesystem structure"@,
            ScaffoldError::UnknownScaffoldError => "unknown scaffold error... ╰U╯☜(◉ɷ◉ )"@,
        }
    }

    /// The error as a sentence.
    pub fn message(&self) -> (text: String)
        ensures
            text@ == self.message_spec(),
    {
        match self {
            ScaffoldError::ProjectFilesystemStructure(_) => String::from_str(
                "cannot create project's filesystem structure",
            ),
            ScaffoldError::UnknownScaffoldError => String::from_str(
                "unknown scaffold error... ╰U╯☜(◉ɷ◉ )",
            ),
        }
    }
}

/// What goes wrong when a project is set up.
#[derive(Clone, Debug)]
pub enum SetupError {
    /// Holds what the system said of the failure.
    CannotCreateConfigFile(String),
    UnknownSetupError,
}

impl SetupError {
    pub open spec fn message_spec(&self) -> Seq<char> {
        match *self {
            SetupError::CannotCreateConfigFile(_) => "cannot create configuration file"@,
            SetupError::UnknownSetupError => "unknown setup error... ╰U╯☜(◉ɷ◉ )"@,
        }
    }

    /// The error as a sentence.
    pub fn message(&self) -> (text: String)
        ensures
            text@ == self.message_spec(),
    {
        match self {
            SetupError::CannotCreateConfigFile(_) => String::from_str(
                "cannot create configuration file",
            ),
            SetupError::UnknownSetupError => String::from_str("unknown setup error... ╰U╯☜(◉ɷ◉ )"),
        }
    }
}

/// What goes wrong when the source code is synchronized.
#[derive(Clone, Debug)]
pub enum HatchError {
    /// Holds what the system said of the failure.
    CannotSynchronizeProject(String),
    UnknownHatchError,
}

impl HatchError {
    pub open spec fn message_spec(&self) -> Seq<char> {
        match *self {
            HatchError::CannotSynchronizeProject(_) => "cannot synchronize project's source code"@,
            HatchError::UnknownHatchError => "unknown hatch error... ╰U╯☜(◉ɷ◉ )"@,
        }
    }

    /// The error as a sentence.
    pub fn message(&self) -> (text: String)
        ensures
            text@ == self.message_spec(),
    {
        match self {
            HatchError::CannotSynchronizeProject(_) => String::from_str(
                "cannot synchronize project's source code",
            ),
            HatchError::UnknownHatchError => String::from_str("unknown hatch error... ╰U╯☜(◉ɷ◉ )"),
        }
    }
}

} // verus!
