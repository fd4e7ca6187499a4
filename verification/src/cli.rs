//! Validation of command-line commands: the decision from a parsed command
//! to the action the surrounding tool should perform, or the exact reason it
//! is rejected. Argument parsing and the actions themselves live outside the
//! library.

use vstd::prelude::*;

verus! {

/// A parsed command, as the surrounding tool hands it in.
#[derive(Debug, PartialEq)]
pub enum CliCommand {
    CreateProject { project_name: String },
    Init { env: String },
    Run,
    Build { env: String, output: String },
    Install { library: String },
}

/// The action a validated command asks for.
#[derive(Debug, PartialEq)]
pub enum CliAction {
    CreateProject { project_name: String },
    InitProject { env: String },
    RunServer,
    BuildProject { env: String, output: String },
    InstallLibrary { library: String },
}

/// Why a command was rejected.
#[derive(Debug, Clone, Copy, PartialEq, Eq, Structural)]
pub enum CliError {
    /// `Init` accepts only the `development` and `production` environments.
    InvalidInitEnv,
    /// `Build` accepts only the `node` and `python` environments.
    InvalidBuildEnv,
    /// `Install` accepts only the `tailwind` and `bootstrap` libraries.
    UnknownLibrary,
}

/// An `Init` environment is accepted.
pub open spec fn init_env_ok(env: Seq<char>) -> bool {
    env == "development"@ || env == "production"@
}

/// A `Build` environment is accepted.
pub open spec fn build_env_ok(env: Seq<char>) -> bool {
    env == "node"@ || env == "python"@
}

/// An `Install` library is accepted.
pub open spec fn library_ok(library: Seq<char>) -> bool {
    library == "tailwind"@ || library == "bootstrap"@
}

/// Validates a command: every command passes through unchanged but for the
/// environment and library checks, whose exact acceptance is stated below.
pub fn run_cli(cmd: CliCommand) -> (r: Result<CliAction, CliError>)
    ensures
        match cmd {
            CliCommand::CreateProject { project_name } => r matches Ok(a) && a
                == (CliAction::CreateProject { project_name }),
            CliCommand::Init { env } => if init_env_ok(env@) {
                r matches Ok(a) && a == (CliAction::InitProject { env })
            } else {
                r == Err::<CliAction, CliError>(CliError::InvalidInitEnv)
            },
            CliCommand::Run => r matches Ok(a) && a == CliAction::RunServer,
            CliCommand::Build { env, output } => if build_env_ok(env@) {
                r matches Ok(a) && a == (CliAction::BuildProject { env, output })
            } else {
                r == Err::<CliAction, CliError>(CliError::InvalidBuildEnv)
            },
            CliCommand::Install { library } => if library_ok(library@) {
                r matches Ok(a) && a == (CliAction::InstallLibrary { library })
            } else {
                r == Err::<CliAction, CliError>(CliError::UnknownLibrary)
            },
        },
{
    match cmd {
        CliCommand::CreateProject { project_name } => Ok(
            CliAction::CreateProject { project_name },
        ),
        CliCommand::Init { env } => {
            let dev = "development".to_owned();
            let prod = "production".to_owned();
            if env == dev || env == prod {
                Ok(CliAction::InitProject { env })
            } else {
                Err(CliError::InvalidInitEnv)
            }
        },
        CliCommand::Run => Ok(CliAction::RunServer),
        CliCommand::Build { env, output } => {
            let node_env = "node".to_owned();
            let python_env = "python".to_owned();
            if env == node_env || env == python_env {
                Ok(CliAction::BuildProject { env, output })
            } else {
                Err(CliError::InvalidBuildEnv)
            }
        },
        CliCommand::Install { library } => {
            let tailwind = "tailwind".to_owned();
            let bootstrap = "bootstrap".to_owned();
            if library == tailwind || library == bootstrap {
                Ok(CliAction::InstallLibrary { library })
            } else {
                Err(CliError::UnknownLibrary)
            }
        },
    }
}

} // verus!
