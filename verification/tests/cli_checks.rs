use reactpyx::cli::{CliAction, CliCommand, CliError};
use reactpyx::run_cli;

#[test]
fn create_project_passes_through() {
    let r = run_cli(CliCommand::CreateProject { project_name: "demo".to_string() });
    assert_eq!(r, Ok(CliAction::CreateProject { project_name: "demo".to_string() }));
}

#[test]
fn init_accepts_known_environments() {
    for env in ["development", "production"] {
        let r = run_cli(CliCommand::Init { env: env.to_string() });
        assert_eq!(r, Ok(CliAction::InitProject { env: env.to_string() }));
    }
    let r = run_cli(CliCommand::Init { env: "staging".to_string() });
    assert_eq!(r, Err(CliError::InvalidInitEnv));
}

#[test]
fn run_starts_the_server() {
    assert_eq!(run_cli(CliCommand::Run), Ok(CliAction::RunServer));
}

#[test]
fn build_accepts_known_environments() {
    let r = run_cli(CliCommand::Build { env: "node".to_string(), output: "dist".to_string() });
    assert_eq!(
        r,
        Ok(CliAction::BuildProject { env: "node".to_string(), output: "dist".to_string() })
    );
    let r = run_cli(CliCommand::Build { env: "ruby".to_string(), output: "dist".to_string() });
    assert_eq!(r, Err(CliError::InvalidBuildEnv));
}

#[test]
fn install_accepts_known_libraries() {
    for lib in ["tailwind", "bootstrap"] {
        let r = run_cli(CliCommand::Install { library: lib.to_string() });
        assert_eq!(r, Ok(CliAction::InstallLibrary { library: lib.to_string() }));
    }
    let r = run_cli(CliCommand::Install { library: "bulma".to_string() });
    assert_eq!(r, Err(CliError::UnknownLibrary));
}
