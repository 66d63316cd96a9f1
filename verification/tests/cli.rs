use std::collections::HashSet;

use a_agent::cli::args::{CliArgs, parse_args, parse_args_with};
use a_agent::cli::runtime::{Opening, first_prompt, opening};

fn parser(args: &[&str]) -> CliArgs {
    let paths = HashSet::from(["src/a.rs", "src/b.rs"]);
    parse_args_with(args.iter().map(ToString::to_string).collect(), |value: &str| {
        paths.contains(value)
    })
    .expect("arguments should parse")
}

fn refusal(args: &[&str]) -> String {
    parse_args_with(args.iter().map(ToString::to_string).collect(), |_: &str| false)
        .unwrap_err()
        .to_string()
}

#[test]
fn parses_one_turn_prompt_and_targeted_files() {
    let parsed = parser(&["-1", "src/a.rs", "src/b.rs", "fix it"]);
    assert!(parsed.one_turn);
    assert_eq!(parsed.files, ["src/a.rs", "src/b.rs"]);
    assert_eq!(parsed.prompt.as_deref(), Some("fix it"));
}

#[test]
fn treats_one_existing_path_as_a_target() {
    let parsed = parser(&["src/a.rs"]);
    assert_eq!(parsed.files, ["src/a.rs"]);
    assert_eq!(parsed.prompt, None);
}

#[test]
fn distinguishes_cwd_resume_from_explicit_session() {
    let cwd_resume = parser(&["-r", "continue"]);
    assert!(cwd_resume.resume);
    assert_eq!(cwd_resume.prompt.as_deref(), Some("continue"));

    let explicit = parser(&["-r", "a_1234", "continue"]);
    assert_eq!(explicit.resume_session_id.as_deref(), Some("a_1234"));
    assert_eq!(explicit.prompt.as_deref(), Some("continue"));
}

#[test]
fn double_dash_stops_option_parsing() {
    let parsed = parser(&["-1", "--", "-r is text"]);
    assert_eq!(parsed.prompt.as_deref(), Some("-r is text"));
}

#[test]
fn rejects_unknown_options() {
    let error = parse_args_with(vec!["--wat".to_owned()], |_: &str| false).unwrap_err();
    assert!(error.to_string().contains("unknown option"));
}

#[test]
fn parses_hidden_fish_ai_mode() {
    let parsed = parser(&["--fish-ai", "-r", "-1", "fix it"]);
    assert!(parsed.fish_ai);
    assert!(parsed.resume);
    assert!(parsed.one_turn);
    assert_eq!(parsed.prompt.as_deref(), Some("fix it"));
}

#[test]
fn parses_internal_shell_history_record() {
    let parsed = parse_args_with(
        [
            "__record-shell",
            "--cwd",
            "/repo",
            "--command",
            "cargo test",
            "--exit-code",
            "101",
            "--started-at",
            "123",
            "--duration-ms",
            "45",
            "--pipe-status",
            "101 0",
        ]
        .into_iter()
        .map(str::to_owned)
        .collect(),
        |_: &str| false,
    )
    .unwrap();
    let record = parsed.shell_record.unwrap();
    assert_eq!(record.cwd, "/repo");
    assert_eq!(record.command, "cargo test");
    assert_eq!(record.exit_code, Some(101));
    assert_eq!(record.started_at, 123);
    assert_eq!(record.duration_ms, Some(45));
    assert_eq!(record.pipe_status.as_deref(), Some("101 0"));
}

#[test]
fn known_paths_are_targets_too() {
    let args = vec!["src/a.rs".to_owned(), "explain".to_owned()];
    let parsed = parse_args(&args, &vec!["src/a.rs".to_owned()]).unwrap();
    assert_eq!(parsed.files, ["src/a.rs"]);
    assert_eq!(parsed.prompt.as_deref(), Some("explain"));
    let none = parse_args(&args, &Vec::new()).unwrap();
    assert!(none.files.is_empty());
}

#[test]
fn a_shell_record_needs_its_fields() {
    assert!(!refusal(&["__record-shell"]).is_empty());
    assert!(!refusal(&["__record-shell", "--cwd"]).is_empty());
    assert!(
        !refusal(&[
            "__record-shell", "--cwd", "/repo", "--command", "ls", "--started-at", "soon",
        ])
        .is_empty()
    );
}

#[test]
fn arguments_say_what_the_program_is_for() {
    assert_eq!(opening(&parser(&["--help"])), Opening::Help);
    assert_eq!(opening(&parser(&["--version"])), Opening::Version);
    assert_eq!(opening(&parser(&["--install-fish"])), Opening::InstallFish);
    assert_eq!(opening(&parser(&["fix it"])), Opening::Agent);
    assert_eq!(opening(&parser(&["--help", "--version"])), Opening::Help);
}

#[test]
fn fish_hands_its_prompt_over_in_the_environment() {
    let fish = parser(&["--fish-ai", "-1"]);
    assert_eq!(
        first_prompt(&fish, Some("from fish".to_owned())).as_deref(),
        Some("from fish")
    );
    assert_eq!(first_prompt(&fish, Some("  \n".to_owned())), None);
    assert_eq!(first_prompt(&fish, None), None);
    let plain = parser(&["-1", "from the line"]);
    assert_eq!(
        first_prompt(&plain, Some("from fish".to_owned())).as_deref(),
        Some("from the line")
    );
}
