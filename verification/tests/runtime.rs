use a_agent::agent::ContextStatus;
use a_agent::cli::args::{CliArgs, parse_args};
use a_agent::cli::commands::{
    SlashStep, compaction_report, context_report, cost_report, find_session, handle_slash_command,
    known_prices, label_session, price_key, reasoning_report, resume_found, session_report,
    switch_to_effort, switch_to_model,
};
use a_agent::cli::prompts::{
    TurnInput, append_shell_context, contextual_prompt, mentioned_targets, target_path,
};
use a_agent::cli::rewind::{
    RewindChoice, RewindEvent, RewindRun, RewindStep, checkpoint_choices, count_revertible,
    plan_reverts, plan_writes, rewind_choice, rewind_choices, rewind_report, touched_report,
};
use a_agent::cli::runtime::{
    Run, RunEvent, RunOrder, begin_session, cancels_turn, project_root, session_lookups,
    settle_lookup, shows_reasoning,
};
use a_agent::config::{Config, ModelProfile};
use a_agent::model::{ContentBlock, ConversationItem, Role};
use a_agent::pricing::{Resolution, Schedule};
use a_agent::session::{Session, ShellHistoryItem};
use a_agent::tools::patch::{FileChange, FileSnapshot, FileWrite, content_hash};
use a_agent::tui::editor::{InputAction, InputMode};
use a_agent::tui::tool_text::without_request_scaffolding;

fn args(line: &[&str]) -> CliArgs {
    parse_args(&line.iter().map(ToString::to_string).collect(), &Vec::new()).unwrap()
}

fn session(id: &str, cwd: &str) -> Session {
    Session {
        id: id.to_owned(),
        cwd: cwd.to_owned(),
        title: None,
        head_item_id: None,
        provider_type: "responses".to_owned(),
        model: "gpt".to_owned(),
        model_profile: Some("default".to_owned()),
        effort: None,
        reasoning_visible: None,
        created_at: 0,
        updated_at: 0,
    }
}

fn config() -> Config {
    let mut config = Config::default();
    let mut plain = ModelProfile::default();
    plain.provider = "openai".to_owned();
    plain.model = "small".to_owned();
    config.models.put("plain", plain);
    config
}

fn slash(line: &str) -> SlashStep {
    let config = config();
    let selection = config.resolve_model(None, None).unwrap();
    handle_slash_command(line, &config, &selection)
}

// ---------------------------------------------------------------------------
// Commands

#[test]
fn lines_that_are_no_commands_go_to_the_model() {
    assert!(matches!(slash("fix it"), SlashStep::NotCommand));
    assert!(matches!(slash("  "), SlashStep::NotCommand));
    assert!(matches!(slash("see /model"), SlashStep::NotCommand));
}

#[test]
fn commands_without_an_argument_open_a_selector() {
    match slash("/model") {
        SlashStep::ChooseModel {
            names,
            labels,
            default,
        } => {
            assert_eq!(names, ["default", "plain"]);
            assert_eq!(labels[1], "plain  responses · small · default");
            assert_eq!(default, 0);
        }
        _ => panic!("expected a selector"),
    }
    match slash("/effort") {
        SlashStep::ChooseEffort { efforts, default } => {
            assert_eq!(efforts[default], "medium");
        }
        _ => panic!("expected a selector"),
    }
    assert!(matches!(slash("/resume"), SlashStep::ChooseSession));
    assert!(matches!(slash(" /resume a_1 x"), SlashStep::FindSession(id) if id == "a_1"));
}

#[test]
fn commands_with_an_argument_act_at_once() {
    match slash("/model plain") {
        SlashStep::Switch(switch) => {
            assert_eq!(switch.selection.name, "plain");
            assert_eq!(switch.notice, "model: plain · small · effort default");
        }
        _ => panic!("expected a switch"),
    }
    match slash("/effort high") {
        SlashStep::Switch(switch) => {
            assert_eq!(switch.selection.effort.as_deref(), Some("high"));
            assert_eq!(switch.notice, "effort: high");
        }
        _ => panic!("expected a switch"),
    }
    assert!(matches!(slash("/model nowhere"), SlashStep::Fail(_)));
    assert!(matches!(slash("/effort mighty"), SlashStep::Fail(_)));
    assert!(matches!(slash("/thinking"), SlashStep::ToggleReasoning));
    assert!(matches!(slash("/status"), SlashStep::Report));
    assert!(matches!(slash("/clear"), SlashStep::Clear));
    assert!(matches!(slash("/compact"), SlashStep::Compact));
    assert!(matches!(slash("/help"), SlashStep::Notice(text) if text.contains("/thinking")));
    assert!(
        matches!(slash("/what now"), SlashStep::Notice(text) if text == "unknown command: /what")
    );
    let config = config();
    let plain = switch_to_model(&config, "plain").ok().unwrap().selection;
    assert!(matches!(
        handle_slash_command("/effort", &config, &plain),
        SlashStep::Notice(_)
    ));
    assert!(switch_to_effort(&config, &plain, "high").is_err());
}

#[test]
fn reports_say_what_is_known() {
    let config = config();
    let selection = config.resolve_model(None, None).unwrap();
    assert_eq!(
        session_report(&session("a_1", "/repo"), &selection),
        "session a_1 · model default · gpt-5.6 · effort medium"
    );
    let mut status = ContextStatus {
        used_tokens: 110,
        provider_tokens: Some(100),
        estimated_tokens: 10,
        context_window: None,
        compact_at: None,
        max_output_tokens: 100,
    };
    assert_eq!(context_report(&status), "context 110 tokens");
    status.context_window = Some(1000);
    status.compact_at = Some(900);
    assert_eq!(
        context_report(&status),
        "context 110 / 1000 tokens · compacts at 900"
    );
    assert_eq!(reasoning_report(true), "reasoning: expanded");
    assert_eq!(reasoning_report(false), "reasoning: collapsed");
    assert_eq!(compaction_report(Some(true)), "conversation compacted");
    assert_eq!(compaction_report(Some(false)), "no conversation to compact");
    assert_eq!(compaction_report(None), "cancelled");
}

#[test]
fn a_price_is_told_or_the_reason_why_not() {
    let known = Resolution::Known {
        schedule: Schedule::flat(Default::default()),
        source: "configured prices".to_owned(),
    };
    assert_eq!(
        cost_report(&known, true, "$6.00", "test"),
        "cost $6.00 · list price · configured prices"
    );
    assert!(cost_report(&known, false, "$0.00", "test").starts_with("cost unavailable"));
    let ambiguous = Resolution::Ambiguous {
        model: "deepseek-v4".to_owned(),
        providers: vec!["azure".to_owned(), "deepseek".to_owned()],
    };
    let told = cost_report(&ambiguous, true, "", "fast");
    assert!(told.contains("azure, deepseek"), "{told}");
    assert!(
        told.contains("pricing = \"deepseek/deepseek-v4\" under [models.fast]"),
        "{told}"
    );
    let unknown = Resolution::Unknown("offline".to_owned());
    assert_eq!(
        cost_report(&unknown, true, "", "fast"),
        "cost unavailable: offline"
    );
}

#[test]
fn configured_prices_win_over_those_looked_up() {
    let mut selection = config().resolve_model(None, None).unwrap();
    let cached = || {
        let schedule = Schedule::flat(Default::default());
        Some((schedule, "openai/gpt-5.6".to_owned()))
    };
    assert_eq!(price_key(&selection), "gpt-5.6");
    assert!(known_prices(&selection, None).is_none());
    match known_prices(&selection, cached()) {
        Some(Resolution::Known { source, .. }) => assert_eq!(source, "openai/gpt-5.6"),
        _ => panic!("expected prices"),
    }
    selection.cost = Some(Default::default());
    match known_prices(&selection, cached()) {
        Some(Resolution::Known { source, .. }) => assert_eq!(source, "configured prices"),
        _ => panic!("expected prices"),
    }
    selection.pricing = Some("openai/other".to_owned());
    assert_eq!(price_key(&selection), "openai/other");
}

// ---------------------------------------------------------------------------
// Sessions

#[test]
fn sessions_are_looked_for_in_order() {
    assert!(session_lookups(&args(&["go"])).is_empty());
    assert_eq!(session_lookups(&args(&["-r", "go"])).len(), 1);
    let both = args(&["--fish-session-key", "k", "-r", "go"]);
    assert_eq!(session_lookups(&both).len(), 2);
    let by_id = session_lookups(&args(&["-r", "a_1", "go"]));
    assert_eq!(by_id.len(), 1);

    let here = Some(session("a_1", "/repo"));
    let found = settle_lookup(&by_id[0], here, "/repo").unwrap();
    assert_eq!(found.map(|session| session.id).as_deref(), Some("a_1"));
    let elsewhere = Some(session("a_1", "/other"));
    assert!(
        settle_lookup(&by_id[0], elsewhere, "/repo")
            .unwrap_err()
            .contains("different cwd")
    );
    assert!(
        settle_lookup(&by_id[0], None, "/repo")
            .unwrap_err()
            .contains("session not found: a_1")
    );
    let latest = session_lookups(&args(&["-r", "go"]));
    assert_eq!(settle_lookup(&latest[0], None, "/repo").unwrap(), None);
}

#[test]
fn a_new_session_remembers_where_it_began() {
    let selection = config().resolve_model(None, None).unwrap();
    let made = begin_session(&args(&["--fish-session-key", "k", "go"]), "/repo", &selection);
    assert_eq!(made.cwd, "/repo");
    assert_eq!(made.provider_type, "responses");
    assert_eq!(made.client_session_key.as_deref(), Some("k"));
    assert_eq!(made.effort.as_deref(), Some("medium"));
}

#[test]
fn sessions_are_told_by_their_first_message() {
    let one = session("a_1", "/repo");
    let label = label_session(&one, &Some("fix the parser lifetime\nplease".to_owned()));
    assert_eq!(label, "fix the parser lifetime  default · gpt");
    assert!(!label.contains("a_"));
    assert!(label_session(&one, &None).starts_with("(no messages)"));
    let all = vec![session("a_1", "/repo"), session("a_2", "/repo")];
    assert_eq!(find_session(&all, "a_2"), 1);
    assert_eq!(find_session(&all, "a_3"), 0);
    assert!(resume_found(None, "a_3", "/repo").is_err());
}

#[test]
fn reasoning_is_shown_as_the_session_chose() {
    let mut one = session("a_1", "/repo");
    assert!(shows_reasoning(&one, true));
    one.reasoning_visible = Some(false);
    assert!(!shows_reasoning(&one, true));
}

// ---------------------------------------------------------------------------
// Prompts

#[test]
fn targets_and_piped_input_stand_before_a_prompt() {
    let targets = vec!["/repo/a.rs".to_owned(), "/repo/b.rs".to_owned()];
    let prompt = contextual_prompt("fix", &Some("log".to_owned()), &targets);
    assert_eq!(
        prompt,
        "Files provided with this request:\n- /repo/a.rs\n- /repo/b.rs\n\nUser-provided stdin:\n\nlog\n\nfix"
    );
    assert_eq!(contextual_prompt("fix", &None, &Vec::new()), "fix");
    let sent = contextual_prompt("fix\n- this", &None, &targets);
    assert_eq!(without_request_scaffolding(&sent), "fix\n- this");
}

#[test]
fn targets_go_with_the_first_turn_only() {
    let mut input = TurnInput {
        targets: vec!["/repo/notes.txt".to_owned()],
        stdin: Some("log".to_owned()),
    };
    let first = input.take_prompt("summarize it", &vec!["/repo/notes.txt".to_owned()]);
    assert_eq!(first.matches("notes.txt").count(), 1);
    assert!(first.contains("log") && first.ends_with("summarize it"));
    let second = input.take_prompt("go on", &Vec::new());
    assert_eq!(second, "go on");
}

#[test]
fn mentions_lead_to_absolute_paths() {
    assert_eq!(
        mentioned_targets("review @src/parser.rs and @/etc/hosts.", "/repo"),
        ["/repo/src/parser.rs", "/etc/hosts"]
    );
    assert_eq!(target_path("/repo", "a.rs"), "/repo/a.rs");
}

#[test]
fn shell_commands_are_told_as_data() {
    let item = |command: &str, exit_code| ShellHistoryItem {
        id: 1,
        cwd: "/repo".to_owned(),
        command: command.to_owned(),
        exit_code,
        pipe_status: None,
        started_at: 0,
        duration_ms: None,
    };
    let mut prompt = "system".to_owned();
    append_shell_context(&mut prompt, &Vec::new());
    assert_eq!(prompt, "system");
    append_shell_context(
        &mut prompt,
        &vec![item("false", Some(1)), item("say \"hi\"", None)],
    );
    assert!(prompt.contains("Runtime shell context"));
    assert!(prompt.contains("- command: \"false\"\n  exit_code: 1\n"));
    assert!(prompt.contains("- command: \"say \\\"hi\\\"\"\n  exit_code: ?\n"));
}

// ---------------------------------------------------------------------------
// The loop

#[test]
fn one_turn_ends_the_program() {
    let mut run = Run::new(&args(&["-1", "go"]), Some("go".to_owned()));
    assert!(matches!(
        run.step(RunEvent::Started),
        RunOrder::Handle { echo: true, remember: false, .. }
    ));
    assert!(matches!(
        run.step(RunEvent::Answered { cancelled: true }),
        RunOrder::Exit(130)
    ));
    assert!(matches!(run.step(RunEvent::Done), RunOrder::Exit(0)));
    let mut empty = Run::new(&args(&["-1"]), None);
    assert!(
        matches!(empty.step(RunEvent::Started), RunOrder::Fail(text) if text.contains("--one-turn"))
    );
}

#[test]
fn lines_are_answered_as_their_mode_says() {
    let mut run = Run::new(&args(&[]), None);
    assert!(matches!(run.step(RunEvent::Started), RunOrder::Read));
    let submit = |line: &str, mode| RunEvent::Input(InputAction::Submit(line.to_owned(), mode));
    assert!(matches!(run.step(submit("  ", InputMode::Once)), RunOrder::Read));
    assert!(matches!(
        run.step(submit("one", InputMode::Multi)),
        RunOrder::Handle { echo: false, remember: true, .. }
    ));
    assert!(matches!(
        run.step(RunEvent::Answered { cancelled: true }),
        RunOrder::Read
    ));
    run.step(submit("two", InputMode::Once));
    assert!(matches!(
        run.step(RunEvent::Answered { cancelled: false }),
        RunOrder::Exit(0)
    ));
    assert!(matches!(
        run.step(RunEvent::Input(InputAction::ToggleReasoning)),
        RunOrder::ToggleReasoning
    ));
    assert!(matches!(run.step(RunEvent::Done), RunOrder::Read));
    assert!(matches!(
        run.step(RunEvent::Input(InputAction::Rewind)),
        RunOrder::Rewind
    ));
    assert!(matches!(
        run.step(RunEvent::Input(InputAction::Interrupt)),
        RunOrder::Exit(130)
    ));
    assert!(matches!(
        run.step(RunEvent::Input(InputAction::Eof)),
        RunOrder::Exit(0)
    ));
}

#[test]
fn escape_and_control_c_cancel_a_turn() {
    assert!(cancels_turn(false, true, None, false));
    assert!(cancels_turn(false, false, Some('c'), true));
    assert!(!cancels_turn(false, false, Some('c'), false));
    assert!(!cancels_turn(false, false, Some('x'), true));
    assert!(!cancels_turn(true, true, None, false));
}

#[test]
fn the_nearest_repository_is_the_project() {
    let directories = vec!["/a/b/c".to_owned(), "/a/b".to_owned(), "/a".to_owned()];
    assert_eq!(project_root(&directories, &vec![false, true, true]), "/a/b");
    assert_eq!(
        project_root(&directories, &vec![false, false, false]),
        "/a/b/c"
    );
}

// ---------------------------------------------------------------------------
// Rewinding

fn message(id: &str, blocks: Vec<ContentBlock>) -> ConversationItem {
    ConversationItem {
        id: id.to_owned(),
        session_id: "a_1".to_owned(),
        parent_id: None,
        role: Role::User,
        blocks,
        usage: None,
        created_at: 0,
    }
}

#[test]
fn messages_to_rewind_to_are_listed_latest_first() {
    let choices = checkpoint_choices(&vec![
        message("i1", vec![ContentBlock::Text("first".to_owned())]),
        message("i2", vec![ContentBlock::Text("list\n\nsecond".to_owned())]),
        message("i3", Vec::new()),
    ]);
    let pair = |id: &str, label: &str| (id.to_owned(), label.to_owned());
    assert_eq!(
        choices,
        [pair("i3", "i3"), pair("i2", "second"), pair("i1", "first")]
    );
}

fn snapshot(path: &str, change: FileChange, before: Option<&str>, after: &str) -> FileSnapshot {
    FileSnapshot {
        path: path.to_owned(),
        change,
        before: before.map(str::to_owned),
        after_len: after.len() as u64,
        after_hash: content_hash(after),
        added: 1,
        removed: 1,
        restorable: true,
    }
}

#[test]
fn a_rewind_says_what_it_would_do_to_each_file() {
    let snapshots = vec![
        snapshot("/new", FileChange::Added, None, "fresh"),
        snapshot("/edit", FileChange::Modified, Some("old\n"), "new\n"),
        snapshot("/gone", FileChange::Deleted, Some("text"), ""),
        snapshot("/mine", FileChange::Modified, Some("old\n"), "new\n"),
    ];
    let current = vec![
        Ok("fresh".to_owned()),
        Ok("new\n".to_owned()),
        Err("no such file".to_owned()),
        Ok("edited by hand\n".to_owned()),
    ];
    let plan = plan_reverts(&snapshots, &current);
    let told = plan
        .iter()
        .map(|line| (line.action.as_str(), line.path.as_str(), line.blocked))
        .collect::<Vec<_>>();
    assert_eq!(
        told,
        [
            ("delete", "/new", false),
            ("restore", "/edit", false),
            ("recreate", "/gone", false),
            ("keep", "/mine", true),
        ]
    );
    assert_eq!(plan[1].detail, "+1 -1");
    assert_eq!(count_revertible(&plan), 3);
    let writes = plan_writes(&snapshots, &current)
        .into_iter()
        .map(Result::unwrap)
        .collect::<Vec<_>>();
    assert_eq!(
        writes,
        [
            FileWrite::Remove {
                path: "/new".to_owned()
            },
            FileWrite::Restore {
                path: "/edit".to_owned(),
                content: "old\n".to_owned()
            },
            FileWrite::Restore {
                path: "/gone".to_owned(),
                content: "text".to_owned()
            },
        ]
    );
}

fn edited() -> FileSnapshot {
    snapshot("/edit", FileChange::Modified, Some("old\n"), "new\n")
}

/// A rewind that has come to its choice.
fn offered() -> RewindRun {
    let text = |text: &str| vec![ContentBlock::Text(text.to_owned())];
    let messages = vec![message("i1", text("first")), message("i2", text("second"))];
    let (run, step) = RewindRun::new().step(RewindEvent::Messages(messages));
    assert!(matches!(step, RewindStep::Choose(labels) if labels == ["second", "first"]));
    let (run, step) = run.step(RewindEvent::Chosen(Some(1)));
    assert!(matches!(step, RewindStep::Find(id) if id == "i1"));
    let (run, step) = run.step(RewindEvent::Found(vec![edited()]));
    assert!(matches!(step, RewindStep::Read(paths) if paths == ["/edit"]));
    let (run, step) = run.step(RewindEvent::Held(vec![Ok("new\n".to_owned())]));
    match step {
        RewindStep::Offer {
            notice,
            plan,
            choices,
        } => {
            assert!(notice.contains("touched 1 file(s)"), "{notice}");
            assert_eq!(plan[0].action, "restore");
            assert_eq!(choices.len(), 3);
        }
        _ => panic!("expected an offer"),
    }
    run
}

#[test]
fn a_rewind_reverts_files_on_demand() {
    let (run, step) = offered().step(RewindEvent::Decided(Some(1)));
    match step {
        RewindStep::Move {
            item_id,
            writes,
            forget,
        } => {
            assert_eq!(item_id, "i1");
            assert_eq!(writes.len(), 1);
            assert!(forget);
        }
        _ => panic!("expected a move"),
    }
    let (_, step) = run.step(RewindEvent::Moved(1));
    assert!(matches!(step, RewindStep::Say(text) if text.contains("reverted 1 file(s)")));
}

#[test]
fn a_rewind_can_leave_files_as_they_are_or_be_cancelled() {
    let (_, step) = offered().step(RewindEvent::Decided(Some(0)));
    assert!(matches!(step, RewindStep::Move { writes, forget: false, .. } if writes.is_empty()));
    for choice in [Some(2), None] {
        let (_, step) = offered().step(RewindEvent::Decided(choice));
        assert!(matches!(step, RewindStep::Say(text) if text == "cancelled"));
    }
    let (_, step) = RewindRun::new().step(RewindEvent::Messages(Vec::new()));
    assert!(matches!(step, RewindStep::Say(text) if text == "no user messages to rewind to"));
}

#[test]
fn a_rewind_without_touched_files_asks_nothing_more() {
    let messages = vec![message("i1", Vec::new())];
    let (run, _) = RewindRun::new().step(RewindEvent::Messages(messages));
    let (run, _) = run.step(RewindEvent::Chosen(Some(0)));
    let (run, step) = run.step(RewindEvent::Found(Vec::new()));
    assert!(matches!(step, RewindStep::Move { item_id, .. } if item_id == "i1"));
    let (_, step) = run.step(RewindEvent::Moved(0));
    let preserved = "rewound; the previous branch is preserved";
    assert!(matches!(step, RewindStep::Say(text) if text == preserved));
}

#[test]
fn one_choice_covers_all_outcomes() {
    assert_eq!(
        rewind_choices(1),
        [
            "rewind the conversation only",
            "rewind and revert 1 file",
            "cancel"
        ]
    );
    assert_eq!(rewind_choices(0).len(), 2);
    assert_eq!(rewind_choice(1, Some(0)), RewindChoice::ConversationOnly);
    assert_eq!(rewind_choice(1, Some(1)), RewindChoice::Revert);
    assert_eq!(rewind_choice(0, Some(1)), RewindChoice::Cancel);
    assert_eq!(rewind_choice(1, Some(2)), RewindChoice::Cancel);
    assert_eq!(rewind_choice(1, None), RewindChoice::Cancel);
    assert!(touched_report(1).contains("touched 1 file(s)"));
    let only = rewind_report(RewindChoice::ConversationOnly, 1, 0);
    assert!(only.contains("files left as they are"), "{only}");
    let none = rewind_report(RewindChoice::ConversationOnly, 0, 0);
    assert_eq!(none, "rewound; the previous branch is preserved");
    let reverted = rewind_report(RewindChoice::Revert, 1, 1);
    assert!(reverted.contains("reverted 1 file(s)"), "{reverted}");
    assert_eq!(rewind_report(RewindChoice::Cancel, 1, 0), "cancelled");
}
