use a_agent::fish::{fish_script, script_path};
use a_agent::json::{compact_text, object1, text_json};
use a_agent::model::{ContentBlock, ConversationItem, Role, StreamEvent, ToolCall, ToolResult};
use a_agent::tui::blocks::RevertLine;
use a_agent::tui::editor::InputEditor;
use a_agent::tui::live::{Draw, LiveTools, ToolDisplay, live_tool_message};
use a_agent::tui::render::{InlineRenderer, RenderLimits};
use a_agent::tui::style::{Emphasis, Span, Style, Tint, show_span, show_spans};
use a_agent::tui::tool_text::{
    bash_visible_output, clean_terminal_line, format_tool_input, limited_text, parse_exit_code,
    read_detail, tool_summary, without_request_scaffolding,
};
use a_agent::tui::width::truncate_display_width;
use unicode_width::UnicodeWidthStr;

// ---------------------------------------------------------------------------
// What is written to the terminal

fn written(renderer: &mut InlineRenderer) -> String {
    renderer
        .take_draws()
        .iter()
        .filter_map(|draw| match draw {
            Draw::Write(span) => Some(show_span(span)),
            _ => None,
        })
        .collect()
}

fn stripped(text: &str) -> String {
    String::from_utf8(strip_ansi_escapes::strip(text.as_bytes())).unwrap()
}

fn text_delta(delta: &str) -> StreamEvent {
    StreamEvent::TextDelta {
        delta: delta.to_owned(),
    }
}

fn reasoning_delta(delta: &str) -> StreamEvent {
    StreamEvent::ReasoningDelta {
        delta: delta.to_owned(),
    }
}

fn call(renderer: &mut InlineRenderer, id: &str, name: &str, arguments: &str) {
    let id = id.to_owned();
    renderer.render_event(&StreamEvent::ToolCallStart {
        id: id.clone(),
        name: name.to_owned(),
    });
    renderer.render_event(&StreamEvent::ToolCallArgsDelta {
        id: id.clone(),
        delta: arguments.to_owned(),
    });
    renderer.render_event(&StreamEvent::ToolCallEnd { id });
}

fn end(renderer: &mut InlineRenderer, result: ToolResult) {
    renderer.render_event(&StreamEvent::ToolExecutionEnd {
        id: result.call_id.clone(),
        result,
    });
}

fn arguments(key: &str, value: &str) -> String {
    compact_text(&object1(key, text_json(value)))
}

#[test]
fn transcript_is_append_only_aligned_and_colored() {
    let mut renderer = InlineRenderer::new(false, true);
    renderer.render_user("hi");
    renderer.render_event(&reasoning_delta("inspect first"));
    renderer.render_event(&text_delta("Hello from the model"));
    call(
        &mut renderer,
        "c1",
        "read",
        r#"{"path":"src/main.rs","offset":10}"#,
    );
    renderer.render_event(&StreamEvent::ToolExecutionStart {
        id: "c1".to_owned(),
    });
    end(&mut renderer, ToolResult::success("c1", "1: code"));
    renderer.render_event(&StreamEvent::Done);

    let text = written(&mut renderer);
    let bytes = text.as_bytes();
    let plain = stripped(&text);
    assert_eq!(plain.matches("hi").count(), 1);
    assert!(plain.lines().any(|line| line.starts_with("› hi")));
    assert!(plain.lines().any(|line| line.starts_with("▸ Reasoning")));
    assert!(
        plain
            .lines()
            .any(|line| line.starts_with("│ Hello from the model"))
    );
    assert!(
        plain
            .lines()
            .any(|line| line.starts_with("● read  src/main.rs  from line 11")),
        "{plain}"
    );
    assert!(!plain.lines().any(|line| line.trim() == "input"));
    assert!(!plain.lines().any(|line| line.trim() == "output"));
    assert!(plain.contains("1: code"));
    assert!(plain.lines().any(|line| line.starts_with("✓ read")));
    assert!(bytes.windows(2).any(|bytes| bytes == b"\x1b["));
    for forbidden in [b"\x1b[?1049".as_slice(), b"\x1b[2J", b"\x1b[H", b"\x1b[2K"] {
        assert!(
            !bytes
                .windows(forbidden.len())
                .any(|window| window == forbidden)
        );
    }
}

#[test]
fn apply_patch_renders_file_operations_and_diff_summary() {
    let mut renderer = InlineRenderer::new(false, false);
    call(
        &mut renderer,
        "patch-1",
        "apply_patch",
        &arguments("patch", "*** Begin Patch\n*** Update File: src/parser.rs\n@@\n-old\n+new\n*** Add File: src/parser_test.rs\n+test\n*** End Patch"),
    );
    end(
        &mut renderer,
        ToolResult::success(
            "patch-1",
            "src/parser.rs (+1 -1)\nsrc/parser_test.rs (+1 -0)",
        ),
    );
    let plain = written(&mut renderer);
    assert!(plain.lines().any(|line| line == "● apply_patch"), "{plain}");
    assert!(
        plain.lines().any(|line| line == "  M src/parser.rs"),
        "{plain}"
    );
    assert!(
        plain.lines().any(|line| line == "  A src/parser_test.rs"),
        "{plain}"
    );
    assert!(!plain.lines().any(|line| line.trim() == "input"));
    assert!(!plain.lines().any(|line| line.trim() == "output"));
    assert!(plain.contains("✓ apply_patch  2 files  +2 -1"), "{plain}");
    assert!(plain.lines().any(|line| line == "    +new"), "{plain}");
}

#[test]
fn failed_apply_patch_reports_failure_instead_of_file_count() {
    let mut renderer = InlineRenderer::new(false, false);
    call(
        &mut renderer,
        "patch-fail",
        "apply_patch",
        &arguments("patch", "*** Begin Patch\n*** Update File: /tmp/outside.rs\n@@\n-old\n+new\n*** End Patch"),
    );
    end(
        &mut renderer,
        ToolResult::error("patch-fail", "patch path is outside the workspace"),
    );
    let plain = written(&mut renderer);
    assert!(plain.contains("× apply_patch  failed"), "{plain}");
    assert!(!plain.contains("× apply_patch  1 files"), "{plain}");
}

#[test]
fn tool_input_and_output_are_bounded_with_visible_truncation() {
    let mut renderer = InlineRenderer::new_with_limits(
        false,
        false,
        RenderLimits {
            tool_input_max_bytes: 40,
            tool_output_max_bytes: 48,
            tool_output_max_lines: 2,
            tool_live_output_lines: 2,
            ..RenderLimits::default()
        },
    );
    call(
        &mut renderer,
        "bash-1",
        "bash",
        &arguments(
            "command",
            "printf a; printf b; cargo test --workspace --all-targets",
        ),
    );
    renderer.render_event(&StreamEvent::ToolExecutionOutput {
        id: "bash-1".to_owned(),
        delta: (0..10).map(|index| format!("line {index}\n")).collect(),
    });
    end(
        &mut renderer,
        ToolResult::error("bash-1", "ignored\n[exit code: 1]"),
    );
    let plain = written(&mut renderer);
    let lines = plain.lines().collect::<Vec<_>>();
    let status_index = lines
        .iter()
        .position(|line| *line == "× bash  exit 1")
        .expect("completed Bash status missing");
    let command_index = lines
        .iter()
        .position(|line| line.starts_with("  $ "))
        .expect("Bash command missing");
    assert!(status_index < command_index, "{plain}");
    assert!(!plain.contains("● bash"), "{plain}");
    assert_eq!(plain.matches("× bash  exit 1").count(), 1, "{plain}");
    assert!(
        plain.lines().any(|line| line.starts_with("  $ ")),
        "{plain}"
    );
    assert!(!plain.lines().any(|line| line.trim() == "input"), "{plain}");
    assert!(
        !plain.lines().any(|line| line.trim() == "output"),
        "{plain}"
    );
    assert!(plain.contains("command truncated"), "{plain}");
    assert!(plain.contains("output truncated"), "{plain}");
    assert!(plain.contains("line 9"), "{plain}");
    assert!(!plain.contains("line 0"), "{plain}");
    assert!(plain.contains("exit 1"), "{plain}");
}

#[test]
fn bash_without_output_renders_one_italic_placeholder_without_metadata() {
    let mut renderer = InlineRenderer::new(false, true);
    call(
        &mut renderer,
        "sleep",
        "bash",
        &arguments("command", "sleep 20"),
    );
    end(
        &mut renderer,
        ToolResult::success("sleep", "\n[exit code: 0]"),
    );
    let text = written(&mut renderer);
    let plain = stripped(&text);
    assert!(plain.contains("✓ bash  exit 0"), "{plain}");
    assert!(plain.contains("  $ sleep 20"), "{plain}");
    assert!(plain.contains("  (no output)"), "{plain}");
    assert!(!plain.contains("[exit code:"), "{plain}");
    assert!(
        text.as_bytes().windows(4).any(|bytes| bytes == b"\x1b[3m"),
        "{text:?}"
    );
}

#[test]
fn an_unknown_tool_shows_its_input_and_output() {
    let mut renderer = InlineRenderer::new(false, false);
    call(&mut renderer, "x", "fly", r#"{"to":"moon"}"#);
    end(&mut renderer, ToolResult::success("x", "landed"));
    assert_eq!(
        written(&mut renderer),
        [
            "● fly\n",
            "  input\n",
            "  │ {\n",
            "  │   \"to\": \"moon\"\n",
            "  │ }\n",
            "  output\n",
            "  │ landed\n",
            "✓ fly  done\n",
        ]
        .concat()
    );
}

#[test]
fn however_an_answer_is_cut_it_reads_the_same() {
    let whole = "one\ntwo\n\nthree";
    let mut at_once = InlineRenderer::new(false, false);
    at_once.render_event(&text_delta(whole));
    at_once.render_event(&StreamEvent::Done);
    let mut in_parts = InlineRenderer::new(false, false);
    for part in ["on", "e\ntw", "o\n", "\nthr", "ee"] {
        in_parts.render_event(&text_delta(part));
    }
    in_parts.render_event(&StreamEvent::Done);
    let text = written(&mut at_once);
    assert_eq!(text, "│ one\n│ two\n│ \n│ three\n");
    assert_eq!(text, written(&mut in_parts));
}

#[test]
fn reasoning_can_be_shown_afterwards() {
    let mut renderer = InlineRenderer::new(false, false);
    renderer.render_event(&reasoning_delta("first\nsecond"));
    assert_eq!(written(&mut renderer), "▸ Reasoning\n");
    assert!(renderer.toggle_reasoning());
    assert!(renderer.shows_reasoning());
    assert_eq!(
        written(&mut renderer),
        "▾ Reasoning\n  first\n  second\n"
    );
    assert!(!renderer.toggle_reasoning());
    assert_eq!(written(&mut renderer), "");
}

fn item(role: Role, blocks: Vec<ContentBlock>) -> ConversationItem {
    ConversationItem {
        id: "i".to_owned(),
        session_id: "s".to_owned(),
        parent_id: None,
        role,
        blocks,
        usage: None,
        created_at: 0,
    }
}

#[test]
fn a_resumed_conversation_is_replayed() {
    let mut renderer = InlineRenderer::new(false, false);
    renderer.render_resumed_history(&vec![
        item(
            Role::User,
            vec![ContentBlock::Text(
                "Files provided with this request:\n- /repo/a.rs\n\nexplain this".to_owned(),
            )],
        ),
        item(
            Role::Assistant,
            vec![
                ContentBlock::Text("Looking.".to_owned()),
                ContentBlock::ToolCall(ToolCall::new("c1", "bash", r#"{"command":"ls"}"#)),
            ],
        ),
        item(
            Role::Tool,
            vec![ContentBlock::ToolResult(ToolResult::success(
                "c1",
                "a.rs\n[exit code: 0]",
            ))],
        ),
        item(Role::System, vec![ContentBlock::Text("hidden".to_owned())]),
    ]);
    assert_eq!(
        written(&mut renderer),
        [
            "──────── Resumed conversation ────────\n",
            "› explain this\n",
            "│ Looking.\n",
            "✓ bash  exit 0\n",
            "  $ ls\n",
            "  │ a.rs\n",
        ]
        .concat()
    );
}

#[test]
fn a_plan_is_aligned() {
    let line = |action: &str, path: &str, detail: &str, blocked: bool| RevertLine {
        action: action.to_owned(),
        path: path.to_owned(),
        detail: detail.to_owned(),
        blocked,
    };
    let mut renderer = InlineRenderer::new(false, false);
    renderer.render_revert_plan(&vec![
        line("delete", "/a", "created", false),
        line("keep", "/b", "changed", true),
    ]);
    assert_eq!(
        written(&mut renderer),
        "    delete /a  created\n    keep   /b  changed\n"
    );
    assert_eq!(line("delete", "", "", false).tint(), Tint::DarkRed);
    assert_eq!(line("recreate", "", "", false).tint(), Tint::DarkGreen);
    assert_eq!(line("restore", "", "", false).tint(), Tint::DarkYellow);
    assert_eq!(line("delete", "", "", true).tint(), Tint::DarkGrey);
}

#[test]
fn statuses_and_errors_end_an_open_line() {
    let mut renderer = InlineRenderer::new(false, false);
    renderer.render_event(&text_delta("half"));
    renderer.render_status("note");
    renderer.render_event(&text_delta("more"));
    renderer.render_event(&StreamEvent::Error {
        message: "broken".to_owned(),
    });
    assert_eq!(
        written(&mut renderer),
        "│ half\n· note\n│ more\n× broken\n"
    );
}

#[test]
fn spans_are_written_with_their_sequences() {
    let span = |style: Style| Span {
        text: "x".to_owned(),
        style,
    };
    assert_eq!(show_span(&span(Style::Unstyled)), "x");
    assert_eq!(
        show_span(&span(Style::Tinted(Tint::DarkGrey))),
        "\x1b[38;5;8mx\x1b[39m"
    );
    assert_eq!(
        show_span(&span(Style::Emphasized(Tint::DarkCyan, Emphasis::Bold))),
        "\x1b[38;5;6m\x1b[1mx\x1b[0m"
    );
    assert_eq!(
        show_span(&span(Style::Tinted(Tint::Reset))),
        "\x1b[39mx\x1b[39m"
    );
    assert_eq!(
        show_spans(&vec![span(Style::Unstyled), span(Style::Unstyled)]),
        "xx"
    );
}

// ---------------------------------------------------------------------------
// The transient area

fn tool(name: &str, arguments: &str, output: &str) -> ToolDisplay {
    let mut tool = ToolDisplay::new(name, 1024, 4096);
    tool.arguments.push(arguments);
    tool.output.push(output.as_bytes());
    tool
}

#[test]
fn live_parallel_tools_keep_only_the_latest_output_lines() {
    let output = (0..6)
        .map(|index| format!("line {index}\n"))
        .collect::<String>();
    let bash = tool("bash", r#"{"command":"cargo test"}"#, &output);
    let read = tool("read", r#"{"path":"src/lib.rs"}"#, "");
    let contents = live_tool_message(&bash, 2, 100, false);
    assert!(contents.contains("  $ cargo test"), "{contents}");
    assert!(contents.contains("line 4"), "{contents}");
    assert!(contents.contains("line 5"), "{contents}");
    assert!(!contents.contains("line 0"), "{contents}");
    let contents = live_tool_message(&read, 2, 100, false);
    assert!(contents.contains("read  src/lib.rs"), "{contents}");

    let mut live = LiveTools::new(2, Some((100, 12)));
    let mut out = Vec::new();
    live.start("bash", "running".to_owned(), &mut out);
    live.start("read", "reading".to_owned(), &mut out);
    live.finish("bash", &mut out);
    live.update("read", "still reading".to_owned(), &mut out);
    assert_eq!(live.entries, ["read"]);
    assert!(matches!(&out[2], Draw::Stop { id } if id == "bash"));
    assert!(matches!(&out[3], Draw::Update { id, .. } if id == "read"));
}

#[test]
fn live_parallel_tools_without_output_are_adjacent() {
    let mut live = LiveTools::new(6, Some((100, 30)));
    let mut out = Vec::new();
    for index in 0..3 {
        let bash = tool("bash", r#"{"command":"sleep 20"}"#, "");
        let message = live_tool_message(&bash, 6, 100, false);
        assert_eq!(message, "bash\n  $ sleep 20");
        live.start(&format!("bash-{index}"), message, &mut out);
    }
    assert_eq!(live.entries.len(), 3);
}

#[test]
fn live_tool_lines_fit_the_terminal_and_strip_control_sequences() {
    let bash = tool(
        "bash",
        r#"{"command":"cd /a/very/long/directory && grep -rn pyright .gitlab-ci.yml"}"#,
        "old\n\x1b[31ma very long output line that must be shortened safely\x1b[0m\nlatest\rvalue\n",
    );
    let message = live_tool_message(&bash, 2, 40, false);
    let lines = message.lines().collect::<Vec<_>>();
    assert_eq!(lines.len(), 4, "{message:?}");
    assert!(UnicodeWidthStr::width(lines[0]) <= 38, "{message:?}");
    assert!(
        lines[1..]
            .iter()
            .all(|line| UnicodeWidthStr::width(*line) <= 40),
        "{message:?}"
    );
    assert!(!message.contains('\x1b'), "{message:?}");
    assert!(!message.contains('\r'), "{message:?}");
}

#[test]
fn live_bash_dollar_uses_the_completed_command_color() {
    let bash = tool("bash", r#"{"command":"cargo test"}"#, "");
    let message = live_tool_message(&bash, 2, 100, true);
    let plain = stripped(&message);
    assert_eq!(
        plain.lines().collect::<Vec<_>>(),
        ["bash", "  $ cargo test"]
    );
    let dollar = message.find('$').unwrap();
    assert!(message[..dollar].contains("\x1b[1;36m"), "{message:?}");
}

#[test]
fn generation_content_is_visible_above_the_spinner_before_done() {
    let mut renderer =
        InlineRenderer::stdout_with_limits(false, RenderLimits::default(), true, true, Some((100, 8)));
    renderer.render_event(&StreamEvent::GenerationStart);
    let draws = renderer.take_draws();
    assert!(matches!(draws[0], Draw::Reserve(1)));
    assert!(matches!(&draws[1], Draw::Start { message, .. } if message == "thinking"));
    renderer.render_event(&text_delta("streamed before done"));
    let draws = renderer.take_draws();
    let content = draws
        .iter()
        .find_map(|draw| match draw {
            Draw::Content(spans) => Some(show_spans(spans)),
            _ => None,
        })
        .expect("an unfinished line");
    assert_eq!(content, "│ streamed before done");
    assert!(matches!(draws.last(), Some(Draw::Redraw)));
    renderer.render_event(&StreamEvent::Done);
    assert_eq!(written(&mut renderer), "│ streamed before done\n");
}

#[test]
fn finished_lines_are_committed_while_the_model_still_writes() {
    let mut renderer = InlineRenderer::stdout_with_limits(
        true,
        RenderLimits::default(),
        true,
        true,
        None,
    );
    renderer.observe_terminal(Some((80, 24)));
    renderer.render_event(&StreamEvent::GenerationStart);
    renderer.render_event(&reasoning_delta("think\nmore"));
    assert_eq!(written(&mut renderer), "▾ Reasoning\n  think\n");
    renderer.render_event(&text_delta("done\nrest"));
    assert_eq!(written(&mut renderer), "  more\n│ done\n");
    renderer.render_event(&StreamEvent::Done);
    assert_eq!(written(&mut renderer), "│ rest\n");
    renderer.begin_transient("waiting");
    renderer.end_transient();
    assert_eq!(written(&mut renderer), "");
}

#[test]
fn rows_share_the_terminal() {
    let mut live = LiveTools::new(6, Some((80, 13)));
    let mut out = Vec::new();
    live.reserve(3, &mut out);
    // Twelve rows for three calls leave two lines of output each.
    assert_eq!(live.visible_lines, 2);
    assert!(matches!(out[0], Draw::Reserve(12)));
    live.restore_for_commit(&mut out);
    assert!(matches!(out[1], Draw::Clear));
    assert!(matches!(out[2], Draw::Restore));
    live.observe(Some((40, 5)));
    live.reserve(3, &mut out);
    assert_eq!(live.visible_lines, 0);
    assert!(matches!(out[3], Draw::Reserve(4)));
    live.clear(&mut out);
    assert!(live.entries.is_empty());
}

// ---------------------------------------------------------------------------
// What is said of calls

#[test]
fn inputs_are_described() {
    assert_eq!(read_detail(r#"{"path":"a.rs"}"#), "a.rs");
    assert_eq!(
        read_detail(r#"{"path":"a.rs","offset":4,"limit":3}"#),
        "a.rs  lines 5-7"
    );
    assert_eq!(read_detail("broken"), "?");
    assert_eq!(
        format_tool_input("read", r#"{"path":"a.rs","limit":3}"#),
        "path: a.rs\nlimit: 3"
    );
    assert_eq!(format_tool_input("bash", r#"{"command":"ls"}"#), "ls");
    assert_eq!(format_tool_input("bash", "ls"), "ls");
    assert_eq!(format_tool_input("apply_patch", r#"{"patch":"p"}"#), "p");
}

#[test]
fn outcomes_are_summed_up() {
    assert_eq!(parse_exit_code("text\n[exit code: 3]\n"), Some(3));
    assert_eq!(parse_exit_code("[exit code: x]"), None);
    assert_eq!(tool_summary("bash", "[bash cancelled]", true, None), "cancelled");
    assert_eq!(
        tool_summary("bash", "[bash timed out after 1s]", true, None),
        "timed out"
    );
    assert_eq!(tool_summary("bash", "", false, Some(-1)), "exit -1");
    assert_eq!(tool_summary("read", "", true, None), "failed");
    assert_eq!(tool_summary("read", "1: a\n2: b\n", false, None), "2 lines");
    assert_eq!(tool_summary("read", "1: a", false, None), "1 line");
    assert_eq!(tool_summary("apply_patch", "odd", false, None), "1 files");
    assert_eq!(tool_summary("fly", "", false, None), "done");
    assert_eq!(
        bash_visible_output("out\n\n[bash cancelled]\n[exit code: 1]"),
        "out"
    );
}

#[test]
fn texts_are_bounded_from_either_end() {
    let head = limited_text("one\ntwo\nthree", 7, 8, false);
    assert_eq!(head.lines, ["one", "two"]);
    assert!(head.truncated);
    let tail = limited_text("one\ntwo\nthree", 100, 1, true);
    assert_eq!(tail.lines, ["three"]);
    assert!(tail.truncated);
    assert!(!limited_text("one", 3, 1, true).truncated);
    assert_eq!(clean_terminal_line("\x1b[31mred\x1b[0m\tend"), "redend");
    assert_eq!(truncate_display_width("中文字", 5), "中文…");
    assert_eq!(truncate_display_width("中文字", 6), "中文字");
    assert_eq!(truncate_display_width("abc", 0), "");
}

#[test]
fn only_the_list_of_targets_is_hidden() {
    let list = "Files provided with this request:\n- a\n- b\n\n";
    assert_eq!(without_request_scaffolding(&format!("{list}prompt\nmore")), "prompt\nmore");
    assert_eq!(without_request_scaffolding("prompt"), "prompt");
    assert_eq!(
        without_request_scaffolding("Files provided with this request:\nodd\n- a"),
        "odd\n- a"
    );
}

// ---------------------------------------------------------------------------
// Fish

#[test]
fn fish_script_has_metadata_hooks_dedicated_ai_read_and_mode_bindings() {
    let script = fish_script();
    assert!(script.contains("--on-event fish_preexec"));
    assert!(script.contains("--on-event fish_postexec"));
    assert!(script.contains("__record-shell"));
    assert!(script.contains("--fish-session-key"));
    assert!(script.contains("--one-turn"));
    assert!(!script.contains("--resume --one-turn"));
    assert!(script.contains("--fish-ai"));
    assert!(script.contains("A_FISH_AI_PROMPT"));
    assert!(script.contains("a> "));
    assert!(!script.contains("[AI] "));
    assert!(script.contains("read --local --line"));
    assert!(script.contains("--right-prompt"));
    assert!(script.contains("once · tab"));
    assert!(script.contains("multi · tab"));
    assert!(script.contains("__a_handle_tab"));
    assert!(script.contains("__a_ai_prompt_active"));
    assert!(!script.contains("--shell"));
    assert!(script.contains("bind -M default \\cg __a_ai_prompt"));
    assert!(script.contains("bind -M insert \\cg __a_ai_prompt"));
    assert!(!script.contains("bind -M default \\r"));
    assert!(!script.contains("bind -M insert \\r"));
}

#[test]
fn the_fish_script_has_its_place() {
    assert_eq!(
        script_path("/home/user"),
        "/home/user/.config/fish/conf.d/a.fish"
    );
}

#[test]
fn reasoning_toggle_configuration_accepts_ctrl_character_keys() {
    let editor = InputEditor::with_reasoning_toggle("ctrl-r").unwrap();
    assert!(editor.is_reasoning_toggle(Some('r'), true));
    assert!(!editor.is_reasoning_toggle(Some('o'), true));
    assert!(!editor.is_reasoning_toggle(Some('r'), false));
    assert!(!editor.is_reasoning_toggle(None, true));
    assert_eq!(editor.reasoning_key(), 'r');
    assert!(InputEditor::with_reasoning_toggle("alt-r").is_err());
    assert!(InputEditor::with_reasoning_toggle("ctrl-long").is_err());
}
