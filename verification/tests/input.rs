use a_agent::tui::editor::{
    InputAction, InputEditor, InputMode, Key, KeyAction, KeyCommand, RESIZE_RETRIES, ReadOutcome,
    Selector, SelectorStep, checkpoint_labels, is_remembered, mode_hint, select_checkpoint,
};
use a_agent::tui::input::{
    Candidate, DirEntry, PaletteKind, all_commands, candidates, escape_mention, mention_paths,
    palette_token, path_candidates, typed_directory, unescape_mention,
};
use a_agent::tui::palette::{Direction, PaletteSelection, candidate_row};

fn listing(files: &[&str], directories: &[&str]) -> Vec<DirEntry> {
    let entry = |name: &&str, is_directory: bool| DirEntry {
        name: name.to_string(),
        is_directory,
    };
    files
        .iter()
        .map(|name| entry(name, false))
        .chain(directories.iter().map(|name| entry(name, true)))
        .collect()
}

fn completions(rows: &[Candidate]) -> Vec<&str> {
    rows.iter()
        .map(|candidate| candidate.completion.as_str())
        .collect()
}

#[test]
fn slash_tokens_only_start_a_line_while_mentions_can_appear_anywhere() {
    let slash = palette_token("/mo", 3).expect("slash token");
    assert_eq!(slash.kind, PaletteKind::Slash);
    assert_eq!(slash.text, "/mo");
    assert_eq!(slash.start, 0);

    let mention = palette_token("fix @src/pa", 11).expect("path token");
    assert_eq!(mention.kind, PaletteKind::Path);
    assert_eq!(mention.text, "@src/pa");
    assert_eq!(mention.start, 4);

    // A slash that is not the first token is a path separator, not a command.
    assert!(palette_token("look at /etc", 12).is_none());
    assert!(palette_token("plain words", 11).is_none());
    // Completion only applies at the end of the line.
    assert!(palette_token("@src", 2).is_none());
}

#[test]
fn path_candidates_put_directories_first_and_hide_noise() {
    let root = listing(
        &["srcfile.rs", ".srchidden", "other.rs"],
        &["src", "target", ".git"],
    );
    let rows = path_candidates("s", &root);
    let shown = completions(&rows);
    assert_eq!(shown, vec!["@src/", "@srcfile.rs"], "{shown:?}");

    // Ignored directories stay out even when they match the prefix.
    assert!(path_candidates("t", &root).is_empty());
    assert!(
        path_candidates("", &root)
            .iter()
            .all(|c| c.completion != "@.git/")
    );
    // Hidden entries appear once a dot is typed.
    let hidden = path_candidates(".src", &root);
    assert_eq!(hidden.len(), 1, "{:?}", hidden[0].completion);
    assert_eq!(hidden[0].completion, "@.srchidden");
}

#[test]
fn mentions_of_paths_with_spaces_survive_completion_and_resolution() {
    let root = listing(&["name with space.txt"], &[]);
    let candidate = path_candidates("name", &root).remove(0);
    assert_eq!(candidate.completion, r"@name\ with\ space.txt");
    // The escaped mention stays one token, both for the palette and for the
    // resolver, so completion cannot produce a mention that silently fails.
    let line = format!("review {}", candidate.completion);
    let token = palette_token(&line, line.len()).expect("token");
    assert_eq!(token.text, r"@name\ with\ space.txt");
    assert_eq!(mention_paths(&line), vec!["name with space.txt".to_owned()]);
    assert_eq!(
        path_candidates(&unescape_mention(&token.text[1..]), &root).len(),
        1
    );
}

#[test]
fn mentions_are_split_off_trailing_punctuation_and_other_words() {
    assert_eq!(
        mention_paths("compare @src/a.rs and @src/b.rs, please"),
        vec!["src/a.rs".to_owned(), "src/b.rs".to_owned()]
    );
    assert!(mention_paths("no mentions here").is_empty());
    assert!(mention_paths("@").is_empty());
}

#[test]
fn descending_into_a_directory_lists_its_contents() {
    assert_eq!(typed_directory("src/", "/work"), "/work/src");
    assert_eq!(typed_directory("sr", "/work"), "/work");
    let rows = path_candidates("src/", &listing(&["parser.rs", "main.rs"], &[]));
    assert_eq!(
        completions(&rows),
        vec!["@src/main.rs", "@src/parser.rs"]
    );
}

#[test]
fn at_most_twelve_paths_are_offered() {
    let names = (0..20).map(|n| format!("f{n:02}")).collect::<Vec<_>>();
    let files = names.iter().map(String::as_str).collect::<Vec<_>>();
    let rows = path_candidates("f", &listing(&files, &[]));
    assert_eq!(rows.len(), 12);
    assert_eq!(rows[11].completion, "@f11");
}

#[test]
fn escapes_are_read_back() {
    for path in ["plain", "a b", r"back\slash", "tab\there", " lead"] {
        assert_eq!(unescape_mention(&escape_mention(path)), path);
    }
    assert_eq!(escape_mention("a b"), r"a\ b");
}

#[test]
fn positions_are_counted_in_bytes() {
    let line = "é @sr";
    let token = palette_token(line, line.len()).unwrap();
    assert_eq!(token.start, 3);
    assert!(palette_token(line, 5).is_none());
}

#[test]
fn commands_are_filtered_by_what_was_typed() {
    assert_eq!(all_commands().len(), 8);
    let rows = candidates(PaletteKind::Slash, "/c", &Vec::new());
    assert_eq!(completions(&rows), ["/clear", "/compact"]);
}

#[test]
fn rows_show_a_marker_and_their_label() {
    let candidate = Candidate {
        completion: "/help".to_owned(),
        label: "/help".to_owned(),
        detail: "Show available commands".to_owned(),
    };
    assert_eq!(
        candidate_row(&candidate, true, false),
        "› /help                  Show available commands"
    );
    assert_eq!(
        candidate_row(&candidate, false, true),
        "\x1b[90m  /help                  Show available commands\x1b[0m"
    );
    assert!(candidate_row(&candidate, true, true).starts_with("\x1b[1;36m› "));
}

#[test]
fn the_selection_goes_round() {
    let mut palette = PaletteSelection::new();
    assert_eq!(palette.move_selection(3, Direction::Up), 2);
    assert_eq!(palette.move_selection(3, Direction::Down), 0);
    assert_eq!(palette.move_selection(3, Direction::Down), 1);
    assert_eq!(palette.selected(1), 0);
    assert_eq!(palette.move_selection(0, Direction::Down), 0);
}

fn editor() -> InputEditor {
    InputEditor::with_reasoning_toggle("ctrl-o").unwrap()
}

#[test]
fn arrows_keep_the_filter_and_tab_moves_it_on() {
    let mut editor = editor();
    let none = Vec::new();
    let pressed = editor.press(KeyAction::Next, "/", 1, &none);
    assert_eq!(pressed, Some(KeyCommand::Complete));
    assert_eq!(editor.complete("/", 1), (0, Some("/effort".to_owned())));
    // The line now holds the entry, and its siblings are still reachable.
    editor.press(KeyAction::Next, "/effort", 7, &none);
    assert_eq!(editor.complete("/effort", 7).1.as_deref(), Some("/thinking"));

    let root = listing(&["srcfile.rs"], &["src"]);
    let mut editor = self::editor();
    assert_eq!(
        editor.listed_directory("@s", 2, "/work").as_deref(),
        Some("/work")
    );
    editor.press(KeyAction::Accept, "@s", 2, &root);
    assert_eq!(editor.complete("@s", 2).1.as_deref(), Some("@src/"));
    assert_eq!(
        editor.listed_directory("@src/", 5, "/work").as_deref(),
        Some("/work/src")
    );
    assert_eq!(editor.listed_directory("plain", 5, "/work"), None);
}

#[test]
fn enter_completes_before_it_submits() {
    let mut editor = editor();
    let none = Vec::new();
    assert_eq!(
        editor.press(KeyAction::Submit, "/mo", 3, &none),
        Some(KeyCommand::Complete)
    );
    assert_eq!(editor.press(KeyAction::Submit, "/model", 6, &none), None);
    assert_eq!(editor.press(KeyAction::Submit, "hello", 5, &none), None);
}

#[test]
fn tab_changes_the_mode_outside_a_token() {
    let mut editor = editor();
    let none = Vec::new();
    assert_eq!(
        editor.press(KeyAction::Accept, "hello", 5, &none),
        Some(KeyCommand::Repaint)
    );
    let action = editor.conclude_read(ReadOutcome::Line("hello".to_owned()));
    assert_eq!(action, InputAction::Submit("hello".to_owned(), InputMode::Once));
}

#[test]
fn control_c_discards_a_line_before_it_interrupts() {
    let mut editor = editor();
    let none = Vec::new();
    assert_eq!(
        editor.press(KeyAction::Abandon, "half", 4, &none),
        Some(KeyCommand::Discard)
    );
    assert_eq!(editor.press(KeyAction::Abandon, "", 0, &none), None);
    assert_eq!(
        editor.conclude_read(ReadOutcome::Interrupted),
        InputAction::Interrupt
    );
    assert_eq!(editor.conclude_read(ReadOutcome::Eof), InputAction::Eof);
}

#[test]
fn toggling_the_reasoning_keeps_the_line() {
    let mut editor = editor();
    editor.press(KeyAction::Reasoning, "left right", 5, &Vec::new());
    assert_eq!(
        editor.conclude_read(ReadOutcome::Interrupted),
        InputAction::ToggleReasoning
    );
    assert_eq!(
        editor.take_initial(),
        Some(("left ".to_owned(), "right".to_owned()))
    );
    assert_eq!(editor.take_initial(), None);
}

#[test]
fn escape_asks_for_a_rewind() {
    let mut editor = editor();
    editor.press(KeyAction::Rewind, "", 0, &Vec::new());
    assert_eq!(
        editor.conclude_read(ReadOutcome::Interrupted),
        InputAction::Rewind
    );
    let bindings = editor.bindings();
    assert_eq!(bindings.len(), 9);
    assert!(bindings.contains(&(Key::Escape, KeyAction::Rewind)));
    assert!(bindings.contains(&(Key::Control('o'), KeyAction::Reasoning)));
}

#[test]
fn hints_show_the_palette_or_the_mode() {
    let mut editor = editor();
    let none = Vec::new();
    let palette = editor.hint("/mo", 3, &none, false, 40).unwrap();
    assert_eq!(palette, "\n› /model [profile]       Switch model profile");
    assert_eq!(
        editor.hint("/zzz", 4, &none, false, 40).unwrap(),
        "\n  No matching commands"
    );
    assert_eq!(
        editor.hint("@zzz", 4, &none, false, 40).unwrap(),
        "\n  No matching paths"
    );
    // Wide characters take two columns each.
    let mode = editor.hint("中文", 6, &none, false, 40).unwrap();
    assert_eq!(mode, format!("{}multi · tab", " ".repeat(40 - 3 - 4 - 11 - 1)));
    assert_eq!(editor.hint("hello", 5, &none, false, 10), None);
    assert_eq!(editor.hint("hello", 2, &none, false, 80), None);
    assert_eq!(editor.highlight_hint("\nrows"), "\nrows");
    assert_eq!(editor.highlight_hint("mode"), "\x1b[1;35mmode\x1b[0m");
    assert_eq!(mode_hint(false, 0, 10, 15).as_deref(), Some(" once · tab"));
    assert_eq!(mode_hint(false, 0, 10, 14), None);
}

#[test]
fn blank_lines_are_not_remembered() {
    assert!(is_remembered("x"));
    assert!(!is_remembered(" \t"));
}

#[test]
fn selectors_survive_a_burst_of_interruptions() {
    let mut selector = Selector::new(3, 9);
    for _ in 0..RESIZE_RETRIES {
        assert!(matches!(selector.step(), SelectorStep::Ask(2)));
    }
    assert!(matches!(selector.step(), SelectorStep::Fail(_)));
    assert_eq!(selector.erased_lines(24), 4);
    assert_eq!(selector.erased_lines(3), 2);
    assert_eq!(selector.erased_lines(0), 1);
    assert!(matches!(Selector::new(0, 0).step(), SelectorStep::Nothing));
}

#[test]
fn checkpoints_are_chosen_by_their_labels() {
    let checkpoints = vec![
        ("i2".to_owned(), "second".to_owned()),
        ("i1".to_owned(), "first".to_owned()),
    ];
    assert_eq!(checkpoint_labels(&checkpoints).unwrap(), ["second", "first"]);
    assert_eq!(select_checkpoint(&checkpoints, Some(1)).as_deref(), Some("i1"));
    assert_eq!(select_checkpoint(&checkpoints, None), None);
    assert_eq!(
        checkpoint_labels(&Vec::new()).unwrap_err(),
        "no user messages to rewind to"
    );
}
