use std::collections::BTreeMap;

use a_agent::json::{compact_text, object1, parse_json, text_json};
use a_agent::model::ToolCall;
use a_agent::tools::bash::{
    BashArgs, BashEvent, BashOptions, BashResult, BashRun, BashStep, BoundedOutput,
};
use a_agent::tools::patch::{
    FileChange, FileSnapshot, FileWrite, Located, Operation, PatchPlan, affected_paths,
    apply_hunks, apply_patch, apply_patch_with_snapshots, coalesce_snapshots, content_hash, parse_patch,
};
use a_agent::tools::path::{
    ancestors, is_absolute, is_same_path, join_path, normalize, parent_path, unrestricted_path,
};
use a_agent::tools::read::{ReadArgs, read_text_file, read_text_file_bounded};
use a_agent::tools::runner::{
    CoreToolExecutor, Dispatch, Tool, conclude_bash, conclude_patch, conclude_read,
    parallel_limit, patch_text, scheduling_paths,
};

// ---------------------------------------------------------------------------
// A disk in memory

#[derive(Default)]
struct Disk(BTreeMap<String, String>);

impl Disk {
    fn with(files: &[(&str, &str)]) -> Disk {
        Disk(
            files
                .iter()
                .map(|(path, text)| (path.to_string(), text.to_string()))
                .collect(),
        )
    }

    fn locate(&self, root: &str, patch: &str) -> Vec<Result<Located, String>> {
        parse_patch(patch)
            .map(|operations| {
                operations
                    .iter()
                    .map(|operation| {
                        let path = unrestricted_path(root, operation.path())?;
                        Ok(Located {
                            exists: self.0.contains_key(&path),
                            content: self.0.get(&path).cloned(),
                            path,
                        })
                    })
                    .collect()
            })
            .unwrap_or_default()
    }

    fn write(&mut self, write: &FileWrite) {
        match write {
            FileWrite::Create { path, content }
            | FileWrite::Overwrite { path, content }
            | FileWrite::Restore { path, content } => {
                self.0.insert(path.clone(), content.clone());
            }
            FileWrite::Remove { path } => {
                self.0.remove(path);
            }
        }
    }

    fn perform(&mut self, plan: Result<PatchPlan, String>) -> Result<PatchPlan, String> {
        let plan = plan?;
        for write in &plan.writes {
            self.write(write);
        }
        Ok(plan)
    }

    fn patch(&mut self, root: &str, patch: &str) -> Result<PatchPlan, String> {
        let found = self.locate(root, patch);
        self.perform(apply_patch(patch, &found))
    }

    fn patch_keeping(&mut self, root: &str, patch: &str, max: usize) -> Vec<FileSnapshot> {
        let found = self.locate(root, patch);
        let plan = apply_patch_with_snapshots(patch, &found, max);
        self.perform(plan).unwrap().summary.snapshots
    }

    fn text(&self, path: &str) -> &str {
        self.0.get(path).map(String::as_str).expect(path)
    }

    fn current(&self, snapshot: &FileSnapshot) -> Result<String, String> {
        self.0
            .get(&snapshot.path)
            .cloned()
            .ok_or_else(|| "no such file".to_owned())
    }

    fn blocker(&self, snapshot: &FileSnapshot) -> Option<String> {
        snapshot.restore_blocker(&self.current(snapshot))
    }

    fn restore(&mut self, snapshot: &FileSnapshot) {
        let write = snapshot.restore().unwrap();
        self.write(&write);
    }
}

fn find<'a>(snapshots: &'a [FileSnapshot], name: &str) -> &'a FileSnapshot {
    snapshots
        .iter()
        .find(|snapshot| snapshot.path.ends_with(name))
        .unwrap_or_else(|| panic!("no snapshot for {name}"))
}

fn read_args(path: &str, offset: usize, limit: Option<usize>) -> ReadArgs {
    ReadArgs {
        path: path.to_owned(),
        offset,
        limit,
    }
}

// ---------------------------------------------------------------------------
// read

#[test]
fn read_returns_numbered_bounded_lines() {
    let result = read_text_file(
        b"one\ntwo\nthree\nfour\n".to_vec(),
        &read_args("a.txt", 1, Some(2)),
        10,
    )
    .unwrap();
    assert_eq!(result, "2: two\n3: three\n[truncated; 1 more line]");
}

#[test]
fn read_rejects_binary_and_allows_paths_outside_the_workspace() {
    assert!(
        read_text_file(vec![0, 1, 2], &read_args("binary", 0, None), 10)
            .unwrap_err()
            .contains("binary")
    );
    let disk = Disk::with(&[("/tmp/outside.txt", "outside\n")]);
    for requested in ["../outside.txt", "/tmp/outside.txt"] {
        let path = unrestricted_path("/tmp/workspace", requested).unwrap();
        let bytes = disk.text(&path).as_bytes().to_vec();
        let shown = read_text_file(bytes, &read_args(requested, 0, None), 10).unwrap();
        assert_eq!(shown, "1: outside");
    }
}

#[test]
fn read_refuses_what_is_no_text() {
    assert!(read_text_file(vec![0xff, 0xfe], &read_args("latin", 0, None), 10).is_err());
}

#[test]
fn core_read_output_obeys_the_global_byte_limit() {
    let bytes = "x".repeat(10_000).into_bytes();
    let output = read_text_file_bounded(bytes, &read_args("large.txt", 0, None), 1000, 128);
    let result = conclude_read("read-1", output).result;
    assert!(!result.is_error);
    assert!(result.output.len() < 256);
    assert!(result.output.contains("truncated"));
}

// ---------------------------------------------------------------------------
// apply_patch

#[test]
fn patch_adds_updates_and_deletes() {
    let mut disk = Disk::with(&[("/work/src/old.txt", "old\nline\n"), ("/work/remove.txt", "bye\n")]);
    let patch = "*** Begin Patch\n*** Update File: src/old.txt\n@@\n-old\n+new\n line\n*** Add File: src/new.txt\n+created\n*** Delete File: remove.txt\n*** End Patch";
    let plan = disk.patch("/work", patch).unwrap();
    assert_eq!(disk.text("/work/src/old.txt"), "new\nline\n");
    assert_eq!(disk.text("/work/src/new.txt"), "created\n");
    assert!(!disk.0.contains_key("/work/remove.txt"));
    assert_eq!(plan.summary.files.len(), 3);
}

#[test]
fn updates_overwrite_a_file_in_place() {
    let mut disk = Disk::with(&[("/work/script.sh", "#!/bin/sh\necho old\n")]);
    let patch =
        "*** Begin Patch\n*** Update File: script.sh\n@@\n-echo old\n+echo new\n*** End Patch";
    let plan = disk.patch("/work", patch).unwrap();
    // The file itself is kept and only its contents are replaced, so everything
    // that is bound to the file stays with it.
    assert_eq!(
        plan.writes,
        vec![FileWrite::Overwrite {
            path: "/work/script.sh".to_owned(),
            content: "#!/bin/sh\necho new\n".to_owned(),
        }]
    );
}

#[test]
fn patch_rejects_stale_context_and_allows_paths_outside_the_workspace() {
    let mut disk = Disk::with(&[("/tmp/workspace/a.txt", "current\n")]);
    let root = "/tmp/workspace";
    let stale = "*** Begin Patch\n*** Update File: a.txt\n@@\n-old\n+new\n*** End Patch";
    assert!(
        disk.patch(root, stale)
            .unwrap_err()
            .contains("context not found")
    );
    assert_eq!(disk.text("/tmp/workspace/a.txt"), "current\n");
    let escape = "*** Begin Patch\n*** Add File: ../escape.txt\n+no\n*** End Patch";
    disk.patch(root, escape).unwrap();
    assert_eq!(disk.text("/tmp/escape.txt"), "no\n");

    let absolute = "*** Begin Patch\n*** Add File: /tmp/absolute.txt\n+absolute\n*** End Patch";
    disk.patch(root, absolute).unwrap();
    assert_eq!(disk.text("/tmp/absolute.txt"), "absolute\n");
}

#[test]
fn patch_paths_are_extracted_for_scheduling() {
    let patch = "*** Begin Patch\n*** Update File: b.rs\n*** Add File: a.rs\n+x\n*** End Patch";
    assert_eq!(affected_paths(patch).unwrap(), ["a.rs", "b.rs"]);
}

#[test]
fn patches_capture_what_each_file_looked_like_before() {
    let mut disk = Disk::with(&[("/work/edit.rs", "one\ntwo\n"), ("/work/gone.rs", "removed\n")]);
    let patch = [
        "*** Begin Patch\n",
        "*** Update File: edit.rs\n",
        "@@\n",
        "-two\n",
        "+TWO\n",
        "*** Add File: new.rs\n",
        "+fresh\n",
        "*** Delete File: gone.rs\n",
        "*** End Patch",
    ]
    .concat();
    let snapshots = disk.patch_keeping("/work", &patch, 1024);

    let edited = find(&snapshots, "edit.rs");
    assert_eq!(edited.change, FileChange::Modified);
    assert_eq!(edited.before.as_deref(), Some("one\ntwo\n"));
    assert!(edited.restorable);
    // The fingerprint describes what the patch left behind, so a later restore
    // can tell whether anything else has touched the file since.
    let written = disk.text("/work/edit.rs");
    assert_eq!(edited.after_hash, content_hash(written));
    assert_eq!(edited.after_len, written.len() as u64);

    let added = find(&snapshots, "new.rs");
    assert_eq!(added.change, FileChange::Added);
    assert_eq!(added.before, None, "an added file had no previous contents");
    assert!(added.restorable, "restoring means deleting it again");

    let deleted = find(&snapshots, "gone.rs");
    assert_eq!(deleted.change, FileChange::Deleted);
    assert_eq!(deleted.before.as_deref(), Some("removed\n"));
}

#[test]
fn restoring_snapshots_puts_every_kind_of_change_back() {
    let mut disk = Disk::with(&[("/work/edit.rs", "one\ntwo\n"), ("/work/gone.rs", "removed\n")]);
    let patch = [
        "*** Begin Patch\n",
        "*** Update File: edit.rs\n",
        "@@\n",
        "-two\n",
        "+TWO\n",
        "*** Add File: nested/new.rs\n",
        "+fresh\n",
        "*** Delete File: gone.rs\n",
        "*** End Patch",
    ]
    .concat();
    let snapshots = disk.patch_keeping("/work", &patch, 1024);
    for snapshot in &snapshots {
        assert_eq!(
            disk.blocker(snapshot),
            None,
            "{} should be restorable right after the patch",
            snapshot.path
        );
        disk.restore(snapshot);
    }
    assert_eq!(disk.text("/work/edit.rs"), "one\ntwo\n");
    assert!(
        !disk.0.contains_key("/work/nested/new.rs"),
        "added file is removed"
    );
    assert_eq!(disk.text("/work/gone.rs"), "removed\n");
}

#[test]
fn a_file_edited_after_the_patch_is_not_restored_over() {
    let mut disk = Disk::with(&[("/work/edit.rs", "one\ntwo\n")]);
    let patch = "*** Begin Patch\n*** Update File: edit.rs\n@@\n-two\n+TWO\n*** End Patch";
    let snapshots = disk.patch_keeping("/work", patch, 1024);

    // Somebody edits the file after the agent wrote it. Reverting now would
    // throw that edit away, so it is refused rather than reverted.
    disk.0
        .insert("/work/edit.rs".to_owned(), "one\nTWO\nthree\n".to_owned());
    let blocker = disk.blocker(&snapshots[0]).expect("should be blocked");
    assert!(blocker.contains("changed since"), "{blocker}");

    // A file too large to snapshot says so instead of claiming a stale edit.
    disk.0.insert("/work/big.rs".to_owned(), "x\n".repeat(200));
    let snapshots = disk.patch_keeping(
        "/work",
        "*** Begin Patch\n*** Update File: big.rs\n@@\n-x\n+y\n*** End Patch",
        16,
    );
    let blocker = disk.blocker(&snapshots[0]).expect("should be blocked");
    assert!(blocker.contains("too large"), "{blocker}");
}

#[test]
fn repeated_edits_to_one_file_collapse_into_a_single_revert() {
    let mut disk = Disk::with(&[("/work/kept.rs", "one\n")]);

    // Turn 1 creates a file and edits an existing one.
    let first = disk.patch_keeping(
        "/work",
        "*** Begin Patch\n*** Add File: new.rs\n+bar\n*** Update File: kept.rs\n@@\n-one\n+two\n*** End Patch",
        4096,
    );
    // Turn 2 edits both again.
    let second = disk.patch_keeping(
        "/work",
        "*** Begin Patch\n*** Update File: new.rs\n@@\n-bar\n+bar123\n*** Update File: kept.rs\n@@\n-two\n+three\n*** End Patch",
        4096,
    );

    // The store hands back the newest change first.
    let mut newest_first = second;
    newest_first.extend(first);
    let coalesced = coalesce_snapshots(newest_first);
    assert_eq!(coalesced.len(), 2, "one entry per path: {coalesced:?}");

    // Created in the range, so reverting deletes it — and the agent's own later
    // edit must not read as an outside change.
    let created = find(&coalesced, "new.rs");
    assert_eq!(created.change, FileChange::Added);
    assert_eq!(disk.blocker(created), None);

    // Edited twice, so the revert target is the state before the first edit and
    // the freshness check is against the last state the agent left.
    let edited = find(&coalesced, "kept.rs");
    assert_eq!(edited.change, FileChange::Modified);
    assert_eq!(edited.before.as_deref(), Some("one\n"));
    assert_eq!(disk.blocker(edited), None);
    assert_eq!(edited.added, 2, "line counts cover the whole range");

    for snapshot in &coalesced {
        disk.restore(snapshot);
    }
    assert!(!disk.0.contains_key("/work/new.rs"));
    assert_eq!(disk.text("/work/kept.rs"), "one\n");
}

#[test]
fn a_file_created_and_then_deleted_again_needs_no_revert() {
    let mut disk = Disk::default();
    let created = disk.patch_keeping(
        "/work",
        "*** Begin Patch\n*** Add File: scratch.rs\n+temp\n*** End Patch",
        4096,
    );
    let deleted = disk.patch_keeping(
        "/work",
        "*** Begin Patch\n*** Delete File: scratch.rs\n*** End Patch",
        4096,
    );
    let mut newest_first = deleted;
    newest_first.extend(created);
    assert!(
        coalesce_snapshots(newest_first).is_empty(),
        "the range left nothing behind, so there is nothing to offer"
    );
}

#[test]
fn a_file_too_large_to_snapshot_is_reported_not_truncated() {
    let mut disk = Disk::with(&[("/work/big.rs", &"x\n".repeat(200))]);
    let patch = "*** Begin Patch\n*** Update File: big.rs\n@@\n-x\n+y\n*** End Patch";
    let snapshots = disk.patch_keeping("/work", patch, 16);
    assert!(!snapshots[0].restorable);
    assert_eq!(
        snapshots[0].before, None,
        "a partial restore would corrupt the file, so nothing is kept"
    );
    // The patch itself still applied.
    assert!(disk.text("/work/big.rs").starts_with("y\n"));
}

#[test]
fn patches_that_cannot_be_read_are_refused() {
    for patch in [
        "",
        "no patch",
        "*** Begin Patch\n*** End Patch",
        "*** Begin Patch\n*** Update File: a.rs\n@@\nwrong\n*** End Patch",
        "*** Begin Patch\n*** Add File: a.rs\nplain\n*** End Patch",
        "*** Begin Patch\nstray\n*** End Patch",
    ] {
        assert!(parse_patch(patch).is_err(), "{patch:?}");
    }
}

#[test]
fn files_that_are_not_where_a_patch_expects_them_are_refused() {
    let mut disk = Disk::with(&[("/work/here.rs", "text\n")]);
    for patch in [
        "*** Begin Patch\n*** Add File: here.rs\n+x\n*** End Patch",
        "*** Begin Patch\n*** Delete File: missing.rs\n*** End Patch",
        "*** Begin Patch\n*** Update File: missing.rs\n@@\n-a\n+b\n*** End Patch",
    ] {
        assert!(disk.patch("/work", patch).is_err(), "{patch:?}");
    }
    assert_eq!(disk.text("/work/here.rs"), "text\n");
}

#[test]
fn hunks_are_applied_one_after_another() {
    let operations = parse_patch(
        "*** Begin Patch\n*** Update File: a\n@@\n-1\n+one\n@@\n 3\n-4\n+four\n*** End Patch",
    )
    .unwrap();
    let a_agent::tools::patch::Operation::Update { hunks, .. } = &operations[0] else {
        panic!("expected an update");
    };
    let (text, added, removed) = apply_hunks("1\n2\n3\n4\n", hunks, "a").unwrap();
    assert_eq!(text, "one\n2\n3\nfour\n");
    assert_eq!((added, removed), (2, 2));
    assert!(apply_hunks("1\n", hunks, "a").is_err());
}

#[test]
fn updates_add_and_remove_as_many_lines_as_they_count() {
    let patch = "*** Begin Patch\n*** Update File: a\n@@\n one\n-two\n+2\n+2.5\n@@\n three\n*** End Patch";
    let operations = parse_patch(patch).unwrap();
    let Operation::Update { hunks, .. } = &operations[0] else {
        panic!("expected an update");
    };
    let (text, added, removed) = apply_hunks("one\ntwo\nthree\n", hunks, "a").unwrap();
    assert_eq!(text, "one\n2\n2.5\nthree\n");
    assert_eq!((added, removed), (2, 1));
    let context = "*** Begin Patch\n*** Update File: a\n@@\n three\n*** End Patch";
    let operations = parse_patch(context).unwrap();
    let Operation::Update { hunks, .. } = &operations[0] else {
        panic!("expected an update");
    };
    let (text, added, removed) = apply_hunks("x\nthree\n", hunks, "a").unwrap();
    assert_eq!(text, "x\nthree\n");
    assert_eq!((added, removed), (0, 0));
}

#[test]
fn a_patch_claims_the_files_of_its_operations() {
    let patch = "*** Begin Patch\n*** Update File: z\n@@\n-a\n+b\n*** Add File: b\n+x\n*** Delete File: a\n*** End Patch";
    let operations = parse_patch(patch).unwrap();
    let mut paths = operations
        .iter()
        .map(|operation| operation.path().clone())
        .collect::<Vec<_>>();
    assert_eq!(paths, ["z", "b", "a"]);
    paths.sort();
    assert_eq!(affected_paths(patch).unwrap(), paths);
    let call = ToolCall::new("c", "apply_patch", patch);
    assert_eq!(scheduling_paths(&call, &Err("bare".to_owned())), paths);
}

#[test]
fn fingerprints_tell_texts_apart() {
    assert_eq!(content_hash("one"), content_hash("one"));
    assert_ne!(content_hash("one"), content_hash("two"));
}

// ---------------------------------------------------------------------------
// Paths

#[test]
fn paths_are_made_absolute_without_looking_at_the_disk() {
    assert!(is_absolute("/a") && !is_absolute("a"));
    assert_eq!(join_path("/a", "b"), "/a/b");
    assert_eq!(join_path("/a", "/b"), "/b");
    assert_eq!(normalize("/a/./b/../c").unwrap(), "/a/c");
    assert_eq!(unrestricted_path("/a/b", "../c").unwrap(), "/a/c");
    assert_eq!(
        ancestors("/a/b"),
        ["/a/b".to_owned(), "/a".to_owned(), "/".to_owned()]
    );
}

#[test]
fn a_leading_dot_is_a_part_of_a_path() {
    assert_eq!(ancestors("./p"), ["./p", ".", ""]);
    assert_eq!(ancestors("p/./q"), ["p/./q", "p", ""]);
    assert_eq!(ancestors(""), [""]);
    assert!(!is_same_path("./a", "a"));
    assert!(is_same_path("./a", ".//a/."));
    assert!(is_same_path("a/./b", "a/b"));
    assert!(is_same_path("/./a", "/a"));
}

#[test]
fn the_directory_that_holds_a_path_is_cut_from_it() {
    assert_eq!(parent_path("/a/b/").as_deref(), Some("/a"));
    assert_eq!(parent_path("/a//b").as_deref(), Some("/a"));
    assert_eq!(parent_path("a").as_deref(), Some(""));
    assert_eq!(parent_path("/a").as_deref(), Some("/"));
    assert_eq!(parent_path("/"), None);
    assert_eq!(parent_path(""), None);
}

// ---------------------------------------------------------------------------
// bash

fn options(timeout: u64, max_timeout: u64) -> BashOptions {
    BashOptions {
        timeout,
        max_timeout,
        max_output_bytes: 100,
    }
}

fn bash_args(timeout_seconds: Option<u64>) -> BashArgs {
    BashArgs {
        command: "sleep 1; echo done".to_owned(),
        timeout_seconds,
    }
}

fn run(options: &BashOptions, events: &[BashEvent], exit_code: Option<i32>) -> BashResult {
    let mut run = BashRun::new(options);
    for event in events {
        run.step(event);
    }
    run.finish(exit_code, "0.2", None, options)
}

#[test]
fn output_is_kept_with_the_exit_status() {
    let result = run(
        &options(30_000, 60_000),
        &[
            BashEvent::Chunk(b"out".to_vec()),
            BashEvent::Chunk(b"err".to_vec()),
            BashEvent::Exited,
            BashEvent::Drained,
        ],
        Some(7),
    );
    assert!(!result.timed_out);
    assert!(result.output.contains("out"));
    assert!(result.output.contains("err"));
    assert_eq!(result.exit_code, Some(7));
}

#[test]
fn a_call_can_ask_for_more_time() {
    let options = options(200, 30_000);

    // The default would kill this command.
    assert_eq!(options.resolve_timeout(&bash_args(None)), (200, None));
    let killed = run(
        &options,
        &[BashEvent::Deadline, BashEvent::Exited, BashEvent::Drained],
        None,
    );
    assert!(killed.timed_out);
    assert!(
        killed.output.contains("pass timeout_seconds up to 30"),
        "a timeout should say how to ask for more time: {}",
        killed.output
    );

    // Asking for more time lets it finish.
    assert_eq!(options.resolve_timeout(&bash_args(Some(30))), (30_000, None));
    let finished = run(
        &options,
        &[
            BashEvent::Chunk(b"done\n".to_vec()),
            BashEvent::Exited,
            BashEvent::Drained,
        ],
        Some(0),
    );
    assert!(!finished.timed_out);
    assert!(finished.output.contains("done"), "{}", finished.output);
}

#[test]
fn more_time_than_the_ceiling_is_capped_and_reported() {
    let options = options(30_000, 1_000);
    let (timeout, capped_from) = options.resolve_timeout(&bash_args(Some(3600)));
    assert_eq!((timeout, capped_from), (1_000, Some(3600)));
    let mut run = BashRun::new(&options);
    assert!(matches!(run.step(&BashEvent::Deadline), BashStep::Terminate));
    let result = run.finish(None, "1.0", capped_from, &options);
    assert!(result.timed_out);
    assert!(
        result
            .output
            .contains("timeout_seconds 3600 was capped at 1"),
        "the cap must be visible, not silent: {}",
        result.output
    );
}

#[test]
fn a_cancelled_command_says_so() {
    let result = run(
        &options(30_000, 60_000),
        &[BashEvent::Cancelled, BashEvent::Exited, BashEvent::Drained],
        None,
    );
    assert!(result.cancelled);
}

#[test]
fn a_cancelled_command_is_a_tool_error() {
    let result = run(
        &options(30_000, 60_000),
        &[BashEvent::Cancelled, BashEvent::Exited, BashEvent::Drained],
        None,
    );
    let result = conclude_bash("cancelled", Ok(result)).result;
    assert!(result.is_error);
    assert!(result.output.contains("[bash cancelled]"));
}

#[test]
fn the_end_of_a_long_output_is_kept() {
    let mut output = BoundedOutput::new(4);
    output.push(b"abc");
    output.push(b"defg");
    assert_eq!(
        output.finish(),
        "[output truncated; dropped 3 bytes]\ndefg"
    );
    let mut broken = BoundedOutput::new(10);
    broken.push(&[b'a', 0xff, b'b']);
    assert_eq!(broken.finish(), "a\u{fffd}b");
}

#[test]
fn a_command_that_fails_is_a_tool_error() {
    let ended = |code| BashResult {
        output: "text".to_owned(),
        exit_code: Some(code),
        timed_out: false,
        cancelled: false,
    };
    let good = conclude_bash("c", Ok(ended(0))).result;
    assert!(!good.is_error);
    assert!(good.output.contains("[exit code: 0]"), "{}", good.output);
    assert!(conclude_bash("c", Ok(ended(1))).result.output.contains("[exit code: 1]"));
    assert!(conclude_bash("c", Err("no bash".to_owned())).result.is_error);
}

// ---------------------------------------------------------------------------
// The runner

#[test]
fn calls_are_dispatched_by_name() {
    let executor = CoreToolExecutor::new("/work", 1000, 30_000, 1024)
        .with_max_timeout(60_000)
        .with_snapshot_max_bytes(16);
    assert_eq!(executor.bash_options.max_timeout, 60_000);
    assert_eq!(executor.snapshot_max_bytes, 16);
    for (name, tool) in [
        ("read", Tool::Read),
        ("apply_patch", Tool::ApplyPatch),
        ("bash", Tool::Bash),
    ] {
        let call = ToolCall::new("c", name, "{}");
        assert!(matches!(executor.dispatch(&call, false), Dispatch::Run(t) if t == tool));
    }
    match executor.dispatch(&ToolCall::new("c", "fly", "{}"), false) {
        Dispatch::Refuse(outcome) => {
            assert!(outcome.result.is_error);
            assert!(outcome.result.output.contains("fly"));
        }
        other => panic!("expected a refusal, got {other:?}"),
    }
    assert!(matches!(
        executor.dispatch(&ToolCall::new("c", "read", "{}"), true),
        Dispatch::Refuse(_)
    ));
}

#[test]
fn a_patch_reports_what_it_changed() {
    let mut disk = Disk::with(&[("/work/a.rs", "one\n")]);
    let patch = "*** Begin Patch\n*** Update File: a.rs\n@@\n-one\n+two\n*** End Patch";
    let plan = disk.patch("/work", patch).unwrap();
    let outcome = conclude_patch("c", Ok(plan.summary));
    assert!(!outcome.result.is_error);
    assert!(outcome.result.output.ends_with("a.rs (+1 -1)"), "{}", outcome.result.output);
    assert_eq!(outcome.snapshots.len(), 1);
    assert!(conclude_patch("c", Err("stale".to_owned())).result.is_error);
}

#[test]
fn patches_of_one_file_claim_it() {
    let patch = "*** Begin Patch\n*** Update File: same.rs\n@@\n-a\n+b\n*** End Patch";
    let arguments = compact_text(&object1("patch", text_json(patch)));
    let decoded = parse_json(&arguments)
        .and_then(|value| value.text("patch"))
        .ok_or_else(|| "no patch".to_owned());
    let one = scheduling_paths(&ToolCall::new("one", "apply_patch", &arguments), &decoded);
    let two = scheduling_paths(&ToolCall::new("two", "apply_patch", &arguments), &decoded);
    assert_eq!(one, ["same.rs"]);
    assert_eq!(one, two);
}

#[test]
fn independent_calls_claim_nothing() {
    let none = Err("no patch".to_owned());
    assert!(scheduling_paths(&ToolCall::new("one", "read", "{}"), &none).is_empty());
    assert!(scheduling_paths(&ToolCall::new("two", "read", "{}"), &none).is_empty());
    assert_eq!(parallel_limit(2), 2);
    assert_eq!(parallel_limit(0), 1);
}

#[test]
fn a_bare_patch_is_taken_as_it_stands() {
    let bare = "\n*** Begin Patch\n*** End Patch";
    assert_eq!(patch_text(bare, &Err("no JSON".to_owned())).unwrap(), bare);
    assert_eq!(patch_text("{}", &Ok("inner".to_owned())).unwrap(), "inner");
    assert!(patch_text("{}", &Err("no JSON".to_owned())).is_err());
}
