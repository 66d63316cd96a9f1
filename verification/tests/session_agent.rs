use a_agent::agent::{Agent, AgentResult, Order, Reply, estimate_context_tokens, read_summary};
use a_agent::cli::commands::switch_model_selection;
use a_agent::config::{Config, ModelProfile, ProviderConfig, ProviderKind};
use a_agent::model::{
    ContentBlock, ConversationItem, ModelTurn, Role, StreamEvent, ToolCall, ToolResult, Usage,
};
use a_agent::session::{
    BranchWalk, CONVERSATION_SUMMARY_PREFIX, NewSession, Session, ShellHistoryItem, SnapshotRow,
    TURN_INTERRUPTED_NOTICE, add_column, default_database_path, first_user_prompt, from_row,
    item_kind, item_id_of, needs_rebuild, new_item_id, new_session_id, price_cutoff, role_to_str, session_id_of, str_to_role,
    to_row,
};
use a_agent::store::{
    ItemRow, SessionRow, ShellRow, SnapshotStamp, USER_MESSAGE, append_item,
    append_turn_interrupted, clear_session, create_session, find_client_session,
    find_latest_session, prune_input_history, prune_shell_history, rank,
    rebind_client_session_key, recent_input_history, recent_sessions, recent_shell_history,
    replace_branch_with_summary, rewind, session_request_usage, snapshots_from_turn,
    user_checkpoints,
};
use a_agent::tools::patch::{FileChange, FileSnapshot};
use a_agent::tools::runner::ToolOutcome;

// ---------------------------------------------------------------------------
// A conversation in memory

struct Store {
    sessions: Vec<SessionRow>,
    items: Vec<ItemRow>,
    now: i64,
}

fn text(text: &str) -> Vec<ContentBlock> {
    vec![ContentBlock::Text(text.to_owned())]
}

impl Store {
    fn open_in_memory() -> Store {
        Store {
            sessions: Vec::new(),
            items: Vec::new(),
            now: 0,
        }
    }

    fn now(&mut self) -> i64 {
        self.now += 1;
        self.now
    }

    /// A store with one session.
    fn new() -> (Store, Session) {
        let mut store = Store::open_in_memory();
        let session = store.create_session(NewSession::new("/repo", "responses", "model"));
        (store, session)
    }

    fn create_session(&mut self, new: NewSession) -> Session {
        let now = self.now();
        let row = create_session(&new, new_session_id(), now);
        let session = row.session.clone();
        self.sessions.push(row);
        session
    }

    fn row(&mut self, id: &str) -> &mut SessionRow {
        self.sessions
            .iter_mut()
            .find(|row| row.session.id == id)
            .expect("the session")
    }

    fn append_item(&mut self, id: &str, role: Role, blocks: Vec<ContentBlock>) -> ConversationItem {
        self.append(id, role, blocks, None)
    }

    fn append(
        &mut self,
        id: &str,
        role: Role,
        blocks: Vec<ContentBlock>,
        usage: Option<Usage>,
    ) -> ConversationItem {
        let now = self.now();
        let row = self.row(id);
        let kept = append_item(&mut row.session, new_item_id(), role, blocks, usage, now);
        row.has_message = row.has_message || kept.kind == USER_MESSAGE;
        self.keep(kept)
    }

    fn append_turn_interrupted(&mut self, id: &str) {
        let now = self.now();
        let kept = append_turn_interrupted(&mut self.row(id).session, new_item_id(), now);
        self.keep(kept);
    }

    fn replace_branch_with_summary(&mut self, id: &str, summary: &str) {
        let now = self.now();
        let session = &mut self.row(id).session;
        let kept = replace_branch_with_summary(session, new_item_id(), summary, now);
        self.keep(kept);
    }

    fn keep(&mut self, row: ItemRow) -> ConversationItem {
        let item = row.item.clone();
        self.items.push(row);
        item
    }

    fn get_item(&self, id: &str) -> Option<ConversationItem> {
        let row = self.items.iter().find(|row| row.item.id == id);
        row.map(|row| row.item.clone())
    }

    fn rewind(&mut self, id: &str, item_id: &str) -> Result<(), String> {
        let now = self.now();
        let row = self
            .sessions
            .iter_mut()
            .find(|row| row.session.id == id)
            .expect("the session");
        rewind(&mut row.session, &self.items, item_id, now)
    }

    fn active_branch(&mut self, id: &str) -> Result<Vec<ConversationItem>, String> {
        let mut walk = BranchWalk::new(&self.row(id).session.head_item_id.clone());
        while let Some(id) = walk.next.clone() {
            walk.take(self.get_item(&id))?;
        }
        Ok(walk.finish())
    }
}

struct Played {
    result: AgentResult,
    events: Vec<StreamEvent>,
    requests: usize,
}

fn play(
    agent: &Agent,
    store: &mut Store,
    session: &Session,
    prompt: &str,
    turns: Vec<ModelTurn>,
) -> Played {
    let mut turns = turns.into_iter();
    let (mut run, mut orders) = agent.submit(prompt, false);
    let mut events = Vec::new();
    let mut requests = 0;
    loop {
        let mut reply = None;
        for order in orders {
            match order {
                Order::Emit(event) => events.push(event),
                Order::Append {
                    role,
                    blocks,
                    usage,
                } => {
                    store.append(&session.id, role, blocks, usage);
                }
                Order::AppendResult { result, .. } => {
                    let blocks = vec![ContentBlock::ToolResult(result)];
                    store.append_item(&session.id, Role::Tool, blocks);
                }
                Order::KeepState(_) => {}
                Order::ReplaceBranch(summary) => {
                    store.replace_branch_with_summary(&session.id, &summary);
                }
                Order::LoadBranch => {
                    reply = Some(Reply::Branch(store.active_branch(&session.id).unwrap()));
                }
                Order::Summarize(_) | Order::Ask(_) => {
                    requests += 1;
                    reply = Some(Reply::Turn(turns.next().expect("another turn")));
                }
                Order::RunTools(calls) => {
                    reply = Some(Reply::Outcomes(
                        calls
                            .iter()
                            .map(|call| ToolOutcome::plain(ToolResult::success(&call.id, "1: code")))
                            .collect(),
                    ));
                }
                Order::Finish(result) => {
                    return Played {
                        result,
                        events,
                        requests,
                    };
                }
                Order::Fail { message, .. } => panic!("the turn failed: {message}"),
            }
        }
        orders = run.step(&reply.expect("an order that asks for a reply"), false);
    }
}

fn total(tokens: u64) -> Option<Usage> {
    Some(Usage {
        total_tokens: Some(tokens),
        ..Usage::default()
    })
}

fn texts(branch: &[ConversationItem]) -> Vec<String> {
    branch
        .iter()
        .flat_map(|item| &item.blocks)
        .filter_map(|block| match block {
            ContentBlock::Text(text) => Some(text.clone()),
            _ => None,
        })
        .collect()
}

fn is_summary(blocks: &[ContentBlock]) -> bool {
    blocks.iter().any(
        |block| matches!(block, ContentBlock::Text(text) if text.starts_with(CONVERSATION_SUMMARY_PREFIX)),
    )
}

// ---------------------------------------------------------------------------
// Sessions

#[test]
fn sessions_resume_by_cwd_and_reconstruct_active_branch() {
    let (mut store, session) = Store::new();
    let user = store.append_item(&session.id, Role::User, text("hello"));
    let assistant = store.append_item(&session.id, Role::Assistant, text("hi"));
    assert_eq!(
        find_latest_session(&store.sessions, "/repo").unwrap().id,
        session.id
    );
    assert_eq!(find_latest_session(&store.sessions, "/other"), None);
    assert_eq!(
        store
            .active_branch(&session.id)
            .unwrap()
            .iter()
            .map(|item| item.id.as_str())
            .collect::<Vec<_>>(),
        [user.id, assistant.id]
    );
    let sent = user_checkpoints(&store.items, &session.id);
    assert_eq!(first_user_prompt(&sent[0].blocks).as_deref(), Some("hello"));
}

#[test]
fn usage_is_kept_with_its_item() {
    let usage = Usage {
        input_tokens: Some(11),
        output_tokens: Some(7),
        cached_tokens: Some(5),
        cache_write_tokens: Some(3),
        total_tokens: Some(26),
    };
    let (mut store, session) = Store::new();
    store.append(&session.id, Role::Assistant, text("answer"), Some(usage));
    let branch = store.active_branch(&session.id).unwrap();
    assert_eq!(branch[0].usage.unwrap().context_tokens(), Some(26));
    let told = |total| Usage {
        total_tokens: Some(total),
        ..Usage::default()
    };
    assert_eq!(
        session_request_usage(&vec![(9, Some(told(3))), (5, None), (4, Some(told(1)))]),
        [told(1), told(3)]
    );
}

fn configured() -> Config {
    let mut config = Config::default();
    let mut provider = ProviderConfig::default();
    provider.kind = ProviderKind::Anthropic;
    config.providers.put("other", provider);
    let mut profile = ModelProfile::default();
    profile.provider = "other".to_owned();
    profile.model = "model-deep".to_owned();
    profile.effort = Some("high".to_owned());
    profile.efforts = vec!["low".to_owned(), "high".to_owned()];
    config.models.put("deep", profile);
    config
}

#[test]
fn session_persists_model_profile_and_effort_changes() {
    let mut store = Store::open_in_memory();
    let session = store.create_session(
        NewSession::new("/repo", "responses", "gpt-fast").with_model_selection("fast", Some("low")),
    );
    assert_eq!(session.model_profile.as_deref(), Some("fast"));
    assert_eq!(session.effort.as_deref(), Some("low"));

    let selection = configured().resolve_model(Some("deep"), Some("high")).unwrap();
    switch_model_selection(&mut store.row(&session.id).session, &selection);
    let resumed = &store.row(&session.id).session;
    assert_eq!(resumed.provider_type, "anthropic");
    assert_eq!(resumed.model, "model-deep");
    assert_eq!(resumed.model_profile.as_deref(), Some("deep"));
    assert_eq!(resumed.effort.as_deref(), Some("high"));
}

#[test]
fn client_sessions_are_isolated_by_fish_key_and_cwd() {
    let mut store = Store::open_in_memory();
    let first = store.create_session(
        NewSession::new("/repo", "responses", "model").with_client_session_key("fish-one"),
    );
    let second = store.create_session(
        NewSession::new("/repo", "responses", "model").with_client_session_key("fish-two"),
    );
    let other_cwd = store.create_session(
        NewSession::new("/other", "responses", "model").with_client_session_key("fish-one"),
    );
    let found = |cwd: &str, key: &str| find_client_session(&store.sessions, cwd, key);
    assert_eq!(found("/repo", "fish-one").unwrap().id, first.id);
    assert_eq!(found("/repo", "fish-two").unwrap().id, second.id);
    assert_eq!(found("/other", "fish-one").unwrap().id, other_cwd.id);
    assert_eq!(found("/other", "fish-two"), None);
}

#[test]
fn recent_sessions_can_rebind_the_current_fish_key() {
    let mut store = Store::open_in_memory();
    let original = store.create_session(
        NewSession::new("/repo", "responses", "first").with_client_session_key("fish-one"),
    );
    let target = store.create_session(NewSession::new("/repo", "anthropic", "second"));
    let elsewhere = store.create_session(NewSession::new("/other", "responses", "other"));
    store.append_item(&original.id, Role::User, text("first session"));
    store.append_item(&target.id, Role::User, text("target session"));

    let recent = recent_sessions(&store.sessions, "/repo", 10);
    assert_eq!(
        recent
            .iter()
            .map(|session| session.id.as_str())
            .collect::<Vec<_>>(),
        [target.id.as_str(), original.id.as_str()]
    );
    assert_eq!(recent_sessions(&store.sessions, "/repo", 1)[0].id, target.id);
    assert!(recent_sessions(&store.sessions, "/other", 10).is_empty());
    let rows = &mut store.sessions;
    rebind_client_session_key(rows, "/repo", "fish-one", &target.id, 20).unwrap();
    assert_eq!(
        find_client_session(rows, "/repo", "fish-one").unwrap().id,
        target.id
    );
    assert_eq!(rows[0].client_session_key, None);

    let mut refused =
        |key: &str, id: &str| rebind_client_session_key(rows, "/repo", key, id, 21).unwrap_err();
    assert!(refused("fish-one", &elsewhere.id).contains("different cwd"));
    assert!(refused("fish-two", &target.id).contains("another Fish process"));
    assert!(refused("fish-one", "a_lost").contains("session not found: a_lost"));
}

#[test]
fn turn_interruption_is_model_context_but_not_a_rewind_checkpoint() {
    let (mut store, session) = Store::new();
    store.append_item(&session.id, Role::User, text("long task"));
    store.append_turn_interrupted(&session.id);

    let branch = store.active_branch(&session.id).unwrap();
    assert!(
        branch
            .iter()
            .any(|item| item.blocks == text(TURN_INTERRUPTED_NOTICE))
    );
    assert_eq!(user_checkpoints(&store.items, &session.id).len(), 1);
}

#[test]
fn rewind_moves_head_without_deleting_old_branch() {
    let (mut store, session) = Store::new();
    let first = store.append_item(&session.id, Role::User, text("first"));
    let old = store.append_item(&session.id, Role::Assistant, text("old"));
    store.rewind(&session.id, &first.id).unwrap();
    let next = store.append_item(&session.id, Role::User, text("new"));
    assert_eq!(
        store
            .active_branch(&session.id)
            .unwrap()
            .iter()
            .map(|item| item.id.as_str())
            .collect::<Vec<_>>(),
        [first.id.as_str(), next.id.as_str()]
    );
    assert_eq!(
        store.get_item(&old.id).unwrap().parent_id.as_deref(),
        Some(first.id.as_str())
    );
    assert_eq!(store.items.len(), 3);

    let other = store.create_session(NewSession::new("/repo", "anthropic", "model"));
    let foreign = store.rewind(&other.id, &first.id).unwrap_err();
    assert!(foreign.contains("does not belong to session"), "{foreign}");
    let lost = store.rewind(&session.id, "i_lost").unwrap_err();
    assert!(lost.contains("rewind item not found: i_lost"), "{lost}");
}

#[test]
fn a_cleared_session_follows_nothing() {
    let (mut store, session) = Store::new();
    store.append_item(&session.id, Role::User, text("first"));
    clear_session(&mut store.row(&session.id).session, 9);
    assert!(store.active_branch(&session.id).unwrap().is_empty());
    assert_eq!(store.row(&session.id).session.updated_at, 9);
    assert_eq!(store.items.len(), 1);
}

#[test]
fn items_are_kept_by_kind() {
    let call = vec![ContentBlock::ToolCall(ToolCall::new("c", "read", "{}"))];
    let reasoning = vec![ContentBlock::Reasoning("why".to_owned())];
    assert_eq!(item_kind(Role::User, &text("x")), "user_message");
    assert_eq!(item_kind(Role::Tool, &text("x")), "tool_result");
    assert_eq!(item_kind(Role::System, &text("x")), "system_checkpoint");
    assert_eq!(item_kind(Role::Assistant, &call), "tool_call");
    assert_eq!(item_kind(Role::Assistant, &reasoning), "assistant_reasoning");
    assert_eq!(item_kind(Role::Assistant, &text("x")), "assistant_text");
}

fn shell_row(key: Option<&str>, command: &str, exit_code: i32, started_at: i64) -> ShellRow {
    ShellRow {
        item: ShellHistoryItem {
            id: started_at,
            cwd: "/repo".to_owned(),
            command: command.to_owned(),
            exit_code: Some(exit_code),
            pipe_status: None,
            started_at,
            duration_ms: Some(10),
        },
        client_session_key: key.map(str::to_owned),
    }
}

#[test]
fn shell_history_is_bounded_and_cwd_scoped() {
    let rows = (0..5)
        .map(|index| shell_row(None, &format!("cmd {index}"), index, index as i64))
        .collect::<Vec<_>>();
    let recent = recent_shell_history(&rows, "/repo", &None, 2);
    assert_eq!(
        recent
            .iter()
            .map(|item| item.command.as_str())
            .collect::<Vec<_>>(),
        ["cmd 4", "cmd 3"]
    );
    assert!(recent_shell_history(&rows, "/other", &None, 2).is_empty());
    assert_eq!(rows.len() - prune_shell_history(&rows, 3).len(), 3);
    assert_eq!(prune_shell_history(&rows, 3), [0, 1]);
    assert!(prune_shell_history(&rows, 5).is_empty());
}

#[test]
fn shell_history_can_be_scoped_to_one_fish_session() {
    let rows = vec![
        shell_row(Some("fish-one"), "cargo test", 0, 1),
        shell_row(Some("fish-two"), "git status", 0, 2),
        shell_row(Some("fish-one"), "cargo clippy", 0, 3),
    ];
    let first = recent_shell_history(&rows, "/repo", &Some("fish-one".to_owned()), 5);
    assert_eq!(
        first
            .iter()
            .map(|item| item.command.as_str())
            .collect::<Vec<_>>(),
        ["cargo clippy", "cargo test"]
    );
}

#[test]
fn input_history_is_global_chronological_and_bounded() {
    let mut lines = ["first prompt", "second prompt", "third prompt"]
        .map(str::to_owned)
        .to_vec();
    assert_eq!(
        recent_input_history(&lines, 2),
        ["second prompt", "third prompt"]
    );
    lines.drain(..prune_input_history(lines.len(), 2));
    assert_eq!(
        recent_input_history(&lines, 10),
        ["second prompt", "third prompt"]
    );
}

#[test]
fn snapshots_are_found_from_a_turn_on() {
    let stamp = |session_id: &str, created_at| SnapshotStamp {
        session_id: session_id.to_owned(),
        created_at,
    };
    let stamps = vec![stamp("a", 1), stamp("a", 5), stamp("b", 6), stamp("a", 7)];
    assert_eq!(snapshots_from_turn(&stamps, "a", Some(5)), [3, 1]);
    assert_eq!(snapshots_from_turn(&stamps, "a", Some(8)), [0usize; 0]);
    assert_eq!(snapshots_from_turn(&stamps, "a", None), [0usize; 0]);
}

#[test]
fn records_of_the_same_time_are_ranked_by_place() {
    let marks = vec![true, true, false, true, true];
    assert_eq!(rank(&vec![3, 7, 9, 7, 1], &marks, 3), [3, 1, 0]);
    assert_eq!(rank(&vec![3, 7, 9, 7, 1], &marks, 0), [0usize; 0]);
    assert_eq!(rank(&vec![3, 7, 9, 7, 1], &marks, 9), [3, 1, 0, 4]);
}

#[test]
fn a_lost_item_is_reported() {
    let (mut store, session) = Store::new();
    store.append_item(&session.id, Role::User, text("first"));
    store.items.clear();
    let lost = store.active_branch(&session.id).unwrap_err();
    assert!(lost.contains("conversation item not found: i_"), "{lost}");
}

#[test]
fn missing_columns_are_added() {
    let columns = vec!["id".to_owned(), "cwd".to_owned()];
    assert_eq!(
        add_column(&columns, "sessions", "client_session_key", "TEXT").as_deref(),
        Some("ALTER TABLE sessions ADD COLUMN client_session_key TEXT")
    );
    assert_eq!(add_column(&columns, "sessions", "cwd", "TEXT"), None);
    assert!(needs_rebuild(&columns, "fetched_at"));
    assert!(!needs_rebuild(&columns, "cwd"));
    assert!(!needs_rebuild(&Vec::new(), "cwd"));
}

#[test]
fn identifiers_are_new_each_time() {
    let id = new_session_id();
    assert!(id.starts_with("a_"), "{id}");
    assert_ne!(id, new_session_id());
    assert_ne!(new_item_id(), new_item_id());
}

#[test]
fn identifiers_are_made_of_random_digits() {
    let digits = "46ebd0ee0e6d43c9b90dccc35a913f3e";
    assert_eq!(session_id_of(digits), "a_46ebd0ee0e6d43c9b90dccc35a913f3e");
    assert_eq!(item_id_of(digits), "i_46ebd0ee0e6d43c9b90dccc35a913f3e");
    for (id, mark) in [(new_session_id(), "a_"), (new_item_id(), "i_")] {
        let digits = id.strip_prefix(mark).unwrap();
        assert_eq!(digits.len(), 32, "{id}");
        assert!(digits.chars().all(|c| matches!(c, '0'..='9' | 'a'..='f')), "{id}");
        assert_eq!(digits.as_bytes()[12], b'4', "{id}");
        assert!(matches!(digits.as_bytes()[16], b'8' | b'9' | b'a' | b'b'), "{id}");
    }
}

#[test]
fn roles_are_kept_by_name() {
    for role in [Role::User, Role::Assistant, Role::Tool, Role::System] {
        assert_eq!(str_to_role(role_to_str(role)).unwrap(), role);
    }
    assert!(str_to_role("narrator").is_err());
}

#[test]
fn snapshots_are_read_back_from_their_rows() {
    let snapshot = || FileSnapshot {
        path: "/repo/a.rs".to_owned(),
        change: FileChange::Modified,
        before: Some("one\n".to_owned()),
        after_len: 4,
        after_hash: u64::MAX,
        added: 1,
        removed: 2,
        restorable: true,
    };
    let row: SnapshotRow = to_row(&snapshot());
    assert_eq!(row.change, "modified");
    assert_eq!(from_row(row), snapshot());
}

#[test]
fn state_is_kept_where_the_environment_says() {
    assert_eq!(
        default_database_path("/home/user", &None),
        "/home/user/.local/state/a/sessions.db"
    );
    assert_eq!(
        default_database_path("/home/user", &Some("/state".to_owned())),
        "/state/a/sessions.db"
    );
    assert_eq!(price_cutoff(100, 30), 70);
}

// ---------------------------------------------------------------------------
// Turns

#[test]
fn one_logical_turn_runs_tools_until_final_response() {
    let (mut store, session) = Store::new();
    let agent = Agent::new(&session.id, "system", 10);
    let played = play(
        &agent,
        &mut store,
        &session,
        "fix it",
        vec![
            ModelTurn::with_tools(vec![ToolCall::new("call_1", "read", "{\"path\":\"a.rs\"}")]),
            ModelTurn::text("fixed"),
        ],
    );
    assert_eq!(played.result.final_text.as_deref(), Some("fixed"));
    assert_eq!(played.requests, 2);
    assert_eq!(
        played
            .events
            .iter()
            .filter(|event| matches!(event, StreamEvent::GenerationStart))
            .count(),
        2
    );
    assert_eq!(
        store
            .active_branch(&session.id)
            .unwrap()
            .iter()
            .map(|item| item.role)
            .collect::<Vec<_>>(),
        [Role::User, Role::Assistant, Role::Tool, Role::Assistant]
    );
}

#[test]
fn auto_compaction_uses_persisted_provider_usage_as_its_token_anchor() {
    let (mut store, session) = Store::new();
    store.append(&session.id, Role::User, text("old request"), None);
    store.append(&session.id, Role::Assistant, text("old answer"), total(90));
    let agent = Agent::new(&session.id, "system", 10).with_context_budget(Some(100), 20);
    let played = play(
        &agent,
        &mut store,
        &session,
        "new request",
        vec![ModelTurn::text("durable summary"), ModelTurn::text("answer")],
    );
    assert_eq!(played.result.final_text.as_deref(), Some("answer"));
    assert_eq!(played.requests, 2);
    let texts = texts(&store.active_branch(&session.id).unwrap());
    assert!(
        texts[0].starts_with(CONVERSATION_SUMMARY_PREFIX),
        "{texts:?}"
    );
    assert!(texts.contains(&"new request".to_owned()), "{texts:?}");
    assert!(texts.contains(&"answer".to_owned()), "{texts:?}");
    assert!(!texts.contains(&"old request".to_owned()), "{texts:?}");
}

#[test]
fn auto_compaction_does_not_reestimate_history_before_a_valid_usage_anchor() {
    let (mut store, session) = Store::new();
    store.append(&session.id, Role::User, text(&"x".repeat(10_000)), None);
    store.append(&session.id, Role::Assistant, text("old answer"), total(20));
    let agent = Agent::new(&session.id, "system", 10).with_context_budget(Some(100), 20);
    let played = play(
        &agent,
        &mut store,
        &session,
        "small follow-up",
        vec![ModelTurn::text("answer")],
    );
    assert_eq!(played.result.final_text.as_deref(), Some("answer"));
    assert_eq!(played.requests, 1);
    let branch = store.active_branch(&session.id).unwrap();
    assert!(branch.iter().any(|item| {
        item.blocks
            .iter()
            .any(|block| matches!(block, ContentBlock::Text(text) if text.len() == 10_000))
    }));
}

#[test]
fn context_status_combines_provider_usage_with_trailing_estimates() {
    let (mut store, session) = Store::new();
    store.append(&session.id, Role::Assistant, text("anchor"), total(100));
    store.append(
        &session.id,
        Role::Tool,
        vec![ContentBlock::ToolResult(ToolResult::success(
            "call",
            &"x".repeat(40),
        ))],
        None,
    );
    let agent = Agent::new(&session.id, "system", 10).with_context_budget(Some(1000), 100);
    let status = agent.context_status(&store.active_branch(&session.id).unwrap());
    assert_eq!(status.used_tokens, 110);
    assert_eq!(status.provider_tokens, Some(100));
    assert_eq!(status.estimated_tokens, 10);
    assert_eq!(status.context_window, Some(1000));
    assert_eq!(status.compact_at, Some(900));
}

#[test]
fn auto_compaction_ignores_all_zero_usage() {
    let (mut store, session) = Store::new();
    store.append(
        &session.id,
        Role::Assistant,
        text(&"x".repeat(400)),
        Some(Usage::default()),
    );
    let agent = Agent::new(&session.id, "system", 10).with_context_budget(Some(100), 20);
    let played = play(
        &agent,
        &mut store,
        &session,
        "continue",
        vec![ModelTurn::text("durable summary"), ModelTurn::text("answer")],
    );
    assert_eq!(played.requests, 2);
    assert!(is_summary(&store.active_branch(&session.id).unwrap()[0].blocks));
}

#[test]
fn manual_compaction_replaces_the_active_branch_without_an_agent_turn() {
    let (mut store, session) = Store::new();
    let agent = Agent::new(&session.id, "system", 10);
    assert!(agent.compact(&store.active_branch(&session.id).unwrap()).is_empty());
    store.append(&session.id, Role::User, text("keep this context"), None);
    let orders = agent.compact(&store.active_branch(&session.id).unwrap());
    let requests = orders
        .iter()
        .filter(|order| matches!(order, Order::Summarize(_)))
        .count();
    assert_eq!(requests, 1);
    let summary = read_summary(&Reply::Turn(ModelTurn::text("manual summary"))).unwrap();
    store.replace_branch_with_summary(&session.id, &summary);
    let branch = store.active_branch(&session.id).unwrap();
    assert_eq!(branch.len(), 1);
    assert!(is_summary(&branch[0].blocks));
}

#[test]
fn a_compaction_that_gives_no_summary_fails() {
    let tools = ModelTurn::with_tools(vec![ToolCall::new("c", "read", "{}")]);
    for reply in [
        Reply::Turn(tools),
        Reply::Failed("offline".to_owned()),
        Reply::Turn(ModelTurn::with_tools(Vec::new())),
    ] {
        assert!(matches!(read_summary(&reply), Err(Order::Fail { .. })));
    }
}

#[test]
fn a_turn_asks_no_more_often_than_it_may() {
    let agent = Agent::new("a_session", "system", 1);
    let (mut run, orders) = agent.submit("loop", false);
    assert!(orders.iter().any(|order| matches!(order, Order::LoadBranch)));
    let mut asked = 0;
    let mut reply = Reply::Branch(Vec::new());
    for _ in 0..8 {
        let orders = run.step(&reply, false);
        match orders.into_iter().last() {
            Some(Order::LoadBranch) => reply = Reply::Branch(Vec::new()),
            Some(Order::Ask(_)) => {
                asked += 1;
                reply = Reply::Turn(ModelTurn::with_tools(vec![ToolCall::new("c", "read", "{}")]));
            }
            Some(Order::RunTools(_)) => {
                reply = Reply::Outcomes(vec![ToolOutcome::plain(ToolResult::success("c", "ok"))]);
            }
            Some(Order::Fail { message, .. }) => {
                assert!(message.contains("maximum agent cycles"), "{message}");
                assert_eq!(asked, 1);
                return;
            }
            other => panic!("unexpected order {other:?}"),
        }
    }
    panic!("the turn went on");
}

#[test]
fn a_cancelled_turn_fails() {
    let agent = Agent::new("a_session", "system", 10);
    let (_, orders) = agent.submit("stop", true);
    assert!(
        orders
            .iter()
            .any(|order| matches!(order, Order::Fail { .. } | Order::Append { .. }))
    );
}

#[test]
fn a_context_without_a_report_is_estimated_as_a_whole() {
    let estimate = estimate_context_tokens("system", &Vec::new(), Some("12345678"));
    assert_eq!(estimate.provider, None);
    assert_eq!(estimate.total, estimate.estimated);
    let without = estimate_context_tokens("system", &Vec::new(), None);
    assert_eq!(estimate.total - without.total, 2);
}
