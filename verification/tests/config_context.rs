use a_agent::config::{
    Config, ContextConfig, ModelProfile, ProviderConfig, ProviderKind, Rates, SessionConfig,
    ToolsConfig, UiConfig,
};
use a_agent::context::agents::{
    AgentsFile, agents_candidates, discover_agents, discover_agents_for_targets, target_directory,
};
use a_agent::context::builder::{ContextInput, build_system_prompt};
use a_agent::context::skills::{
    METADATA_LIMIT, SkillMetadata, SkillSource, discover_skills, name_differs, name_is_long,
    parse_skill_metadata, skill_roots,
};
use a_agent::context::stdin::{StdinSource, bound_stdin, classify_mode, stdin_source};
use a_agent::json::{Json, text_json};
use a_agent::model::Usage;
use a_agent::pricing::{
    CatalogModel, Cost, CostTier, Resolution, Schedule, has_measured_usage, likely_provider,
    request_context, resolve_from_catalog, source_url,
};
use a_agent::settings::{Setting, config_paths, merge_sources, merge_toml};
use a_agent::table::Table;

// ---------------------------------------------------------------------------
// A configuration made of what settings files hold

fn text(setting: Option<&Setting>) -> Option<String> {
    match setting {
        Some(Setting::Text(text)) => Some(text.clone()),
        _ => None,
    }
}

fn integer(setting: Option<&Setting>) -> Option<u64> {
    match setting {
        Some(Setting::Integer(n)) => Some(*n as u64),
        _ => None,
    }
}

fn bits(setting: Option<&Setting>) -> u64 {
    match setting {
        Some(Setting::Float(text)) => text.parse::<f64>().unwrap().to_bits(),
        Some(Setting::Integer(n)) => (*n as f64).to_bits(),
        _ => 0,
    }
}

fn entries(setting: Option<&Setting>) -> Vec<(String, &Setting)> {
    match setting {
        Some(Setting::Table(entries)) => entries
            .iter()
            .map(|(key, value)| (key.clone(), value))
            .collect(),
        _ => Vec::new(),
    }
}

fn texts(setting: Option<&Setting>) -> Vec<String> {
    match setting {
        Some(Setting::List(items)) => items.iter().map(|item| text(Some(item)).unwrap()).collect(),
        _ => Vec::new(),
    }
}

fn requested(setting: Option<&Setting>) -> Table<Json> {
    let mut table = Table::new();
    for (key, value) in entries(setting) {
        table.put(&key, text_json(&text(Some(value)).unwrap()));
    }
    table
}

fn headers(setting: Option<&Setting>) -> Table<String> {
    let mut table = Table::new();
    for (key, value) in entries(setting) {
        table.put(&key, text(Some(value)).unwrap());
    }
    table
}

fn decode(settings: &Setting) -> Config {
    let mut providers = Table::new();
    for (name, provider) in entries(settings.get("providers")) {
        let mut config = ProviderConfig::default();
        config.kind = ProviderKind::parse(&text(provider.get("type")).unwrap()).unwrap();
        config.base_url = text(provider.get("base_url"));
        config.api_key = text(provider.get("api_key"));
        if let Some(limit) = integer(provider.get("max_tokens")) {
            config.max_tokens = limit as u32;
        }
        config.headers = headers(provider.get("headers"));
        providers.put(&name, config);
    }
    let mut models = Table::new();
    for (name, model) in entries(settings.get("models")) {
        let mut profile = ModelProfile::default();
        profile.provider = text(model.get("provider")).unwrap();
        profile.model = text(model.get("model")).unwrap();
        profile.effort = text(model.get("effort"));
        profile.efforts = texts(model.get("efforts"));
        profile.context_window = integer(model.get("context_window"));
        profile.max_tokens = integer(model.get("max_tokens")).map(|limit| limit as u32);
        profile.pricing = text(model.get("pricing"));
        profile.cost = model.get("cost").map(|cost| Rates {
            input: bits(cost.get("input")),
            output: bits(cost.get("output")),
            cache_read: bits(cost.get("cache_read")),
            cache_write: bits(cost.get("cache_write")),
        });
        profile.headers = headers(model.get("headers"));
        profile.request = requested(model.get("request"));
        models.put(&name, profile);
    }
    let mut tools = ToolsConfig::default();
    if let Some(table) = settings.get("tools") {
        if let Some(seconds) = integer(table.get("bash_timeout_seconds")) {
            tools.bash_timeout_seconds = seconds;
        }
        if let Some(seconds) = integer(table.get("bash_max_timeout_seconds")) {
            tools.bash_max_timeout_seconds = seconds;
        }
    }
    Config {
        default_model: text(settings.get("default_model")).unwrap(),
        providers,
        models,
        ui: UiConfig::default(),
        tools,
        context: ContextConfig::default(),
        session: SessionConfig::default(),
    }
}

fn load(sources: &[&str]) -> Result<Config, String> {
    let files = sources
        .iter()
        .enumerate()
        .map(|(index, source)| (format!("/config/{index}.toml"), source.to_string()))
        .collect::<Vec<_>>();
    let merged = merge_sources(&files).map_err(|fault| fault.message)?;
    decode(&merged.settings).complete(&merged.explicit_api_key_envs)
}

fn refused(sources: &[&str]) -> String {
    match load(sources) {
        Ok(_) => panic!("the configuration should be refused"),
        Err(message) => message,
    }
}

#[test]
fn a_file_that_is_no_toml_is_named_with_the_fault() {
    let sources = vec![
        ("/home/config.toml".to_owned(), "default_model = \"x\"\n".to_owned()),
        ("/repo/config.toml".to_owned(), "ok = 1\nbroken =\n".to_owned()),
    ];
    let fault = merge_sources(&sources).err().unwrap();
    assert_eq!(fault.message, "parse config /repo/config.toml");
    let cause = fault.cause.unwrap();
    assert!(cause.contains("line 2"), "{cause}");
    assert!(cause.contains("broken ="), "{cause}");
    let legacy = vec![("/a".to_owned(), "[provider]\n".to_owned())];
    assert_eq!(merge_sources(&legacy).err().unwrap().cause, None);
}

#[test]
fn rejects_legacy_single_provider_configuration() {
    let error = refused(&[r#"
[provider]
type = "responses"
model = "old-model"
"#]);
    assert!(error.contains("legacy [provider]"), "{error}");
}

#[test]
fn resolves_multiple_provider_and_model_profiles_with_effort() {
    let config = load(&[
        r#"
default_model = "fast"

[providers.openai]
type = "responses"
base_url = "https://openai.example/v1"
api_key = "openai-secret"

[providers.cloud]
type = "anthropic"
base_url = "https://anthropic.example"
api_key = "cloud-secret"

[models.fast]
provider = "openai"
model = "gpt-fast"
effort = "low"
efforts = ["low", "medium", "high"]
context_window = 128000
max_tokens = 4096

[models.deep]
provider = "openai"
model = "gpt-deep"
effort = "high"
efforts = ["medium", "high", "max"]

[models.deep.request]
service_tier = "priority"

[models.cloud]
provider = "cloud"
model = "cloud-deep"
effort = "high"
efforts = ["low", "medium", "high", "max"]
"#,
        "[models.deep]\neffort = \"medium\"\n",
    ])
    .unwrap();
    assert_eq!(config.model_names(), ["cloud", "deep", "fast"]);

    let fast = config.resolve_model(None, None).unwrap();
    assert_eq!(fast.name, "fast");
    assert_eq!(fast.provider_name, "openai");
    assert_eq!(fast.provider.kind, ProviderKind::Responses);
    assert_eq!(fast.provider.model, "gpt-fast");
    assert_eq!(fast.provider.max_tokens, 4096);
    assert_eq!(fast.context_window, Some(128000));
    assert_eq!(fast.effort.as_deref(), Some("low"));
    let reasoning = fast.provider.request.get("reasoning").unwrap();
    assert_eq!(reasoning.text("effort").as_deref(), Some("low"));

    let merged = config.resolve_model(Some("deep"), None).unwrap();
    assert_eq!(merged.effort.as_deref(), Some("medium"));
    let deep = config.resolve_model(Some("deep"), Some("high")).unwrap();
    assert_eq!(deep.provider.model, "gpt-deep");
    assert_eq!(deep.effort.as_deref(), Some("high"));
    let reasoning = deep.provider.request.get("reasoning").unwrap();
    assert_eq!(reasoning.text("effort").as_deref(), Some("high"));
    let tier = deep.provider.request.get("service_tier").unwrap();
    assert_eq!(tier.as_text().as_deref(), Some("priority"));

    let cloud = config.resolve_model(Some("cloud"), Some("max")).unwrap();
    assert_eq!(cloud.provider.kind, ProviderKind::Anthropic);
    let output = cloud.provider.request.get("output_config").unwrap();
    assert_eq!(output.text("effort").as_deref(), Some("max"));
}

#[test]
fn model_without_effort_does_not_inject_reasoning_configuration() {
    let config = load(&[r#"
default_model = "plain"
[providers.internal]
type = "responses"
api_key = "secret"
[models.plain]
provider = "internal"
model = "provider-model"
"#])
    .unwrap();
    let model = config.resolve_model(None, None).unwrap();
    assert_eq!(model.effort, None);
    assert!(model.efforts.is_empty());
    assert!(!model.provider.request.has("reasoning"));
    assert!(config.resolve_model(None, Some("high")).is_err());
}

#[test]
fn context_window_must_leave_room_for_model_output() {
    let error = refused(&[r#"
default_model = "invalid"
[providers.test]
type = "responses"
api_key = "secret"
max_tokens = 4096
[models.invalid]
provider = "test"
model = "test-model"
context_window = 4096
"#]);
    assert!(error.contains("context_window"), "{error}");
    assert!(error.contains("max_tokens"), "{error}");
}

#[test]
fn the_bash_timeout_ceiling_defaults_high_and_cannot_sit_below_the_default() {
    let base = r#"
default_model = "test"
[providers.test]
type = "responses"
api_key = "secret"
[models.test]
provider = "test"
model = "test-model"
"#;
    let config = load(&[base]).unwrap();
    assert_eq!(config.tools.bash_timeout_seconds, 120);
    assert!(
        config.tools.bash_max_timeout_seconds >= config.tools.bash_timeout_seconds,
        "a call must be able to ask for at least the default"
    );

    let error = refused(&[&format!(
        "{base}\n[tools]\nbash_timeout_seconds = 300\nbash_max_timeout_seconds = 60\n"
    )]);
    assert!(error.contains("bash_max_timeout_seconds"), "{error}");
    assert!(error.contains("bash_timeout_seconds"), "{error}");
}

#[test]
fn explicit_costs_and_a_pricing_key_are_read_from_the_model_profile() {
    let config = load(&[r#"
default_model = "priced"
[providers.gateway]
type = "responses"
api_key = "secret"
[models.priced]
provider = "gateway"
model = "shared-model"
pricing = "deepseek/shared-model"
[models.priced.cost]
input = 0.5
output = 1.5
"#])
    .unwrap();
    let selection = config.resolve_model(None, None).unwrap();
    assert_eq!(selection.pricing.as_deref(), Some("deepseek/shared-model"));
    let cost = selection.cost.expect("explicit rates");
    assert_eq!(f64::from_bits(cost.input), 0.5);
    assert_eq!(f64::from_bits(cost.output), 1.5);
    assert_eq!(f64::from_bits(cost.cache_read), 0.0);
}

#[test]
fn an_unreadable_settings_file_is_named() {
    let error = refused(&["default_model = "]);
    assert!(error.contains("/config/0.toml"), "{error}");
}

#[test]
fn an_unconfigured_program_uses_openai() {
    let config = Config::default();
    assert_eq!(config.model_names(), ["default"]);
    let model = config.resolve_model(None, None).unwrap();
    assert_eq!(model.provider_name, "openai");
    assert_eq!(model.provider.model, "gpt-5.6");
    assert_eq!(model.effort.as_deref(), Some("medium"));
    assert_eq!(model.context_window, Some(1_050_000));
    assert_eq!(config.session.max_agent_cycles, 50);
}

#[test]
fn a_session_finds_the_model_it_was_held_with() {
    let config = load(&[r#"
default_model = "a"
[providers.p]
type = "chatcompletion"
[models.a]
provider = "p"
model = "model-a"
[models.b]
provider = "p"
model = "model-b"
"#])
    .unwrap();
    let found = config
        .resolve_session_model(None, "chatcompletion", "model-b", None)
        .unwrap();
    assert_eq!(found.name, "b");
    assert!(
        config
            .resolve_session_model(None, "chatcompletion", "model-c", None)
            .is_err()
    );
    assert!(
        config
            .resolve_session_model(None, "telegraph", "model-b", None)
            .is_err()
    );
    assert!(config.resolve_model(Some("c"), None).is_err());
}

#[test]
fn the_profile_with_the_least_name_goes_on_with_a_session() {
    let config = load(&[r#"
default_model = "z"
[providers.p]
type = "chatcompletion"
headers = { "x-a" = "provider", "x-b" = "provider" }
[models.z]
provider = "p"
model = "same"
[models.m]
provider = "p"
model = "same"
headers = { "x-b" = "profile" }
[models.b]
provider = "p"
model = "other"
"#])
    .unwrap();
    assert_eq!(config.model_names(), ["b", "m", "z"]);
    let found = config
        .resolve_session_model(None, "chatcompletion", "same", None)
        .unwrap();
    assert_eq!(found.name, "m");
    assert_eq!(found.provider.headers.keys(), ["x-a", "x-b"]);
    assert_eq!(found.provider.headers.get("x-a").unwrap(), "provider");
    assert_eq!(found.provider.headers.get("x-b").unwrap(), "profile");
}

#[test]
fn later_settings_are_laid_over_earlier_ones() {
    let (user, project) = config_paths("/repo", "/home/user");
    assert_eq!(user, "/home/user/.config/a/config.toml");
    assert_eq!(project, "/repo/.a/config.toml");
    let base = Setting::Table(vec![
        ("kept".to_owned(), Setting::Integer(1)),
        ("changed".to_owned(), Setting::Integer(2)),
    ]);
    let overlay = Setting::Table(vec![("changed".to_owned(), Setting::Integer(3))]);
    let merged = merge_toml(&base, &overlay);
    assert!(matches!(merged.get("kept"), Some(Setting::Integer(1))));
    assert!(matches!(merged.get("changed"), Some(Setting::Integer(3))));
}

// ---------------------------------------------------------------------------
// Standard input

#[test]
fn stdin_is_bounded_by_bytes_and_keeps_the_tail() {
    let result = bound_stdin(b"header\nline one\nimportant failure\n", 20);
    assert!(result.starts_with("[stdin truncated; showing last 20 bytes]\n"));
    assert!(result.ends_with("important failure\n"));
}

#[test]
fn only_pipes_and_files_count_as_this_turn_input() {
    let (file, pipe, socket) = (0o100644, 0o010600, 0o140777);
    assert_eq!(classify_mode(Some(file)), StdinSource::Stream);
    assert_eq!(classify_mode(Some(pipe)), StdinSource::Stream);
    // A socket is how a supervisor or sandbox hands over stdio; draining it
    // would block on a writer that is not talking to us.
    assert_eq!(classify_mode(Some(socket)), StdinSource::Foreign);
    assert_eq!(classify_mode(None), StdinSource::Foreign);
    assert_eq!(stdin_source(true, Some(pipe)), StdinSource::Terminal);
    assert_eq!(stdin_source(false, Some(pipe)), StdinSource::Stream);
}

#[test]
fn stdin_is_never_cut_inside_a_character() {
    let bounded = bound_stdin("ab€".as_bytes(), 2);
    assert_eq!(bounded, "[stdin truncated; showing last 2 bytes]\n");
    assert_eq!(bound_stdin("ab€".as_bytes(), 9), "ab€");
}

// ---------------------------------------------------------------------------
// Skills

fn skill(root: &str, directory: &str, source: &str) -> SkillSource {
    SkillSource {
        directory: directory.to_owned(),
        path: format!("{root}/{directory}/SKILL.md"),
        bytes: source.as_bytes().to_vec(),
    }
}

#[test]
fn skill_frontmatter_is_parsed_without_loading_the_body() {
    let source = "---\nname: rust-review\ndescription: Review Rust safely.\n---\nSECRET BODY";
    let parsed = parse_skill_metadata(source, "/skills/rust-review/SKILL.md").unwrap();
    assert_eq!(parsed.name, "rust-review");
    assert_eq!(parsed.description, "Review Rust safely.");
    assert!(!parsed.description.contains("SECRET"));
    assert!(!name_differs(&parsed));
    assert!(!name_is_long(&parsed));
}

#[test]
fn skill_roots_follow_the_agent_skills_conventions() {
    assert_eq!(
        skill_roots("/home/user", "/repo"),
        vec!["/home/user/.agents/skills", "/repo/.agents/skills"],
        "only the shared convention is scanned, user scope first so project wins"
    );
}

#[test]
fn project_skill_overrides_user_skill_metadata() {
    let roots = skill_roots("/home", "/repo");
    let found = vec![
        vec![skill(&roots[0], "review", "---\nname: review\ndescription: user\n---\nbody")],
        vec![skill(&roots[1], "review", "---\nname: review\ndescription: project\n---\nbody")],
    ];
    let skills = discover_skills(&found).unwrap().skills;
    assert_eq!(skills.len(), 1);
    assert_eq!(skills[0].description, "project");
}

#[test]
fn user_and_project_skills_are_merged_and_client_directories_are_ignored() {
    let roots = skill_roots("/home", "/repo");
    let files = [
        ("/home/.agents/skills", "shared-user"),
        ("/repo/.agents/skills", "shared-project"),
        ("/home/.client/skills", "client-user"),
        ("/repo/.a/skills", "native-project"),
    ];
    let found = roots
        .iter()
        .map(|root| {
            files
                .iter()
                .filter(|(place, _)| place == root)
                .map(|(place, name)| {
                    let source =
                        format!("---\nname: {name}\ndescription: {name} description\n---\nbody");
                    skill(place, name, &source)
                })
                .collect::<Vec<_>>()
        })
        .collect::<Vec<_>>();
    let skills = discover_skills(&found).unwrap().skills;
    let names = skills
        .iter()
        .map(|skill| skill.name.as_str())
        .collect::<Vec<_>>();
    assert_eq!(names, vec!["shared-project", "shared-user"], "{skills:?}");
}

#[test]
fn skill_metadata_follows_the_specification() {
    // A nested metadata map must not be mistaken for the top-level name, and a
    // block scalar description has to survive as one line of text.
    let source = [
        "---\n",
        "name: pdf-processing\n",
        "description: >-\n",
        "  Extract PDF text, fill forms, merge files.\n",
        "  Use when handling PDFs.\n",
        "license: Apache-2.0\n",
        "metadata:\n",
        "  name: not-the-skill-name\n",
        "  version: \"1.0\"\n",
        "---\n",
        "SECRET BODY",
    ]
    .concat();
    let parsed = parse_skill_metadata(&source, "/skills/pdf-processing/SKILL.md").unwrap();
    assert_eq!(parsed.name, "pdf-processing");
    assert_eq!(
        parsed.description,
        "Extract PDF text, fill forms, merge files. Use when handling PDFs."
    );
    assert!(!parsed.description.contains("SECRET"));
}

#[test]
fn unquoted_colons_in_a_description_are_tolerated() {
    let source = "---\nname: review\ndescription: Use this skill when: the user asks\n---\nbody";
    let parsed = parse_skill_metadata(source, "/skills/review/SKILL.md").unwrap();
    assert_eq!(parsed.description, "Use this skill when: the user asks");
}

#[test]
fn a_skill_without_a_description_is_skipped() {
    let root = "/home/.agents/skills";
    let index = discover_skills(&vec![vec![
        skill(root, "broken", "---\nname: broken\n---\nbody"),
        skill(root, "valid", "---\nname: valid\ndescription: usable\n---\nbody"),
    ]])
    .unwrap();
    assert_eq!(index.skills.len(), 1, "{:?}", index.skills);
    assert_eq!(index.skills[0].name, "valid");
    assert_eq!(index.skipped.len(), 1);
    assert!(index.skipped[0].0.contains("broken"));
}

#[test]
fn a_long_skill_with_multibyte_text_does_not_break_discovery() {
    let root = "/home/.agents/skills";
    // Frontmatter, then a body long enough that the metadata read stops
    // mid-character. Slicing bytes there must not fail the whole startup.
    let mut long = String::from("---\nname: long\ndescription: A long skill.\n---\n");
    while long.len() < 9000 {
        long.push_str("中文说明");
    }
    let skills = discover_skills(&vec![vec![
        skill(root, "long", &long),
        skill(root, "usable", "---\nname: usable\ndescription: still discovered\n---\nbody"),
    ]])
    .unwrap()
    .skills;
    let names = skills
        .iter()
        .map(|skill| skill.name.as_str())
        .collect::<Vec<_>>();
    assert_eq!(names, vec!["long", "usable"], "{skills:?}");
    assert_eq!(skills[0].description, "A long skill.");
}

#[test]
fn a_skill_that_is_no_text_is_a_fault() {
    let root = "/home/.agents/skills";
    let mut broken = skill(root, "c", "---\nname: c\ndescription: usable\n---\n");
    broken.bytes.push(0xff);
    let fault = discover_skills(&vec![vec![
        skill(root, "a", "---\nname: a\ndescription: usable\n---\n"),
        skill(root, "b", "no frontmatter"),
        broken,
        skill(root, "d", "---\nname: d\ndescription: usable\n---\n"),
    ]])
    .unwrap_err();
    assert_eq!(fault.message, "stream did not contain valid UTF-8");
    assert_eq!(fault.found.skills.len(), 1);
    assert_eq!(fault.found.skills[0].name, "a");
    assert_eq!(fault.found.skipped.len(), 1);
}

#[test]
fn only_a_character_at_the_cut_may_be_incomplete() {
    let root = "/home/.agents/skills";
    let start = "---\nname: s\ndescription: usable\n---\n";
    let filled = |length: usize, end: &[u8]| {
        let mut source = skill(root, "s", start);
        source.bytes.resize(length, b'x');
        source.bytes.extend_from_slice(end);
        discover_skills(&vec![vec![source]])
    };
    let euro = "€".as_bytes();
    for kept in 0..=3 {
        assert_eq!(filled(METADATA_LIMIT - kept, euro).unwrap().skills.len(), 1);
    }
    // Behind the cut nothing is looked at.
    assert!(filled(METADATA_LIMIT, &[0xff]).is_ok());
    // A byte that begins no character is no text wherever it stands.
    assert!(filled(METADATA_LIMIT - 1, &[0xff, b'x']).is_err());
    // A character may only be cut by the limit.
    assert!(filled(METADATA_LIMIT - 2, &euro[..2]).is_err());
}

#[test]
fn a_skill_in_the_current_directory_has_no_directory_name() {
    let source = "---\nname: s\ndescription: usable\n---\n";
    assert_eq!(
        parse_skill_metadata(source, "./SKILL.md").unwrap_err(),
        "skill path has no UTF-8 directory name"
    );
}

#[test]
fn a_skill_named_unlike_its_directory_is_loaded_and_noticed() {
    let source = "---\nname: other\ndescription: usable\n---\n";
    let parsed = parse_skill_metadata(source, "/skills/review/SKILL.md").unwrap();
    assert!(name_differs(&parsed));
    assert!(parse_skill_metadata("no frontmatter", "/skills/review/SKILL.md").is_err());
}

// ---------------------------------------------------------------------------
// Instructions

fn file(path: &str, content: &str) -> AgentsFile {
    AgentsFile {
        path: path.to_owned(),
        content: content.to_owned(),
    }
}

fn contents(files: &[AgentsFile]) -> Vec<&str> {
    files.iter().map(|item| item.content.as_str()).collect()
}

#[test]
fn agents_discovery_is_ancestry_only_and_broad_to_specific() {
    let cwd = "/work/repo/src/parser";
    let repositories = vec!["/work/repo".to_owned()];
    let candidates = agents_candidates(cwd, &repositories);
    let on_disk = [
        file("/work/repo/AGENTS.md", "repo rules"),
        file("/work/repo/src/AGENTS.md", "src rules"),
        file("/work/AGENTS.md", "outside rules"),
    ];
    let found = on_disk
        .into_iter()
        .filter(|file| candidates.contains(&file.path))
        .collect::<Vec<_>>();
    let files = discover_agents(cwd, &None, &repositories, &found);
    assert_eq!(contents(&files), ["repo rules", "src rules"]);
}

#[test]
fn a_target_belongs_to_a_directory() {
    assert_eq!(target_directory("/repo/src", true, "/cwd"), "/repo/src");
    assert_eq!(target_directory("/repo/src/a.rs", false, "/cwd"), "/repo/src");
    assert_eq!(target_directory("a.rs", false, "/cwd"), "");
    assert_eq!(target_directory("/", false, "/cwd"), "/cwd");
}

#[test]
fn agents_of_all_directories_come_once_by_depth_and_path() {
    let file = |path: &str| AgentsFile {
        path: path.to_owned(),
        content: path.to_owned(),
    };
    let repositories = vec!["/repo".to_owned()];
    let found = [
        "/repo/AGENTS.md",
        "/repo/z/AGENTS.md",
        "/repo/a/AGENTS.md",
        "/repo/a/deep/AGENTS.md",
    ]
    .map(file)
    .to_vec();
    let directories = ["/repo/z", "/repo/a/deep", "/repo/a"].map(str::to_owned).to_vec();
    let global = Some(file("/repo//a/./deep/AGENTS.md"));
    let files =
        discover_agents_for_targets("/repo", &global, &directories, &repositories, &found);
    let paths = files.iter().map(|file| file.path.as_str()).collect::<Vec<_>>();
    assert_eq!(
        paths,
        [
            "/repo/a/deep/AGENTS.md",
            "/repo/AGENTS.md",
            "/repo/a/AGENTS.md",
            "/repo/z/AGENTS.md",
        ]
    );
    let none = discover_agents_for_targets("/repo", &None, &directories, &repositories, &found);
    assert_eq!(none.len(), 4);
    assert_eq!(none[3].path, "/repo/a/deep/AGENTS.md");
}

#[test]
fn piped_input_that_is_text_loses_nothing() {
    assert_eq!(bound_stdin("aé中".as_bytes(), 6), "aé中");
    assert_eq!(
        bound_stdin("aé中".as_bytes(), 4),
        "[stdin truncated; showing last 4 bytes]\n中"
    );
    assert_eq!(bound_stdin(&[b'a', 0xff], 6), "a\u{fffd}");
}

#[test]
fn global_agents_stays_first_even_when_its_path_is_deeper() {
    let cwd = "/work/repo/src";
    let repositories = vec!["/work/repo".to_owned()];
    let global = Some(file(
        "/work/very/deep/home/.config/a/AGENTS.md",
        "global rules",
    ));
    let found = vec![file("/work/repo/AGENTS.md", "repo rules")];
    let files = discover_agents_for_targets(cwd, &global, &Vec::new(), &repositories, &found);
    assert_eq!(contents(&files), ["global rules", "repo rules"]);
}

#[test]
fn instructions_of_targets_are_read_once() {
    let repositories = vec!["/repo".to_owned()];
    let found = vec![
        file("/repo/AGENTS.md", "repo rules"),
        file("/repo/docs/AGENTS.md", "docs rules"),
    ];
    let files = discover_agents_for_targets(
        "/repo/src",
        &None,
        &vec!["/repo/docs".to_owned(), "/repo/docs".to_owned()],
        &repositories,
        &found,
    );
    assert_eq!(contents(&files), ["repo rules", "docs rules"]);
}

#[test]
fn system_prompt_has_active_rules_and_skill_references_only() {
    let prompt = build_system_prompt(&ContextInput {
        cwd: "/repo".to_owned(),
        agents: vec![file("/repo/AGENTS.md", "Run tests.")],
        skills: vec![SkillMetadata {
            name: "review".to_owned(),
            description: "Review code.".to_owned(),
            path: "/repo/.agents/skills/review/SKILL.md".to_owned(),
        }],
        platform: "linux".to_owned(),
        shell: "/bin/fish".to_owned(),
    });
    assert!(prompt.contains("Run tests."));
    assert!(prompt.contains("Review code."));
    assert!(prompt.contains("/repo/.agents/skills/review/SKILL.md"));
    assert!(!prompt.contains("Targeted files"));
    assert!(prompt.contains("Relative read and apply_patch paths are resolved from the cwd"));
    assert!(prompt.contains("Before any git command, first confirm that .git exists"));
    assert!(prompt.contains("Never inspect the workspace merely because it is available"));
    assert!(prompt.contains("Rust runtime injects recent records"));
    assert!(prompt.contains("integration lacks context injection"));
    assert!(!prompt.contains("SECRET BODY"));
}

// ---------------------------------------------------------------------------
// Prices

fn rates(input: f64, output: f64, cache_read: f64, cache_write: f64) -> Rates {
    Rates {
        input: input.to_bits(),
        output: output.to_bits(),
        cache_read: cache_read.to_bits(),
        cache_write: cache_write.to_bits(),
    }
}

fn priced(rates: Rates, tiers: Vec<CostTier>) -> CatalogModel {
    CatalogModel {
        cost: Some(Cost { rates, tiers }),
    }
}

fn pricing_catalog() -> Result<Table<Table<CatalogModel>>, String> {
    let mut deepseek = Table::new();
    deepseek.put("shared-model", priced(rates(0.14, 0.28, 0.0028, 0.0), Vec::new()));
    deepseek.put("only-here", priced(rates(1.0, 2.0, 0.0, 0.0), Vec::new()));
    deepseek.put(
        "tiered",
        priced(
            rates(5.0, 30.0, 0.5, 0.0),
            vec![CostTier {
                kind: "context".to_owned(),
                size: 200_000,
                rates: rates(10.0, 45.0, 1.0, 0.0),
            }],
        ),
    );
    deepseek.put("no-prices", CatalogModel { cost: None });
    let mut mirror = Table::new();
    mirror.put("shared-model", priced(rates(0.0, 0.0, 0.0, 0.0), Vec::new()));
    let mut catalog = Table::new();
    catalog.put("mirror", mirror);
    catalog.put("deepseek", deepseek);
    Ok(catalog)
}

#[test]
fn a_unique_model_id_resolves_but_an_ambiguous_one_is_reported() {
    let catalog = pricing_catalog();

    let unique = resolve_from_catalog(&catalog, "only-here", None);
    assert_eq!(
        unique,
        Resolution::Known {
            schedule: Schedule::flat(rates(1.0, 2.0, 0.0, 0.0)),
            source: "deepseek/only-here".to_owned()
        }
    );

    // Mirrors price the same id differently, so guessing one would show a
    // plausible but wrong number.
    match resolve_from_catalog(&catalog, "shared-model", None) {
        Resolution::Ambiguous { model, providers } => {
            assert_eq!(model, "shared-model");
            assert_eq!(providers, vec!["deepseek".to_owned(), "mirror".to_owned()]);
        }
        other => panic!("expected ambiguity, got {other:?}"),
    }

    // An explicit key resolves the ambiguity.
    let keyed = resolve_from_catalog(&catalog, "shared-model", Some("mirror/shared-model"));
    assert!(
        matches!(&keyed, Resolution::Known { schedule, .. } if f64::from_bits(schedule.base.input) == 0.0),
        "{keyed:?}"
    );

    for (model, key, reason) in [
        ("no-prices", None, "lists no prices"),
        ("missing", None, "was not found"),
        (
            "shared-model",
            Some("deepseek"),
            "must look like provider/model",
        ),
    ] {
        match resolve_from_catalog(&catalog, model, key) {
            Resolution::Unknown(message) => {
                assert!(message.contains(reason), "{message}");
            }
            other => panic!("expected Unknown for {model}, got {other:?}"),
        }
    }
    assert!(matches!(
        resolve_from_catalog(&Err("no catalog".to_owned()), "only-here", None),
        Resolution::Unknown(_)
    ));
}

#[test]
fn a_session_the_provider_never_metered_is_not_priced_at_zero() {
    let blank = Usage {
        input_tokens: Some(0),
        output_tokens: Some(0),
        cached_tokens: None,
        cache_write_tokens: None,
        total_tokens: Some(0),
    };
    // A gateway that omits usage leaves nothing to price, and claiming a
    // measured near-zero spend would be wrong.
    assert!(!has_measured_usage(&Vec::new()));
    assert!(!has_measured_usage(&vec![blank]));
    assert!(has_measured_usage(&vec![Usage {
        input_tokens: Some(1),
        ..blank
    }]));
}

#[test]
fn a_tiered_schedule_prices_each_request_by_its_own_size() {
    let catalog = pricing_catalog();
    let Resolution::Known { schedule, .. } = resolve_from_catalog(&catalog, "tiered", None) else {
        panic!("expected tiered rates");
    };
    assert!(schedule.is_tiered());
    assert_eq!(f64::from_bits(schedule.rates_for(199_999).input), 5.0);
    assert_eq!(f64::from_bits(schedule.rates_for(200_000).input), 10.0);

    let small = Usage {
        input_tokens: Some(100_000),
        output_tokens: Some(1_000),
        ..Default::default()
    };
    let large = Usage {
        input_tokens: Some(150_000),
        cached_tokens: Some(60_000),
        output_tokens: Some(1_000),
        ..Default::default()
    };
    // The large request crosses the threshold once cache reads are counted, so
    // summing the session's tokens first would have priced it at the low tier.
    let cost = |usage: Usage, schedule: &Schedule| {
        let rates = schedule.rates_for(request_context(usage));
        let tokens = |n: Option<u64>, rate: u64| n.unwrap_or(0) as f64 * f64::from_bits(rate) / 1e6;
        tokens(usage.input_tokens, rates.input)
            + tokens(usage.output_tokens, rates.output)
            + tokens(usage.cached_tokens, rates.cache_read)
    };
    let expected = (100_000.0 * 5.0 + 1_000.0 * 30.0) / 1e6
        + (150_000.0 * 10.0 + 60_000.0 * 1.0 + 1_000.0 * 45.0) / 1e6;
    let actual = cost(small, &schedule) + cost(large, &schedule);
    assert!((actual - expected).abs() < 1e-9, "{actual} vs {expected}");

    let flat = Schedule::flat(schedule.base);
    assert!(!flat.is_tiered());
    assert!(cost(small, &flat) + cost(large, &flat) < actual);
}

#[test]
fn the_vendor_of_a_model_is_suggested() {
    let providers = vec!["azure".to_owned(), "deepseek".to_owned()];
    assert_eq!(
        likely_provider("deepseek-v4-flash", &providers).map(String::as_str),
        Some("deepseek")
    );
    assert_eq!(
        likely_provider("gpt", &providers).map(String::as_str),
        Some("azure")
    );
    assert_eq!(likely_provider("gpt", &Vec::new()), None);
    assert_eq!(source_url(&None), "https://models.dev/api.json");
    assert_eq!(source_url(&Some("http://mirror".to_owned())), "http://mirror");
}
