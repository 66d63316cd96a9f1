//! The configuration: providers, model profiles and limits.
use vstd::prelude::*;
use vstd::string::*;

use crate::json::{Json, JsonView, lemma_object_view, no_entries, object_json, text_json};
use crate::table::{
    Table, keys_of, law_put, law_put_all, law_with_entry, lemma_entry_at, lemma_pairs_push,
    lemma_place, lookup, ordered, pairs, place, push_entry, put, put_all, set_entry, with_entry,
};
use crate::text::{
    copy_maybe, copy_texts, decimal, decimal_text, has, holds_text, increasing,
    law_contained_texts_stand_somewhere, lemma_texts_push, maybe, outcome, precedes, same, texts,
};

verus! {

/// The protocol that a provider speaks.
#[derive(Debug, Clone, Copy, PartialEq, Eq, Structural)]
pub enum ProviderKind {
    Anthropic,
    Responses,
    Chatcompletion,
}

impl ProviderKind {
    /// The name under which a kind is kept.
    pub open spec fn name(self) -> Seq<char> {
        match self {
            ProviderKind::Anthropic => "anthropic"@,
            ProviderKind::Responses => "responses"@,
            ProviderKind::Chatcompletion => "chatcompletion"@,
        }
    }

    pub fn as_str(self) -> (r: &'static str)
        ensures
            r@ == self.name(),
    {
        match self {
            ProviderKind::Anthropic => "anthropic",
            ProviderKind::Responses => "responses",
            ProviderKind::Chatcompletion => "chatcompletion",
        }
    }

    pub fn parse(value: &str) -> (r: Result<ProviderKind, String>)
        ensures
            match r {
                Ok(kind) => kind.name() == value@,
                Err(e) => (forall|kind: ProviderKind| #[trigger] kind.name() != value@) && e@
                    == "unknown provider type in session: "@ + value@,
            },
    {
        if same(value, "anthropic") {
            Ok(ProviderKind::Anthropic)
        } else if same(value, "responses") {
            Ok(ProviderKind::Responses)
        } else if same(value, "chatcompletion") {
            Ok(ProviderKind::Chatcompletion)
        } else {
            Err("unknown provider type in session: ".to_owned().concat(value))
        }
    }
}

/// Different kinds have different names, so that a name read back gives the
/// kind it was written for.
pub proof fn law_kind_names(a: ProviderKind, b: ProviderKind)
    requires
        a.name() == b.name(),
    ensures
        a == b,
{
    reveal_strlit("anthropic");
    reveal_strlit("responses");
    reveal_strlit("chatcompletion");
    assert("anthropic"@[0] == 'a');
    assert("responses"@[0] == 'r');
    assert("chatcompletion"@[0] == 'c');
}

/// How to reach a provider, and what to send it with every request.
pub struct ProviderConfig {
    pub kind: ProviderKind,
    pub base_url: Option<String>,
    pub model: String,
    pub api_key_env: String,
    pub api_key: Option<String>,
    pub headers: Table<String>,
    pub max_tokens: u32,
    pub request: Table<Json>,
}

/// The model of a [`ProviderConfig`].
pub struct ProviderView {
    pub kind: ProviderKind,
    pub base_url: Option<Seq<char>>,
    pub model: Seq<char>,
    pub api_key_env: Seq<char>,
    pub api_key: Option<Seq<char>>,
    pub headers: Seq<(Seq<char>, Seq<char>)>,
    pub max_tokens: u32,
    pub request: Seq<(Seq<char>, JsonView)>,
}

impl ProviderView {
    /// Whether the headers and the request fields stand in order.
    pub open spec fn in_order(self) -> bool {
        ordered(self.headers) && ordered(self.request)
    }
}

impl View for ProviderConfig {
    type V = ProviderView;

    open spec fn view(&self) -> ProviderView {
        ProviderView {
            kind: self.kind,
            base_url: maybe(self.base_url),
            model: self.model@,
            api_key_env: self.api_key_env@,
            api_key: maybe(self.api_key),
            headers: self.headers@,
            max_tokens: self.max_tokens,
            request: self.request@,
        }
    }
}

/// A copy of a table of texts.
pub fn copy_headers(t: &Table<String>) -> (r: Table<String>)
    ensures
        r@ == t@,
{
    let mut entries: Vec<(String, String)> = Vec::new();
    let mut i: usize = 0;
    while i < t.entries.len()
        invariant
            i <= t.entries.len(),
            pairs(entries@) == t@.take(i as int),
        decreases t.entries.len() - i,
    {
        let ghost before = pairs(entries@);
        let key = t.entries[i].0.clone();
        let value = t.entries[i].1.clone();
        entries.push((key, value));
        assert(pairs(entries@) =~= before.push((key@, value@)));
        i += 1;
    }
    assert(t@.take(t@.len() as int) =~= t@);
    Table { entries }
}

/// A copy of a table of JSON values.
pub fn copy_request(t: &Table<Json>) -> (r: Table<Json>)
    ensures
        r@ == t@,
{
    let mut entries: Vec<(String, Json)> = Vec::new();
    let mut i: usize = 0;
    while i < t.entries.len()
        invariant
            i <= t.entries.len(),
            pairs(entries@) == t@.take(i as int),
        decreases t.entries.len() - i,
    {
        let ghost before = pairs(entries@);
        let key = t.entries[i].0.clone();
        let value = t.entries[i].1.clone();
        entries.push((key, value));
        assert(pairs(entries@) =~= before.push((key@, value@)));
        i += 1;
    }
    assert(t@.take(t@.len() as int) =~= t@);
    Table { entries }
}

impl Clone for ProviderConfig {
    fn clone(&self) -> (r: ProviderConfig)
        ensures
            r@ == self@,
    {
        ProviderConfig {
            kind: self.kind,
            base_url: copy_maybe(&self.base_url),
            model: self.model.clone(),
            api_key_env: self.api_key_env.clone(),
            api_key: copy_maybe(&self.api_key),
            headers: copy_headers(&self.headers),
            max_tokens: self.max_tokens,
            request: copy_request(&self.request),
        }
    }
}

/// A provider where nothing is configured.
pub open spec fn default_provider() -> ProviderView {
    ProviderView {
        kind: ProviderKind::Responses,
        base_url: None,
        model: "gpt-5.6"@,
        api_key_env: "OPENAI_API_KEY"@,
        api_key: None,
        headers: Seq::empty(),
        max_tokens: 8192,
        request: Seq::empty(),
    }
}

impl Default for ProviderConfig {
    fn default() -> (r: ProviderConfig)
        ensures
            r@ == default_provider(),
    {
        ProviderConfig {
            kind: ProviderKind::Responses,
            base_url: None,
            model: "gpt-5.6".to_owned(),
            api_key_env: "OPENAI_API_KEY".to_owned(),
            api_key: None,
            headers: Table::new(),
            max_tokens: 8192,
            request: Table::new(),
        }
    }
}

/// The key to send: the configured one, or else the one found in the
/// environment under the configured name.
pub open spec fn key_of(p: ProviderView, found: Option<Seq<char>>) -> Result<Seq<char>, Seq<char>> {
    if p.api_key matches Some(key) && key.len() > 0 {
        Ok(p.api_key->Some_0)
    } else {
        match found {
            Some(key) => Ok(key),
            None => Err(
                "provider authentication is not configured; set api_key in the selected provider, set "@
                    + p.api_key_env + ", or update ~/.config/a/config.toml"@,
            ),
        }
    }
}

impl ProviderConfig {
    /// The key to send, given what the environment holds under
    /// [`Self::api_key_env`].
    pub fn resolve_api_key(&self, found: &Option<String>) -> (r: Result<String, String>)
        ensures
            outcome(r) == key_of(self@, maybe(*found)),
    {
        if let Some(key) = &self.api_key {
            if !key.as_str().is_empty() {
                return Ok(key.clone());
            }
        }
        match found {
            Some(key) => Ok(key.clone()),
            None => Err(
                "provider authentication is not configured; set api_key in the selected provider, set ".to_owned().concat(
                &self.api_key_env).concat(", or update ~/.config/a/config.toml"),
            ),
        }
    }

    /// The configuration as it may be shown: a key that is set is not.
    pub fn redacted(&self) -> (r: ProviderConfig)
        ensures
            r@ == (ProviderView {
                api_key: match self@.api_key {
                    Some(_) => Some("[REDACTED]"@),
                    None => None,
                },
                ..self@
            }),
    {
        let mut r = self.clone();
        r.api_key = match &self.api_key {
            Some(_) => Some("[REDACTED]".to_owned()),
            None => None,
        };
        r
    }
}

/// Token prices in USD per million tokens, each as the bits of a floating-point
/// number of double precision.
#[derive(Debug, Clone, Copy, PartialEq, Eq, Structural)]
pub struct Rates {
    pub input: u64,
    pub output: u64,
    pub cache_read: u64,
    pub cache_write: u64,
}

impl Default for Rates {
    fn default() -> (r: Rates)
        ensures
            r == (Rates { input: 0, output: 0, cache_read: 0, cache_write: 0 }),
    {
        Rates { input: 0, output: 0, cache_read: 0, cache_write: 0 }
    }
}

/// A model and the provider that serves it.
pub struct ModelProfile {
    pub provider: String,
    pub model: String,
    pub effort: Option<String>,
    pub efforts: Vec<String>,
    pub context_window: Option<u64>,
    pub max_tokens: Option<u32>,
    /// A models.dev `provider/model` key, needed when the model id alone is
    /// ambiguous across providers that price it differently.
    pub pricing: Option<String>,
    pub cost: Option<Rates>,
    pub headers: Table<String>,
    pub request: Table<Json>,
}

/// The model of a [`ModelProfile`].
pub struct ProfileView {
    pub provider: Seq<char>,
    pub model: Seq<char>,
    pub effort: Option<Seq<char>>,
    pub efforts: Seq<Seq<char>>,
    pub context_window: Option<u64>,
    pub max_tokens: Option<u32>,
    pub pricing: Option<Seq<char>>,
    pub cost: Option<Rates>,
    pub headers: Seq<(Seq<char>, Seq<char>)>,
    pub request: Seq<(Seq<char>, JsonView)>,
}

impl ProfileView {
    /// Whether the headers and the request fields stand in order.
    pub open spec fn in_order(self) -> bool {
        ordered(self.headers) && ordered(self.request)
    }
}

impl View for ModelProfile {
    type V = ProfileView;

    open spec fn view(&self) -> ProfileView {
        ProfileView {
            provider: self.provider@,
            model: self.model@,
            effort: maybe(self.effort),
            efforts: texts(self.efforts@),
            context_window: self.context_window,
            max_tokens: self.max_tokens,
            pricing: maybe(self.pricing),
            cost: self.cost,
            headers: self.headers@,
            request: self.request@,
        }
    }
}

/// A profile that says nothing.
pub open spec fn blank_profile() -> ProfileView {
    ProfileView {
        provider: ""@,
        model: ""@,
        effort: None,
        efforts: Seq::empty(),
        context_window: None,
        max_tokens: None,
        pricing: None,
        cost: None,
        headers: Seq::empty(),
        request: Seq::empty(),
    }
}

impl Default for ModelProfile {
    fn default() -> (r: ModelProfile)
        ensures
            r@ == blank_profile(),
    {
        let efforts: Vec<String> = Vec::new();
        assert(texts(efforts@) =~= Seq::empty());
        ModelProfile {
            provider: "".to_owned(),
            model: "".to_owned(),
            effort: None,
            efforts,
            context_window: None,
            max_tokens: None,
            pricing: None,
            cost: None,
            headers: Table::new(),
            request: Table::new(),
        }
    }
}

/// A model as it is used.
pub struct ModelSelection {
    pub name: String,
    pub provider_name: String,
    pub provider: ProviderConfig,
    pub effort: Option<String>,
    pub efforts: Vec<String>,
    pub context_window: Option<u64>,
    pub pricing: Option<String>,
    pub cost: Option<Rates>,
}

/// The model of a [`ModelSelection`].
pub struct SelectionView {
    pub name: Seq<char>,
    pub provider_name: Seq<char>,
    pub provider: ProviderView,
    pub effort: Option<Seq<char>>,
    pub efforts: Seq<Seq<char>>,
    pub context_window: Option<u64>,
    pub pricing: Option<Seq<char>>,
    pub cost: Option<Rates>,
}

impl View for ModelSelection {
    type V = SelectionView;

    open spec fn view(&self) -> SelectionView {
        SelectionView {
            name: self.name@,
            provider_name: self.provider_name@,
            provider: self.provider@,
            effort: maybe(self.effort),
            efforts: texts(self.efforts@),
            context_window: self.context_window,
            pricing: maybe(self.pricing),
            cost: self.cost,
        }
    }
}

impl Clone for ModelSelection {
    fn clone(&self) -> (r: ModelSelection)
        ensures
            r@ == self@,
    {
        ModelSelection {
            name: self.name.clone(),
            provider_name: self.provider_name.clone(),
            provider: self.provider.clone(),
            effort: copy_maybe(&self.effort),
            efforts: copy_texts(&self.efforts),
            context_window: self.context_window,
            pricing: copy_maybe(&self.pricing),
            cost: self.cost,
        }
    }
}

#[derive(Debug)]
pub struct UiConfig {
    pub show_reasoning: bool,
    pub reasoning_toggle: String,
    pub tool_input_max_bytes: usize,
    pub tool_output_max_bytes: usize,
    pub tool_output_max_lines: usize,
    pub tool_live_output_lines: usize,
    pub patch_diff_max_lines: usize,
}

impl Default for UiConfig {
    fn default() -> (r: UiConfig)
        ensures
            r.show_reasoning == false,
            r.reasoning_toggle@ == "ctrl-o"@,
            r.tool_input_max_bytes == 2048,
            r.tool_output_max_bytes == 8192,
            r.tool_output_max_lines == 16,
            r.tool_live_output_lines == 6,
            r.patch_diff_max_lines == 24,
    {
        UiConfig {
            show_reasoning: false,
            reasoning_toggle: "ctrl-o".to_owned(),
            tool_input_max_bytes: 2048,
            tool_output_max_bytes: 8192,
            tool_output_max_lines: 16,
            tool_live_output_lines: 6,
            patch_diff_max_lines: 24,
        }
    }
}

#[derive(Debug, Clone, Copy, PartialEq, Eq, Structural)]
pub struct ToolsConfig {
    /// Applied when a bash call does not ask for a timeout of its own.
    pub bash_timeout_seconds: u64,
    /// Most a bash call may ask for. Commands the model expects to be slow can
    /// raise their own limit up to this, so the default stays short without
    /// making long builds impossible.
    pub bash_max_timeout_seconds: u64,
    pub max_parallel: usize,
    pub max_output_bytes: usize,
}

impl Default for ToolsConfig {
    fn default() -> (r: ToolsConfig)
        ensures
            r == (ToolsConfig {
                bash_timeout_seconds: 120,
                bash_max_timeout_seconds: 1800,
                max_parallel: 8,
                max_output_bytes: 65_536,
            }),
    {
        ToolsConfig {
            bash_timeout_seconds: 120,
            bash_max_timeout_seconds: 1800,
            max_parallel: 8,
            max_output_bytes: 65_536,
        }
    }
}

#[derive(Debug, Clone, Copy, PartialEq, Eq, Structural)]
pub struct ContextConfig {
    pub shell_history_count: usize,
    pub stdin_max_bytes: usize,
    pub read_max_lines: usize,
}

impl Default for ContextConfig {
    fn default() -> (r: ContextConfig)
        ensures
            r == (ContextConfig {
                shell_history_count: 5,
                stdin_max_bytes: 131_072,
                read_max_lines: 1000,
            }),
    {
        ContextConfig { shell_history_count: 5, stdin_max_bytes: 131_072, read_max_lines: 1000 }
    }
}

#[derive(Debug, Clone, Copy, PartialEq, Eq, Structural)]
pub struct SessionConfig {
    pub max_agent_cycles: usize,
    pub shell_history_limit: usize,
    pub input_history_limit: usize,
    /// How much of a file's previous contents to keep so a rewind can restore
    /// it. Larger files are recorded as unrestorable rather than truncated.
    pub snapshot_max_bytes: usize,
}

impl Default for SessionConfig {
    fn default() -> (r: SessionConfig)
        ensures
            r == (SessionConfig {
                max_agent_cycles: 50,
                shell_history_limit: 5000,
                input_history_limit: 1000,
                snapshot_max_bytes: 1_048_576,
            }),
    {
        SessionConfig {
            max_agent_cycles: 50,
            shell_history_limit: 5000,
            input_history_limit: 1000,
            snapshot_max_bytes: 1_048_576,
        }
    }
}

/// The whole configuration.
pub struct Config {
    pub default_model: String,
    pub providers: Table<ProviderConfig>,
    pub models: Table<ModelProfile>,
    pub ui: UiConfig,
    pub tools: ToolsConfig,
    pub context: ContextConfig,
    pub session: SessionConfig,
}

/// The part of a [`Config`] that chooses models.
pub struct ChoiceView {
    pub default_model: Seq<char>,
    pub providers: Seq<(Seq<char>, ProviderView)>,
    pub models: Seq<(Seq<char>, ProfileView)>,
}

impl ChoiceView {
    /// Whether the providers and the profiles stand in the order of their names,
    /// and so does what each of them holds.
    pub open spec fn in_order(self) -> bool {
        &&& ordered(self.providers)
        &&& ordered(self.models)
        &&& forall|i: int|
            0 <= i < self.providers.len() ==> (#[trigger] self.providers[i]).1.in_order()
        &&& forall|i: int| 0 <= i < self.models.len() ==> (#[trigger] self.models[i]).1.in_order()
    }
}

impl View for Config {
    type V = ChoiceView;

    open spec fn view(&self) -> ChoiceView {
        ChoiceView {
            default_model: self.default_model@,
            providers: self.providers@,
            models: self.models@,
        }
    }
}

/// The part of the configuration that chooses models, where nothing is
/// configured.
pub open spec fn default_choice() -> ChoiceView {
    ChoiceView {
        default_model: "default"@,
        providers: seq![("openai"@, default_provider())],
        models: seq![
            (
                "default"@,
                ProfileView {
                    provider: "openai"@,
                    model: "gpt-5.6"@,
                    effort: Some("medium"@),
                    efforts: known_efforts(),
                    context_window: Some(1_050_000),
                    ..blank_profile()
                },
            ),
        ],
    }
}

impl Default for Config {
    fn default() -> (r: Config)
        ensures
            r@ == default_choice(),
            r@.in_order(),
            !r.ui.show_reasoning,
            r.ui.reasoning_toggle@ == "ctrl-o"@,
            r.ui.tool_input_max_bytes == 2048,
            r.ui.tool_output_max_bytes == 8192,
            r.ui.tool_output_max_lines == 16,
            r.ui.tool_live_output_lines == 6,
            r.ui.patch_diff_max_lines == 24,
            r.tools == (ToolsConfig {
                bash_timeout_seconds: 120,
                bash_max_timeout_seconds: 1800,
                max_parallel: 8,
                max_output_bytes: 65_536,
            }),
            r.context == (ContextConfig {
                shell_history_count: 5,
                stdin_max_bytes: 131_072,
                read_max_lines: 1000,
            }),
            r.session == (SessionConfig {
                max_agent_cycles: 50,
                shell_history_limit: 5000,
                input_history_limit: 1000,
                snapshot_max_bytes: 1_048_576,
            }),
    {
        let mut profile = ModelProfile::default();
        profile.provider = "openai".to_owned();
        profile.model = "gpt-5.6".to_owned();
        profile.effort = Some("medium".to_owned());
        profile.efforts = canonical_efforts();
        profile.context_window = Some(1_050_000);
        let mut providers: Table<ProviderConfig> = Table::new();
        providers.put("openai", ProviderConfig::default());
        assert(providers@ =~= default_choice().providers);
        let mut models: Table<ModelProfile> = Table::new();
        models.put("default", profile);
        assert(models@ =~= default_choice().models);
        Config {
            default_model: "default".to_owned(),
            providers,
            models,
            ui: UiConfig::default(),
            tools: ToolsConfig::default(),
            context: ContextConfig::default(),
            session: SessionConfig::default(),
        }
    }
}

/// The efforts that a model can be asked for.
pub open spec fn known_efforts() -> Seq<Seq<char>> {
    seq!["none"@, "minimal"@, "low"@, "medium"@, "high"@, "xhigh"@, "max"@]
}

fn canonical_efforts() -> (r: Vec<String>)
    ensures
        texts(r@) == known_efforts(),
{
    let mut r: Vec<String> = Vec::new();
    r.push("none".to_owned());
    r.push("minimal".to_owned());
    r.push("low".to_owned());
    r.push("medium".to_owned());
    r.push("high".to_owned());
    r.push("xhigh".to_owned());
    r.push("max".to_owned());
    assert(texts(r@) =~= known_efforts());
    r
}

fn validate_effort(effort: &str) -> (r: Result<(), String>)
    ensures
        r is Ok <==> known_efforts().contains(effort@),
        r matches Err(e) ==> e@ == "unknown effort '"@ + effort@ + "'"@,
{
    if holds_text(&canonical_efforts(), effort) {
        Ok(())
    } else {
        Err("unknown effort '".to_owned().concat(effort).concat("'"))
    }
}

/// The request fields with a text put into an object among them.
pub open spec fn with_nested(
    request: Seq<(Seq<char>, JsonView)>,
    object: Seq<char>,
    field: Seq<char>,
    value: Seq<char>,
) -> Result<Seq<(Seq<char>, JsonView)>, Seq<char>> {
    match lookup(request, object) {
        None => Ok(
            put(
                request,
                object,
                JsonView::Object(seq![(field, JsonView::Str(value))]),
            ),
        ),
        Some(JsonView::Object(entries)) => Ok(
            put(
                request,
                object,
                JsonView::Object(with_entry(entries, field, JsonView::Str(value))),
            ),
        ),
        Some(_) => Err("request."@ + object + " must be an object"@),
    }
}

/// The request fields that ask for an effort in the way of each protocol.
pub open spec fn with_effort(
    kind: ProviderKind,
    request: Seq<(Seq<char>, JsonView)>,
    effort: Seq<char>,
) -> Result<Seq<(Seq<char>, JsonView)>, Seq<char>> {
    match kind {
        ProviderKind::Responses => with_nested(request, "reasoning"@, "effort"@, effort),
        ProviderKind::Chatcompletion => Ok(
            put(request, "reasoning_effort"@, JsonView::Str(effort)),
        ),
        ProviderKind::Anthropic => with_nested(request, "output_config"@, "effort"@, effort),
    }
}

/// The provider of a profile with what the profile says on top.
pub open spec fn profiled(provider: ProviderView, profile: ProfileView) -> ProviderView {
    ProviderView {
        model: profile.model,
        max_tokens: match profile.max_tokens {
            Some(n) => n,
            None => provider.max_tokens,
        },
        headers: put_all(provider.headers, profile.headers),
        request: put_all(provider.request, profile.request),
        ..provider
    }
}

/// What a profile selects, with the effort asked for.
pub open spec fn selected(
    name: Seq<char>,
    profile: ProfileView,
    provider: ProviderView,
    effort: Option<Seq<char>>,
) -> SelectionView {
    SelectionView {
        name,
        provider_name: profile.provider,
        provider,
        effort,
        efforts: profile.efforts,
        context_window: profile.context_window,
        pricing: profile.pricing,
        cost: profile.cost,
    }
}

/// The model that a name selects: the default one without a name, with the
/// effort asked for or else the one of the profile.
pub open spec fn selection(
    config: ChoiceView,
    name: Option<Seq<char>>,
    effort_override: Option<Seq<char>>,
) -> Result<SelectionView, Seq<char>> {
    let name = match name {
        Some(name) => name,
        None => config.default_model,
    };
    match lookup(config.models, name) {
        None => Err("model profile not found: "@ + name),
        Some(profile) => match lookup(config.providers, profile.provider) {
            None => Err(
                "provider '"@ + profile.provider + "' referenced by model '"@ + name
                    + "' was not found"@,
            ),
            Some(provider) => {
                let base = profiled(provider, profile);
                let effort = if effort_override is Some {
                    effort_override
                } else {
                    profile.effort
                };
                match effort {
                    None => Ok(selected(name, profile, base, None)),
                    Some(effort) => if !known_efforts().contains(effort) {
                        Err("unknown effort '"@ + effort + "'"@)
                    } else if !profile.efforts.contains(effort) {
                        Err(
                            "effort '"@ + effort + "' is not configured for model '"@ + name + "'"@,
                        )
                    } else {
                        match with_effort(base.kind, base.request, effort) {
                            Err(e) => Err(e),
                            Ok(request) => Ok(
                                selected(
                                    name,
                                    profile,
                                    (ProviderView { request, ..base }),
                                    Some(effort),
                                ),
                            ),
                        }
                    },
                }
            },
        },
    }
}

/// The model that a session was held with: by its profile where it has one,
/// else the first profile in order with its protocol and model.
pub open spec fn session_selection(
    config: ChoiceView,
    profile: Option<Seq<char>>,
    provider_type: Seq<char>,
    model: Seq<char>,
    effort: Option<Seq<char>>,
) -> Result<SelectionView, Seq<char>> {
    if profile is Some {
        selection(config, profile, effort)
    } else if forall|kind: ProviderKind| #[trigger] kind.name() != provider_type {
        Err("unknown provider type in session: "@ + provider_type)
    } else {
        match_from(config, provider_type, model, effort, 0)
    }
}

/// The first profile from `from` on that serves a model over a protocol.
pub open spec fn match_from(
    config: ChoiceView,
    provider_type: Seq<char>,
    model: Seq<char>,
    effort: Option<Seq<char>>,
    from: int,
) -> Result<SelectionView, Seq<char>>
    decreases config.models.len() - from,
{
    if from >= config.models.len() {
        Err(
            "session model "@ + provider_type + "/"@ + model
                + " does not match a configured model profile"@,
        )
    } else {
        match selection(config, Some(config.models[from].0), None) {
            Err(e) => Err(e),
            Ok(s) => if s.provider.kind.name() == provider_type && s.provider.model == model {
                selection(config, Some(config.models[from].0), effort)
            } else {
                match_from(config, provider_type, model, effort, from + 1)
            },
        }
    }
}

/// The first effort from `from` on that no model can be asked for.
pub open spec fn unknown_effort(efforts: Seq<Seq<char>>, from: int) -> Option<Seq<char>>
    decreases efforts.len() - from,
{
    if from >= efforts.len() {
        None
    } else if known_efforts().contains(efforts[from]) {
        unknown_effort(efforts, from + 1)
    } else {
        Some(efforts[from])
    }
}

/// All efforts that a profile names.
pub open spec fn named_efforts(profile: ProfileView) -> Seq<Seq<char>> {
    match profile.effort {
        Some(effort) => profile.efforts.push(effort),
        None => profile.efforts,
    }
}

/// The most tokens that a model may answer with.
pub open spec fn output_limit(profile: ProfileView, provider: ProviderView) -> u32 {
    match profile.max_tokens {
        Some(n) => n,
        None => provider.max_tokens,
    }
}

/// What is wrong with a profile.
pub open spec fn profile_problem(
    name: Seq<char>,
    profile: ProfileView,
    providers: Seq<(Seq<char>, ProviderView)>,
) -> Option<Seq<char>> {
    if profile.provider.len() == 0 || profile.model.len() == 0 {
        Some("model '"@ + name + "' requires provider and model"@)
    } else {
        match lookup(providers, profile.provider) {
            None => Some(
                "provider '"@ + profile.provider + "' referenced by model '"@ + name
                    + "' was not found"@,
            ),
            Some(provider) => {
                let limit = output_limit(profile, provider);
                if limit == 0 {
                    Some("max_tokens must be greater than zero for model '"@ + name + "'"@)
                } else if profile.context_window matches Some(window) && window <= limit {
                    Some(
                        "context_window ("@ + decimal(profile.context_window->Some_0 as nat)
                            + ") must be greater than max_tokens ("@ + decimal(limit as nat)
                            + ") for model '"@ + name + "'"@,
                    )
                } else if let Some(effort) = unknown_effort(named_efforts(profile), 0) {
                    Some("unknown effort '"@ + effort + "'"@)
                } else if profile.effort matches Some(effort) && !profile.efforts.contains(effort) {
                    Some(
                        "default effort '"@ + profile.effort->Some_0
                            + "' is not listed in efforts for model '"@ + name + "'"@,
                    )
                } else {
                    None
                }
            },
        }
    }
}

/// What is wrong with the first faulty profile from `from` on.
pub open spec fn problem_from(config: ChoiceView, from: int) -> Option<Seq<char>>
    decreases config.models.len() - from,
{
    if from >= config.models.len() {
        None
    } else {
        match profile_problem(config.models[from].0, config.models[from].1, config.providers) {
            Some(e) => Some(e),
            None => problem_from(config, from + 1),
        }
    }
}

/// What is wrong with the models of a configuration.
pub open spec fn models_problem(config: ChoiceView) -> Option<Seq<char>> {
    if config.models.len() == 0 {
        Some("at least one [models.<name>] profile is required"@)
    } else if lookup(config.models, config.default_model) is None {
        Some("default_model '"@ + config.default_model + "' was not found"@)
    } else {
        problem_from(config, 0)
    }
}

/// What is wrong with a configuration.
pub open spec fn config_problem(config: ChoiceView, tools: ToolsConfig) -> Option<Seq<char>> {
    if tools.max_parallel == 0 {
        Some("tools.max_parallel must be greater than zero"@)
    } else if tools.bash_max_timeout_seconds < tools.bash_timeout_seconds {
        Some(
            "tools.bash_max_timeout_seconds ("@ + decimal(tools.bash_max_timeout_seconds as nat)
                + ") must be at least tools.bash_timeout_seconds ("@ + decimal(
                tools.bash_timeout_seconds as nat,
            ) + ")"@,
        )
    } else {
        models_problem(config)
    }
}

/// The providers with the environment variable of Anthropic for those that
/// speak its protocol and do not name one.
pub open spec fn with_key_names(
    providers: Seq<(Seq<char>, ProviderView)>,
    explicit: Seq<Seq<char>>,
) -> Seq<(Seq<char>, ProviderView)> {
    Seq::new(
        providers.len(),
        |i: int|
            if !explicit.contains(providers[i].0) && providers[i].1.kind
                == ProviderKind::Anthropic {
                (
                    providers[i].0,
                    (ProviderView { api_key_env: "ANTHROPIC_API_KEY"@, ..providers[i].1 }),
                )
            } else {
                providers[i]
            },
    )
}

fn insert_nested_request_value(
    request: &mut Table<Json>,
    object_key: &str,
    field: &str,
    value: &str,
) -> (r: Result<(), String>)
    ensures
        match r {
            Ok(()) => with_nested(old(request)@, object_key@, field@, value@) == Ok::<
                Seq<(Seq<char>, JsonView)>,
                Seq<char>,
            >(final(request)@),
            Err(e) => with_nested(old(request)@, object_key@, field@, value@) == Err::<
                Seq<(Seq<char>, JsonView)>,
                Seq<char>,
            >(e@) && final(request)@ == old(request)@,
        },
{
    let entries = match request.get(object_key) {
        None => {
            let mut entries = no_entries();
            push_entry(&mut entries, field, text_json(value));
            assert(pairs(entries@) =~= seq![(field@, JsonView::Str(value@))]);
            entries
        },
        Some(object) => match object {
            Json::Object(current) => {
                proof {
                    lemma_object_view(*current);
                }
                let mut entries = copy_entries(current);
                set_entry(&mut entries, field, text_json(value));
                entries
            },
            _ => {
                return Err("request.".to_owned().concat(object_key).concat(" must be an object"));
            },
        },
    };
    request.put(object_key, object_json(entries));
    Ok(())
}

fn copy_entries(entries: &Vec<(String, Json)>) -> (r: Vec<(String, Json)>)
    ensures
        pairs(r@) == pairs(entries@),
{
    broadcast use lemma_pairs_push;

    let mut r: Vec<(String, Json)> = Vec::new();
    let ghost all = pairs(entries@);
    assert(pairs(r@) =~= all.take(0));
    let mut i: usize = 0;
    while i < entries.len()
        invariant
            i <= entries.len(),
            all == pairs(entries@),
            pairs(r@) == all.take(i as int),
        decreases entries.len() - i,
    {
        r.push((entries[i].0.clone(), entries[i].1.clone()));
        assert(all.take(i + 1) =~= all.take(i as int).push(all[i as int]));
        i += 1;
    }
    assert(all.take(all.len() as int) =~= all);
    r
}

fn apply_effort(provider: &mut ProviderConfig, effort: &str) -> (r: Result<(), String>)
    ensures
        match r {
            Ok(()) => {
                &&& with_effort(old(provider).kind, old(provider)@.request, effort@) == Ok::<
                    Seq<(Seq<char>, JsonView)>,
                    Seq<char>,
                >(final(provider)@.request)
                &&& final(provider)@ == (ProviderView {
                    request: final(provider)@.request,
                    ..old(provider)@
                })
            },
            Err(e) => with_effort(old(provider).kind, old(provider)@.request, effort@) == Err::<
                Seq<(Seq<char>, JsonView)>,
                Seq<char>,
            >(e@),
        },
{
    match provider.kind {
        ProviderKind::Responses => insert_nested_request_value(
            &mut provider.request,
            "reasoning",
            "effort",
            effort,
        ),
        ProviderKind::Chatcompletion => {
            provider.request.put("reasoning_effort", text_json(effort));
            Ok(())
        },
        ProviderKind::Anthropic => insert_nested_request_value(
            &mut provider.request,
            "output_config",
            "effort",
            effort,
        ),
    }
}

fn extend_headers(t: &mut Table<String>, more: &Table<String>)
    ensures
        final(t)@ == put_all(old(t)@, more@),
{
    let ghost base = t@;
    let mut i: usize = 0;
    assert(more@.take(0) =~= Seq::empty());
    while i < more.entries.len()
        invariant
            i <= more.entries.len(),
            t@ == put_all(base, more@.take(i as int)),
        decreases more.entries.len() - i,
    {
        assert(more@.take(i + 1).drop_last() =~= more@.take(i as int));
        t.put(&more.entries[i].0, more.entries[i].1.clone());
        i += 1;
    }
    assert(more@.take(more@.len() as int) =~= more@);
}

fn extend_request(t: &mut Table<Json>, more: &Table<Json>)
    ensures
        final(t)@ == put_all(old(t)@, more@),
{
    let ghost base = t@;
    let mut i: usize = 0;
    assert(more@.take(0) =~= Seq::empty());
    while i < more.entries.len()
        invariant
            i <= more.entries.len(),
            t@ == put_all(base, more@.take(i as int)),
        decreases more.entries.len() - i,
    {
        assert(more@.take(i + 1).drop_last() =~= more@.take(i as int));
        t.put(&more.entries[i].0, more.entries[i].1.clone());
        i += 1;
    }
    assert(more@.take(more@.len() as int) =~= more@);
}

impl Config {
    /// The names of the model profiles, in order.
    pub fn model_names(&self) -> (r: Vec<String>)
        ensures
            texts(r@) == keys_of(self@.models),
            self@.in_order() ==> increasing(texts(r@)),
    {
        self.models.keys()
    }

    /// The model that a name selects.
    pub fn resolve_model(&self, name: Option<&str>, effort_override: Option<&str>) -> (r: Result<
        ModelSelection,
        String,
    >)
        ensures
            outcome(r) == selection(self@, borrowed(name), borrowed(effort_override)),
    {
        let name = match name {
            Some(name) => name,
            None => self.default_model.as_str(),
        };
        let profile = match self.models.get(name) {
            Some(profile) => profile,
            None => return Err("model profile not found: ".to_owned().concat(name)),
        };
        let mut provider = match self.providers.get(&profile.provider) {
            Some(provider) => provider.clone(),
            None => return Err(
                "provider '".to_owned().concat(&profile.provider).concat(
                    "' referenced by model '",
                ).concat(name).concat("' was not found"),
            ),
        };
        provider.model = profile.model.clone();
        if let Some(max_tokens) = profile.max_tokens {
            provider.max_tokens = max_tokens;
        }
        extend_headers(&mut provider.headers, &profile.headers);
        extend_request(&mut provider.request, &profile.request);
        let effort = match effort_override {
            Some(effort) => Some(effort.to_owned()),
            None => copy_maybe(&profile.effort),
        };
        if let Some(effort) = &effort {
            match validate_effort(effort) {
                Ok(()) => {},
                Err(e) => return Err(e),
            }
            if !holds_text(&profile.efforts, effort) {
                return Err(
                    "effort '".to_owned().concat(effort).concat(
                        "' is not configured for model '",
                    ).concat(name).concat("'"),
                );
            }
            match apply_effort(&mut provider, effort) {
                Ok(()) => {},
                Err(e) => return Err(e),
            }
        }
        Ok(
            ModelSelection {
                name: name.to_owned(),
                provider_name: profile.provider.clone(),
                provider,
                effort,
                efforts: copy_texts(&profile.efforts),
                context_window: profile.context_window,
                pricing: copy_maybe(&profile.pricing),
                cost: profile.cost,
            },
        )
    }

    /// The model that a session was held with.
    pub fn resolve_session_model(
        &self,
        profile: Option<&str>,
        provider_type: &str,
        model: &str,
        effort: Option<&str>,
    ) -> (r: Result<ModelSelection, String>)
        ensures
            outcome(r) == session_selection(
                self@,
                borrowed(profile),
                provider_type@,
                model@,
                borrowed(effort),
            ),
    {
        if profile.is_some() {
            return self.resolve_model(profile, effort);
        }
        let kind = match ProviderKind::parse(provider_type) {
            Ok(kind) => kind,
            Err(e) => return Err(e),
        };
        assert(!(forall|k: ProviderKind| #[trigger] k.name() != provider_type@)) by {
            assert(kind.name() == provider_type@);
        }
        let mut i: usize = 0;
        while i < self.models.entries.len()
            invariant
                i <= self.models.entries.len(),
                kind.name() == provider_type@,
                session_selection(
                    self@,
                    borrowed(profile),
                    provider_type@,
                    model@,
                    borrowed(effort),
                ) == match_from(self@, provider_type@, model@, borrowed(effort), 0),
                match_from(self@, provider_type@, model@, borrowed(effort), 0) == match_from(
                    self@,
                    provider_type@,
                    model@,
                    borrowed(effort),
                    i as int,
                ),
            decreases self.models.entries.len() - i,
        {
            let name = &self.models.entries[i].0;
            assert(self@.models[i as int].0 == name@);
            let candidate = match self.resolve_model(Some(name.as_str()), None) {
                Ok(candidate) => candidate,
                Err(e) => return Err(e),
            };
            proof {
                if candidate.provider.kind.name() == provider_type@ {
                    law_kind_names(candidate.provider.kind, kind);
                }
            }
            if candidate.provider.kind == kind && same(&candidate.provider.model, model) {
                return self.resolve_model(Some(name.as_str()), effort);
            }
            i += 1;
        }
        Err(
            "session model ".to_owned().concat(provider_type).concat("/").concat(model).concat(
                " does not match a configured model profile",
            ),
        )
    }
}

/// The text of an optional borrowed text.
pub open spec fn borrowed(o: Option<&str>) -> Option<Seq<char>> {
    match o {
        Some(s) => Some(s@),
        None => None,
    }
}

fn find_unknown_effort(efforts: &Vec<String>) -> (r: Option<String>)
    ensures
        maybe(r) == unknown_effort(texts(efforts@), 0),
{
    let ghost all = texts(efforts@);
    let known = canonical_efforts();
    let mut i: usize = 0;
    while i < efforts.len()
        invariant
            i <= efforts.len(),
            all == texts(efforts@),
            texts(known@) == known_efforts(),
            unknown_effort(all, 0) == unknown_effort(all, i as int),
        decreases efforts.len() - i,
    {
        assert(all[i as int] == efforts@[i as int]@);
        if !holds_text(&known, &efforts[i]) {
            return Some(efforts[i].clone());
        }
        i += 1;
    }
    None
}

fn validate_profile(name: &str, profile: &ModelProfile, providers: &Table<ProviderConfig>) -> (r:
    Option<String>)
    ensures
        maybe(r) == profile_problem(name@, profile@, providers@),
{
    broadcast use lemma_texts_push;

    if profile.provider.as_str().is_empty() || profile.model.as_str().is_empty() {
        return Some("model '".to_owned().concat(name).concat("' requires provider and model"));
    }
    let provider = match providers.get(&profile.provider) {
        Some(provider) => provider,
        None => return Some(
            "provider '".to_owned().concat(&profile.provider).concat(
                "' referenced by model '",
            ).concat(name).concat("' was not found"),
        ),
    };
    let limit: u32 = match profile.max_tokens {
        Some(n) => n,
        None => provider.max_tokens,
    };
    if limit == 0 {
        return Some(
            "max_tokens must be greater than zero for model '".to_owned().concat(name).concat("'"),
        );
    }
    if let Some(window) = profile.context_window {
        if window <= limit as u64 {
            return Some(
                "context_window (".to_owned().concat(&decimal_text(window)).concat(
                    ") must be greater than max_tokens (",
                ).concat(&decimal_text(limit as u64)).concat(") for model '").concat(name).concat(
                    "'",
                ),
            );
        }
    }
    let mut efforts = copy_texts(&profile.efforts);
    if let Some(effort) = &profile.effort {
        efforts.push(effort.clone());
    }
    assert(texts(efforts@) == named_efforts(profile@));
    if let Some(effort) = find_unknown_effort(&efforts) {
        return Some("unknown effort '".to_owned().concat(&effort).concat("'"));
    }
    if let Some(effort) = &profile.effort {
        if !holds_text(&profile.efforts, effort) {
            return Some(
                "default effort '".to_owned().concat(effort).concat(
                    "' is not listed in efforts for model '",
                ).concat(name).concat("'"),
            );
        }
    }
    None
}

impl Config {
    fn validate_models(&self) -> (r: Option<String>)
        ensures
            maybe(r) == models_problem(self@),
    {
        if self.models.entries.len() == 0 {
            return Some("at least one [models.<name>] profile is required".to_owned());
        }
        if !self.models.has(&self.default_model) {
            return Some(
                "default_model '".to_owned().concat(&self.default_model).concat("' was not found"),
            );
        }
        let mut i: usize = 0;
        while i < self.models.entries.len()
            invariant
                i <= self.models.entries.len(),
                models_problem(self@) == problem_from(self@, 0),
                problem_from(self@, 0) == problem_from(self@, i as int),
            decreases self.models.entries.len() - i,
        {
            let entry = &self.models.entries[i];
            assert(self@.models[i as int] == (entry.0@, entry.1@));
            if let Some(e) = validate_profile(&entry.0, &entry.1, &self.providers) {
                return Some(e);
            }
            i += 1;
        }
        None
    }

    /// Completes a configuration as it was read: names the environment
    /// variables that were left out (`explicit` holds the providers that name
    /// one) and refuses what cannot work.
    pub fn complete(self, explicit: &Vec<String>) -> (r: Result<Config, String>)
        ensures
            ({
                let completed = ChoiceView {
                    providers: with_key_names(self@.providers, texts(explicit@)),
                    ..self@
                };
                match r {
                    Ok(c) => {
                        &&& config_problem(completed, self.tools) is None
                        &&& c@ == completed
                        &&& self@.in_order() ==> c@.in_order()
                        &&& c.ui == self.ui
                        &&& c.tools == self.tools
                        &&& c.context == self.context
                        &&& c.session == self.session
                    },
                    Err(e) => config_problem(completed, self.tools) == Some(e@),
                }
            }),
    {
        let mut config = self;
        let ghost first = self@.providers;
        let ghost named = with_key_names(first, texts(explicit@));
        let mut i: usize = 0;
        while i < config.providers.entries.len()
            invariant
                i <= config.providers.entries.len(),
                config.default_model == self.default_model,
                config.models == self.models,
                config.ui == self.ui,
                config.tools == self.tools,
                config.context == self.context,
                config.session == self.session,
                first == self@.providers,
                named == with_key_names(first, texts(explicit@)),
                config.providers@.len() == first.len(),
                forall|k: int| 0 <= k < i ==> config.providers@[k] == named[k],
                forall|k: int| i <= k < first.len() ==> config.providers@[k] == first[k],
            decreases config.providers.entries.len() - i,
        {
            let ghost before = config.providers@;
            assert(before[i as int] == first[i as int]);
            if !holds_text(explicit, &config.providers.entries[i].0)
                && config.providers.entries[i].1.kind == ProviderKind::Anthropic {
                let name = config.providers.entries[i].0.clone();
                let mut provider = config.providers.entries[i].1.clone();
                provider.api_key_env = "ANTHROPIC_API_KEY".to_owned();
                let ghost entry = (name@, provider@);
                config.providers.entries.set(i, (name, provider));
                assert(config.providers@ =~= before.update(i as int, entry));
            }
            i += 1;
        }
        assert(config.providers@ =~= named);
        if config.tools.max_parallel == 0 {
            return Err("tools.max_parallel must be greater than zero".to_owned());
        }
        if config.tools.bash_max_timeout_seconds < config.tools.bash_timeout_seconds {
            return Err(
                "tools.bash_max_timeout_seconds (".to_owned().concat(
                    &decimal_text(config.tools.bash_max_timeout_seconds),
                ).concat(") must be at least tools.bash_timeout_seconds (").concat(
                    &decimal_text(config.tools.bash_timeout_seconds),
                ).concat(")"),
            );
        }
        match config.validate_models() {
            Some(e) => Err(e),
            None => {
                proof {
                    assert(keys_of(named) =~= keys_of(first));
                    if self@.in_order() {
                        assert forall|k: int| 0 <= k < named.len() implies (
                        #[trigger] named[k]).1.in_order() by {
                            assert(first[k].1.in_order());
                        }
                    }
                }
                Ok(config)
            },
        }
    }
}

/// A configuration without a problem can select its default model, unless the
/// request fields leave no room for the effort.
pub proof fn law_default_model_resolves(config: ChoiceView, tools: ToolsConfig)
    requires
        config_problem(config, tools) is None,
        lookup(config.models, config.default_model) matches Some(profile) ==> (lookup(
            config.providers,
            profile.provider,
        ) matches Some(provider) ==> (profile.effort matches Some(effort) ==> with_effort(
            provider.kind,
            put_all(provider.request, profile.request),
            effort,
        ) is Ok)),
    ensures
        selection(config, None, None) is Ok,
{
    lemma_place(config.models, config.default_model, 0);
    let at = place(config.models, config.default_model, 0);
    let profile = config.models[at].1;
    lemma_problem_from(config, 0, at);
    assert(profile_problem(config.default_model, profile, config.providers) is None);
    if let Some(effort) = profile.effort {
        let named = named_efforts(profile);
        lemma_unknown_effort(named, 0, named.len() - 1);
        assert(named[named.len() - 1] == effort);
    }
}

/// Whatever model a configuration without a problem selects, what it may answer
/// with leaves room in its context window.
pub proof fn law_answers_leave_room(
    config: ChoiceView,
    tools: ToolsConfig,
    name: Option<Seq<char>>,
    effort: Option<Seq<char>>,
)
    requires
        config_problem(config, tools) is None,
    ensures
        selection(config, name, effort) matches Ok(model) ==> 0 < model.provider.max_tokens && (
        model.context_window matches Some(window) ==> model.provider.max_tokens < window),
{
    let chosen = match name {
        Some(name) => name,
        None => config.default_model,
    };
    if lookup(config.models, chosen) is Some {
        lemma_place(config.models, chosen, 0);
        let at = place(config.models, chosen, 0);
        lemma_problem_from(config, 0, at);
    }
}

/// What a profile says of headers and request fields goes before what its
/// provider says, which stands where the profile says nothing.
pub proof fn law_profiles_go_before_providers(
    provider: ProviderView,
    profile: ProfileView,
    key: Seq<char>,
)
    requires
        provider.in_order(),
        profile.in_order(),
    ensures
        profiled(provider, profile).in_order(),
        lookup(profiled(provider, profile).headers, key) == (if lookup(profile.headers, key) is Some {
            lookup(profile.headers, key)
        } else {
            lookup(provider.headers, key)
        }),
        lookup(profiled(provider, profile).request, key) == (if lookup(profile.request, key) is Some {
            lookup(profile.request, key)
        } else {
            lookup(provider.request, key)
        }),
{
    law_put_all(provider.headers, profile.headers, key);
    law_put_all(provider.request, profile.request, key);
}

/// What is selected from a configuration in order is in order.
pub proof fn law_selections_are_in_order(
    config: ChoiceView,
    name: Option<Seq<char>>,
    effort: Option<Seq<char>>,
)
    requires
        config.in_order(),
    ensures
        selection(config, name, effort) matches Ok(model) ==> model.provider.in_order(),
{
    let chosen = match name {
        Some(name) => name,
        None => config.default_model,
    };
    if let Some(profile) = lookup(config.models, chosen) {
        lemma_place(config.models, chosen, 0);
        assert(config.models[place(config.models, chosen, 0)].1.in_order());
        if let Some(provider) = lookup(config.providers, profile.provider) {
            lemma_place(config.providers, profile.provider, 0);
            assert(config.providers[place(config.providers, profile.provider, 0)].1.in_order());
            law_profiles_go_before_providers(provider, profile, chosen);
            let request = profiled(provider, profile).request;
            let wanted = if effort is Some {
                effort
            } else {
                profile.effort
            };
            if let Some(wanted) = wanted {
                let object = match provider.kind {
                    ProviderKind::Responses => "reasoning"@,
                    ProviderKind::Chatcompletion => "reasoning_effort"@,
                    ProviderKind::Anthropic => "output_config"@,
                };
                let text = JsonView::Str(wanted);
                law_put(request, object, text, object);
                law_put(request, object, JsonView::Object(seq![("effort"@, text)]), object);
                if let Some(JsonView::Object(entries)) = lookup(request, object) {
                    law_put(
                        request,
                        object,
                        JsonView::Object(with_entry(entries, "effort"@, text)),
                        object,
                    );
                }
            }
        }
    }
}

/// Whether a profile serves a model over a protocol.
pub open spec fn serves(
    config: ChoiceView,
    name: Seq<char>,
    provider_type: Seq<char>,
    model: Seq<char>,
) -> bool {
    selection(config, Some(name), None) matches Ok(s) && s.provider.kind.name() == provider_type
        && s.provider.model == model
}

/// A session without a profile is gone on with by the profile with the least
/// name that serves its model over its protocol.
pub proof fn law_sessions_go_on_with_the_first_profile(
    config: ChoiceView,
    provider_type: Seq<char>,
    model: Seq<char>,
    effort: Option<Seq<char>>,
)
    requires
        config.in_order(),
    ensures
        session_selection(config, None, provider_type, model, effort) matches Ok(s) ==> {
            &&& keys_of(config.models).contains(s.name)
            &&& serves(config, s.name, provider_type, model)
            &&& forall|i: int|
                0 <= i < config.models.len() && serves(
                    config,
                    (#[trigger] config.models[i]).0,
                    provider_type,
                    model,
                ) ==> s.name == config.models[i].0 || precedes(s.name, config.models[i].0)
        },
{
    lemma_match_from(config, provider_type, model, effort, 0);
}

proof fn lemma_match_from(
    config: ChoiceView,
    provider_type: Seq<char>,
    model: Seq<char>,
    effort: Option<Seq<char>>,
    from: int,
)
    requires
        config.in_order(),
        0 <= from <= config.models.len(),
    ensures
        match_from(config, provider_type, model, effort, from) matches Ok(s) ==> {
            &&& keys_of(config.models).contains(s.name)
            &&& serves(config, s.name, provider_type, model)
            &&& forall|i: int|
                from <= i < config.models.len() && serves(
                    config,
                    (#[trigger] config.models[i]).0,
                    provider_type,
                    model,
                ) ==> s.name == config.models[i].0 || precedes(s.name, config.models[i].0)
        },
    decreases config.models.len() - from,
{
    if from < config.models.len() {
        let names = keys_of(config.models);
        assert(names[from] == config.models[from].0);
        if serves(config, config.models[from].0, provider_type, model) {
            assert forall|i: int| from < i < config.models.len() implies precedes(
                config.models[from].0,
                (#[trigger] config.models[i]).0,
            ) by {
                assert(names[i] == config.models[i].0);
            }
        } else {
            lemma_match_from(config, provider_type, model, effort, from + 1);
        }
    }
}

proof fn lemma_problem_from(config: ChoiceView, from: int, i: int)
    requires
        0 <= from <= i < config.models.len(),
        problem_from(config, from) is None,
    ensures
        profile_problem(config.models[i].0, config.models[i].1, config.providers) is None,
    decreases i - from,
{
    if from < i {
        lemma_problem_from(config, from + 1, i);
    }
}

proof fn lemma_unknown_effort(efforts: Seq<Seq<char>>, from: int, i: int)
    requires
        0 <= from <= i < efforts.len(),
        unknown_effort(efforts, from) is None,
    ensures
        known_efforts().contains(efforts[i]),
    decreases i - from,
{
    if from < i {
        lemma_unknown_effort(efforts, from + 1, i);
    }
}

// ---------------------------------------------------------------------------
// What is selected and what is refused

/// A key that is configured is sent; else the one that the environment holds.
/// Without either there is none, and what would set one is told.
pub proof fn law_configured_keys_come_first(p: ProviderView, found: Option<Seq<char>>)
    ensures
        p.api_key matches Some(key) ==> (key.len() > 0 ==> key_of(p, found) == Ok::<
            Seq<char>,
            Seq<char>,
        >(key)),
        (p.api_key matches Some(key) ==> key.len() == 0) ==> match found {
            Some(key) => key_of(p, found) == Ok::<Seq<char>, Seq<char>>(key),
            None => key_of(p, found) matches Err(e) && has(e, p.api_key_env),
        },
{
    if (p.api_key matches Some(key) ==> key.len() == 0) && found is None {
        let start = "provider authentication is not configured; set api_key in the selected provider, set "@;
        let e = start + p.api_key_env + ", or update ~/.config/a/config.toml"@;
        let n = start.len() as int;
        assert(e.subrange(n, n + p.api_key_env.len()) =~= p.api_key_env);
        law_contained_texts_stand_somewhere(e, p.api_key_env);
    }
}

/// What is selected is the profile that is named, or the default one, on its
/// provider: with the profile's model and limits, the provider's address and key,
/// and the effort that is asked for or else the profile's.
pub proof fn law_selections_follow_their_profile(
    config: ChoiceView,
    name: Option<Seq<char>>,
    effort: Option<Seq<char>>,
)
    ensures
        selection(config, name, effort) matches Ok(s) ==> ({
            let chosen = match name {
                Some(name) => name,
                None => config.default_model,
            };
            &&& s.name == chosen
            &&& lookup(config.models, chosen) matches Some(profile) && {
                &&& s.provider_name == profile.provider
                &&& s.provider.model == profile.model
                &&& s.efforts == profile.efforts
                &&& s.context_window == profile.context_window
                &&& s.pricing == profile.pricing
                &&& s.cost == profile.cost
                &&& effort is Some ==> s.effort == effort
                &&& effort is None ==> s.effort == profile.effort
                &&& s.effort matches Some(e) ==> profile.efforts.contains(e)
                    && known_efforts().contains(e)
                &&& lookup(config.providers, profile.provider) matches Some(provider) && {
                    &&& s.provider.kind == provider.kind
                    &&& s.provider.base_url == provider.base_url
                    &&& s.provider.api_key == provider.api_key
                    &&& s.provider.api_key_env == provider.api_key_env
                    &&& s.provider.max_tokens == (match profile.max_tokens {
                        Some(n) => n,
                        None => provider.max_tokens,
                    })
                }
            }
        }),
{
}

/// An effort that is asked for stands in the request where the protocol has it:
/// under `reasoning`, as `reasoning_effort`, or under `output_config`.
pub proof fn law_efforts_are_asked_for(
    config: ChoiceView,
    name: Option<Seq<char>>,
    effort: Option<Seq<char>>,
)
    requires
        config.in_order(),
    ensures
        selection(config, name, effort) matches Ok(s) ==> (s.effort matches Some(e) ==> match
        s.provider.kind {
            ProviderKind::Responses => lookup(s.provider.request, "reasoning"@) matches Some(v)
                && v.text("effort"@) == Some(e),
            ProviderKind::Chatcompletion => lookup(s.provider.request, "reasoning_effort"@) == Some(
                JsonView::Str(e),
            ),
            ProviderKind::Anthropic => lookup(s.provider.request, "output_config"@) matches Some(v)
                && v.text("effort"@) == Some(e),
        }),
{
    if let Ok(s) = selection(config, name, effort) {
        if let Some(e) = s.effort {
            let chosen = match name {
                Some(name) => name,
                None => config.default_model,
            };
            let profile = lookup(config.models, chosen)->Some_0;
            let provider = lookup(config.providers, profile.provider)->Some_0;
            lemma_place(config.models, chosen, 0);
            assert(config.models[place(config.models, chosen, 0)].1.in_order());
            lemma_place(config.providers, profile.provider, 0);
            assert(config.providers[place(config.providers, profile.provider, 0)].1.in_order());
            law_profiles_go_before_providers(provider, profile, chosen);
            let request = profiled(provider, profile).request;
            let text = JsonView::Str(e);
            let object = match provider.kind {
                ProviderKind::Responses => "reasoning"@,
                ProviderKind::Chatcompletion => "reasoning_effort"@,
                ProviderKind::Anthropic => "output_config"@,
            };
            law_put(request, object, text, object);
            let alone = seq![("effort"@, text)];
            law_put(request, object, JsonView::Object(alone), object);
            lemma_entry_at(alone, 0);
            if let Some(JsonView::Object(entries)) = lookup(request, object) {
                law_with_entry(entries, "effort"@, text, "effort"@);
                law_put(
                    request,
                    object,
                    JsonView::Object(with_entry(entries, "effort"@, text)),
                    object,
                );
            }
        }
    }
}

/// A selection fails only for a reason: there is no such profile or no such
/// provider, the effort is not one that the profile has, or the request leaves no
/// room for it.
pub proof fn law_selections_fail_for_a_reason(
    config: ChoiceView,
    name: Option<Seq<char>>,
    effort: Option<Seq<char>>,
)
    ensures
        ({
            let chosen = match name {
                Some(name) => name,
                None => config.default_model,
            };
            selection(config, name, effort) is Ok <==> (lookup(config.models, chosen) matches Some(
                profile,
            ) && (lookup(config.providers, profile.provider) matches Some(provider) && ((effort
                is None && profile.effort is None) || ({
                let wanted = if effort is Some {
                    effort->Some_0
                } else {
                    profile.effort->Some_0
                };
                let request = put_all(provider.request, profile.request);
                &&& known_efforts().contains(wanted)
                &&& profile.efforts.contains(wanted)
                &&& match provider.kind {
                    ProviderKind::Responses => lookup(request, "reasoning"@) matches Some(v) ==> v
                        is Object,
                    ProviderKind::Chatcompletion => true,
                    ProviderKind::Anthropic => lookup(request, "output_config"@) matches Some(v)
                        ==> v is Object,
                }
            }))))
        }),
{
}

proof fn lemma_efforts_known(efforts: Seq<Seq<char>>, from: int)
    requires
        0 <= from <= efforts.len(),
        forall|i: int| from <= i < efforts.len() ==> known_efforts().contains(#[trigger] efforts[i]),
    ensures
        unknown_effort(efforts, from) is None,
    decreases efforts.len() - from,
{
    if from < efforts.len() {
        lemma_efforts_known(efforts, from + 1);
    }
}

proof fn lemma_no_problem_from(config: ChoiceView, from: int)
    requires
        0 <= from <= config.models.len(),
        forall|i: int|
            from <= i < config.models.len() ==> profile_problem(
                (#[trigger] config.models[i]).0,
                config.models[i].1,
                config.providers,
            ) is None,
    ensures
        problem_from(config, from) is None,
    decreases config.models.len() - from,
{
    if from < config.models.len() {
        lemma_no_problem_from(config, from + 1);
    }
}

/// Whether a profile can work: it names a model and a provider that there is, may
/// answer with something that leaves room in its window, and has only efforts
/// that are known, its own among them.
pub open spec fn can_work(profile: ProfileView, providers: Seq<(Seq<char>, ProviderView)>) -> bool {
    &&& profile.provider.len() > 0
    &&& profile.model.len() > 0
    &&& lookup(providers, profile.provider) matches Some(provider) && {
        let limit = match profile.max_tokens {
            Some(n) => n,
            None => provider.max_tokens,
        };
        &&& limit > 0
        &&& profile.context_window matches Some(window) ==> limit < window
    }
    &&& forall|i: int|
        0 <= i < profile.efforts.len() ==> known_efforts().contains(#[trigger] profile.efforts[i])
    &&& profile.effort matches Some(effort) ==> profile.efforts.contains(effort)
}

/// A configuration is accepted exactly if its default model is among its
/// profiles, every profile can work, and the tools have room to work.
pub proof fn law_configurations_that_can_work_are_accepted(config: ChoiceView, tools: ToolsConfig)
    ensures
        config_problem(config, tools) is None <==> {
            &&& tools.max_parallel > 0
            &&& tools.bash_timeout_seconds <= tools.bash_max_timeout_seconds
            &&& lookup(config.models, config.default_model) is Some
            &&& forall|i: int|
                0 <= i < config.models.len() ==> can_work(
                    (#[trigger] config.models[i]).1,
                    config.providers,
                )
        },
{
    lemma_place(config.models, config.default_model, 0);
    if config_problem(config, tools) is None {
        assert forall|i: int| 0 <= i < config.models.len() implies can_work(
            (#[trigger] config.models[i]).1,
            config.providers,
        ) by {
            lemma_problem_from(config, 0, i);
            let profile = config.models[i].1;
            let named = named_efforts(profile);
            assert forall|k: int| 0 <= k < profile.efforts.len() implies known_efforts().contains(
                #[trigger] profile.efforts[k],
            ) by {
                lemma_unknown_effort(named, 0, k);
                assert(named[k] == profile.efforts[k]);
            }
        }
    }
    if lookup(config.models, config.default_model) is Some && forall|i: int|
        0 <= i < config.models.len() ==> can_work((#[trigger] config.models[i]).1, config.providers) {
        assert forall|i: int| 0 <= i < config.models.len() implies profile_problem(
            (#[trigger] config.models[i]).0,
            config.models[i].1,
            config.providers,
        ) is None by {
            let profile = config.models[i].1;
            assert(can_work(profile, config.providers));
            let named = named_efforts(profile);
            assert forall|k: int| 0 <= k < named.len() implies known_efforts().contains(
                #[trigger] named[k],
            ) by {
                if k < profile.efforts.len() {
                    assert(named[k] == profile.efforts[k]);
                } else {
                    let effort = profile.effort->Some_0;
                    let j = choose|j: int|
                        0 <= j < profile.efforts.len() && profile.efforts[j] == effort;
                    assert(known_efforts().contains(profile.efforts[j]));
                }
            }
            lemma_efforts_known(named, 0);
        }
        lemma_no_problem_from(config, 0);
    }
}

/// Only providers that speak Anthropic's protocol, and do not name the variable
/// of their key, get its usual name; nothing else of them changes.
pub proof fn law_key_names_are_filled_in(
    providers: Seq<(Seq<char>, ProviderView)>,
    explicit: Seq<Seq<char>>,
    i: int,
)
    requires
        0 <= i < providers.len(),
    ensures
        ({
            let after = with_key_names(providers, explicit);
            &&& after.len() == providers.len()
            &&& after[i].0 == providers[i].0
            &&& explicit.contains(providers[i].0) || providers[i].1.kind != ProviderKind::Anthropic
                ==> after[i] == providers[i]
            &&& !explicit.contains(providers[i].0) && providers[i].1.kind == ProviderKind::Anthropic
                ==> after[i].1 == (ProviderView {
                api_key_env: "ANTHROPIC_API_KEY"@,
                ..providers[i].1
            })
        }),
{
}

} // verus!
