//! The slash commands.
use vstd::prelude::*;
use vstd::string::*;

use crate::agent::ContextStatus;
use crate::config::{
    ChoiceView, Config, ModelSelection, SelectionView, selection, session_selection,
};
use crate::pricing::{
    Resolution, ResolutionView, Schedule, ScheduleView, law_namesakes_are_found, likely_provider,
    namesake,
};
use crate::session::{Session, SessionView};
use crate::table::keys_of;
use crate::text::{
    begins, copy_maybe, copy_texts, decimal, decimal_text, ends, join, joined,
    law_words_are_read_back, lines, lines_of, maybe, maybe_view, outcome, same, split_whitespace,
    starts_with, texts, views, white_space, words_of,
};

verus! {

/// What a line asks for.
pub enum SlashStep {
    /// It is no command.
    NotCommand,
    /// Nothing but to say this.
    Notice(String),
    /// Ask which model: the profiles, what is shown of each, and the one that
    /// is highlighted first.
    ChooseModel { names: Vec<String>, labels: Vec<String>, default: usize },
    /// Ask which effort.
    ChooseEffort { efforts: Vec<String>, default: usize },
    /// Use another model or effort, and say this.
    Switch(Switch),
    ToggleReasoning,
    Report,
    Clear,
    Compact,
    /// Resume the session with this id.
    FindSession(String),
    /// Ask which session to resume.
    ChooseSession,
    Fail(String),
}

/// A model to be used, and what is said of it.
pub struct Switch {
    pub selection: ModelSelection,
    pub notice: String,
}

/// The model of a [`Switch`].
pub struct SwitchView {
    pub selection: SelectionView,
    pub notice: Seq<char>,
}

impl View for Switch {
    type V = SwitchView;

    open spec fn view(&self) -> SwitchView {
        SwitchView { selection: self.selection@, notice: self.notice@ }
    }
}

/// The model of a [`SlashStep`].
pub enum StepView {
    NotCommand,
    Notice(Seq<char>),
    ChooseModel { names: Seq<Seq<char>>, labels: Seq<Seq<char>>, default: int },
    ChooseEffort { efforts: Seq<Seq<char>>, default: int },
    Switch(SwitchView),
    ToggleReasoning,
    Report,
    Clear,
    Compact,
    FindSession(Seq<char>),
    ChooseSession,
    Fail(Seq<char>),
}

impl View for SlashStep {
    type V = StepView;

    open spec fn view(&self) -> StepView {
        match self {
            SlashStep::NotCommand => StepView::NotCommand,
            SlashStep::Notice(text) => StepView::Notice(text@),
            SlashStep::ChooseModel { names, labels, default } => StepView::ChooseModel {
                names: texts(names@),
                labels: texts(labels@),
                default: *default as int,
            },
            SlashStep::ChooseEffort { efforts, default } => StepView::ChooseEffort {
                efforts: texts(efforts@),
                default: *default as int,
            },
            SlashStep::Switch(switch) => StepView::Switch(switch@),
            SlashStep::ToggleReasoning => StepView::ToggleReasoning,
            SlashStep::Report => StepView::Report,
            SlashStep::Clear => StepView::Clear,
            SlashStep::Compact => StepView::Compact,
            SlashStep::FindSession(id) => StepView::FindSession(id@),
            SlashStep::ChooseSession => StepView::ChooseSession,
            SlashStep::Fail(message) => StepView::Fail(message@),
        }
    }
}

/// The effort as it is told.
pub open spec fn effort_text(effort: Option<Seq<char>>) -> Seq<char> {
    match effort {
        Some(effort) => effort,
        None => "default"@,
    }
}

/// What is shown of a model profile.
pub open spec fn model_label(name: Seq<char>, model: SelectionView) -> Seq<char> {
    name + "  "@ + model.provider.kind.name() + " · "@ + model.provider.model + " · "@
        + effort_text(model.effort)
}

/// What is shown of model profiles, unless one cannot be used.
pub open spec fn model_labels(config: ChoiceView, names: Seq<Seq<char>>) -> Result<
    Seq<Seq<char>>,
    Seq<char>,
>
    decreases names.len(),
{
    if names.len() == 0 {
        Ok(Seq::empty())
    } else {
        match model_labels(config, names.drop_last()) {
            Err(e) => Err(e),
            Ok(labels) => match selection(config, Some(names.last()), None) {
                Err(e) => Err(e),
                Ok(model) => Ok(labels.push(model_label(names.last(), model))),
            },
        }
    }
}

/// The first place of a text from `from` on; the start if there is none.
pub open spec fn place_of(s: Seq<Seq<char>>, text: Seq<char>, from: int) -> int
    decreases s.len() - from,
{
    if from >= s.len() {
        0
    } else if s[from] == text {
        from
    } else {
        place_of(s, text, from + 1)
    }
}

/// Using the model that a name selects.
pub open spec fn model_switch(config: ChoiceView, name: Seq<char>) -> Result<SwitchView, Seq<char>> {
    match selection(config, Some(name), None) {
        Err(e) => Err(e),
        Ok(model) => Ok(
            SwitchView {
                selection: model,
                notice: "model: "@ + model.name + " · "@ + model.provider.model + " · effort "@
                    + effort_text(model.effort),
            },
        ),
    }
}

/// Using another effort.
pub open spec fn effort_switch(config: ChoiceView, current: SelectionView, effort: Seq<char>) ->
    Result<SwitchView, Seq<char>> {
    match selection(config, Some(current.name), Some(effort)) {
        Err(e) => Err(e),
        Ok(model) => Ok(SwitchView { selection: model, notice: "effort: "@ + effort }),
    }
}

/// A switch as a step.
pub open spec fn switch_step(r: Result<SwitchView, Seq<char>>) -> StepView {
    match r {
        Ok(switch) => StepView::Switch(switch),
        Err(e) => StepView::Fail(e),
    }
}

/// What a line asks for. A command is a word that begins with a slash, at the
/// start of the line; the word behind it is its argument.
pub open spec fn slash_step(config: ChoiceView, current: SelectionView, line: Seq<char>) -> StepView {
    let words = words_of(line);
    if words.len() == 0 || !begins(words[0], "/"@) {
        StepView::NotCommand
    } else {
        let command = words[0];
        let argument = if words.len() > 1 {
            Some(words[1])
        } else {
            None
        };
        if command == "/model"@ {
            match argument {
                Some(name) => switch_step(model_switch(config, name)),
                None => {
                    let names = keys_of(config.models);
                    match model_labels(config, names) {
                        Ok(labels) => StepView::ChooseModel {
                            names,
                            labels,
                            default: place_of(names, current.name, 0),
                        },
                        Err(e) => StepView::Fail(e),
                    }
                },
            }
        } else if command == "/effort"@ {
            if current.efforts.len() == 0 {
                StepView::Notice("effort is not configured for the current model"@)
            } else {
                match argument {
                    Some(effort) => switch_step(effort_switch(config, current, effort)),
                    None => StepView::ChooseEffort {
                        efforts: current.efforts,
                        default: match current.effort {
                            Some(effort) => place_of(current.efforts, effort, 0),
                            None => 0,
                        },
                    },
                }
            }
        } else if command == "/thinking"@ {
            StepView::ToggleReasoning
        } else if command == "/status"@ {
            StepView::Report
        } else if command == "/clear"@ {
            StepView::Clear
        } else if command == "/compact"@ {
            StepView::Compact
        } else if command == "/resume"@ {
            match argument {
                Some(id) => StepView::FindSession(id),
                None => StepView::ChooseSession,
            }
        } else if command == "/help"@ {
            StepView::Notice(
                "commands: /model /effort /thinking /status /clear /compact /resume /help"@,
            )
        } else {
            StepView::Notice("unknown command: "@ + command)
        }
    }
}

fn effort_or_default(effort: &Option<String>) -> (r: String)
    ensures
        r@ == effort_text(maybe(*effort)),
{
    match effort {
        Some(effort) => effort.clone(),
        None => "default".to_owned(),
    }
}

fn find_place(v: &Vec<String>, text: &str) -> (r: usize)
    ensures
        r == place_of(texts(v@), text@, 0),
{
    let ghost all = texts(v@);
    let mut i: usize = 0;
    while i < v.len()
        invariant
            i <= v.len(),
            all == texts(v@),
            place_of(all, text@, 0) == place_of(all, text@, i as int),
        decreases v.len() - i,
    {
        assert(all[i as int] == v@[i as int]@);
        if same(&v[i], text) {
            return i;
        }
        i += 1;
    }
    0
}

proof fn lemma_labels_error(config: ChoiceView, names: Seq<Seq<char>>, i: int)
    requires
        0 <= i <= names.len(),
        model_labels(config, names.take(i)) is Err,
    ensures
        model_labels(config, names) == model_labels(config, names.take(i)),
    decreases names.len(),
{
    if i < names.len() {
        assert(names.drop_last().take(i) =~= names.take(i));
        lemma_labels_error(config, names.drop_last(), i);
    } else {
        assert(names.take(i) =~= names);
    }
}

fn label_models(config: &Config, names: &Vec<String>) -> (r: Result<Vec<String>, String>)
    ensures
        match r {
            Ok(labels) => model_labels(config@, texts(names@)) == Ok::<Seq<Seq<char>>, Seq<char>>(
                texts(labels@),
            ),
            Err(e) => model_labels(config@, texts(names@)) == Err::<Seq<Seq<char>>, Seq<char>>(e@),
        },
{
    let ghost all = texts(names@);
    let mut labels: Vec<String> = Vec::new();
    assert(texts(labels@) =~= Seq::empty());
    assert(all.take(0) =~= Seq::empty());
    let mut i: usize = 0;
    while i < names.len()
        invariant
            i <= names.len(),
            all == texts(names@),
            model_labels(config@, all.take(i as int)) == Ok::<Seq<Seq<char>>, Seq<char>>(
                texts(labels@),
            ),
        decreases names.len() - i,
    {
        assert(all.take(i + 1).drop_last() =~= all.take(i as int));
        assert(all.take(i + 1).last() == names@[i as int]@);
        match config.resolve_model(Some(&names[i]), None) {
            Ok(model) => {
                let ghost before = texts(labels@);
                let label = names[i].clone().concat("  ").concat(
                    model.provider.kind.as_str(),
                ).concat(" · ").concat(&model.provider.model).concat(" · ").concat(
                    &effort_or_default(&model.effort),
                );
                labels.push(label);
                assert(texts(labels@) =~= before.push(label@));
            },
            Err(e) => {
                proof {
                    lemma_labels_error(config@, all, i + 1);
                }
                return Err(e);
            },
        }
        i += 1;
    }
    assert(all.take(all.len() as int) =~= all);
    Ok(labels)
}

/// Using the model that a name selects.
pub fn switch_to_model(config: &Config, name: &str) -> (r: Result<Switch, String>)
    ensures
        outcome(r) == model_switch(config@, name@),
{
    match config.resolve_model(Some(name), None) {
        Ok(model) => {
            let notice = "model: ".to_owned().concat(&model.name).concat(" · ").concat(
                &model.provider.model,
            ).concat(" · effort ").concat(&effort_or_default(&model.effort));
            Ok(Switch { selection: model, notice })
        },
        Err(e) => Err(e),
    }
}

/// Using another effort.
pub fn switch_to_effort(config: &Config, current: &ModelSelection, effort: &str) -> (r: Result<
    Switch,
    String,
>)
    ensures
        outcome(r) == effort_switch(config@, current@, effort@),
{
    match config.resolve_model(Some(&current.name), Some(effort)) {
        Ok(model) => Ok(
            Switch { selection: model, notice: "effort: ".to_owned().concat(effort) },
        ),
        Err(e) => Err(e),
    }
}

fn step_of(r: Result<Switch, String>) -> (step: SlashStep)
    ensures
        step@ == switch_step(outcome(r)),
{
    match r {
        Ok(switch) => SlashStep::Switch(switch),
        Err(e) => SlashStep::Fail(e),
    }
}

/// What a line asks for.
pub fn handle_slash_command(line: &str, config: &Config, current: &ModelSelection) -> (r: SlashStep)
    ensures
        r@ == slash_step(config@, current@, line@),
{
    let words = split_whitespace(line);
    let ghost all = words_of(line@);
    assert(all.len() == words@.len());
    if words.len() == 0 {
        return SlashStep::NotCommand;
    }
    assert(all[0] == words@[0]@);
    let command = words[0].as_str();
    if !starts_with(command, "/") {
        return SlashStep::NotCommand;
    }
    let argument: Option<&String> = if words.len() > 1 {
        assert(all[1] == words@[1]@);
        Some(&words[1])
    } else {
        None
    };
    if same(command, "/model") {
        match argument {
            Some(name) => step_of(switch_to_model(config, name)),
            None => {
                let names = config.model_names();
                match label_models(config, &names) {
                    Ok(labels) => {
                        let default: usize = find_place(&names, &current.name);
                        SlashStep::ChooseModel { names, labels, default }
                    },
                    Err(e) => SlashStep::Fail(e),
                }
            },
        }
    } else if same(command, "/effort") {
        assert(current@.efforts.len() == current.efforts@.len());
        if current.efforts.len() == 0 {
            return SlashStep::Notice(
                "effort is not configured for the current model".to_owned(),
            );
        }
        match argument {
            Some(effort) => step_of(switch_to_effort(config, current, effort)),
            None => {
                let default: usize = match &current.effort {
                    Some(effort) => find_place(&current.efforts, effort),
                    None => 0,
                };
                SlashStep::ChooseEffort { efforts: copy_texts(&current.efforts), default }
            },
        }
    } else if same(command, "/thinking") {
        SlashStep::ToggleReasoning
    } else if same(command, "/status") {
        SlashStep::Report
    } else if same(command, "/clear") {
        SlashStep::Clear
    } else if same(command, "/compact") {
        SlashStep::Compact
    } else if same(command, "/resume") {
        match argument {
            Some(id) => SlashStep::FindSession(id.clone()),
            None => SlashStep::ChooseSession,
        }
    } else if same(command, "/help") {
        SlashStep::Notice(
            "commands: /model /effort /thinking /status /clear /compact /resume /help".to_owned(),
        )
    } else {
        SlashStep::Notice("unknown command: ".to_owned().concat(command))
    }
}

proof fn lemma_place(s: Seq<Seq<char>>, text: Seq<char>, from: int)
    requires
        0 <= from,
        s.len() > 0,
    ensures
        0 <= place_of(s, text, from) < s.len(),
    decreases s.len() - from,
{
    if from < s.len() && s[from] != text {
        lemma_place(s, text, from + 1);
    }
}

proof fn lemma_labels_len(config: ChoiceView, names: Seq<Seq<char>>)
    ensures
        model_labels(config, names) matches Ok(labels) ==> labels.len() == names.len(),
    decreases names.len(),
{
    if names.len() > 0 {
        lemma_labels_len(config, names.drop_last());
    }
}

/// A selector that a command opens has one label for each choice, and one of
/// them is highlighted.
pub proof fn law_selectors_highlight_a_choice(
    config: ChoiceView,
    current: SelectionView,
    line: Seq<char>,
)
    requires
        config.models.len() > 0,
    ensures
        match slash_step(config, current, line) {
            StepView::ChooseModel { names, labels, default } => labels.len() == names.len() && 0
                <= default < names.len(),
            StepView::ChooseEffort { efforts, default } => 0 <= default < efforts.len(),
            _ => true,
        },
{
    let names = keys_of(config.models);
    lemma_place(names, current.name, 0);
    lemma_labels_len(config, names);
    if let Some(effort) = current.effort {
        if current.efforts.len() > 0 {
            lemma_place(current.efforts, effort, 0);
        }
    }
}

// ---------------------------------------------------------------------------
// Sessions

/// A session that uses another model.
pub open spec fn switched_session(session: SessionView, model: SelectionView) -> SessionView {
    SessionView {
        provider_type: model.provider.kind.name(),
        model: model.provider.model,
        model_profile: Some(model.name),
        effort: model.effort,
        ..session
    }
}

/// Has a session use another model.
pub fn switch_model_selection(session: &mut Session, selection: &ModelSelection)
    ensures
        final(session)@ == switched_session(old(session)@, selection@),
{
    session.provider_type = selection.provider.kind.as_str().to_owned();
    session.model = selection.provider.model.clone();
    session.model_profile = Some(selection.name.clone());
    session.effort = copy_maybe(&selection.effort);
}

/// A session that uses a model is resolved to that model again.
pub proof fn law_switched_sessions_resolve(
    config: ChoiceView,
    session: SessionView,
    name: Seq<char>,
    effort: Option<Seq<char>>,
)
    requires
        selection(config, Some(name), effort) is Ok,
    ensures
        ({
            let model = selection(config, Some(name), effort)->Ok_0;
            let after = switched_session(session, model);
            &&& after.model_profile == Some(name)
            &&& session_selection(
                config,
                after.model_profile,
                after.provider_type,
                after.model,
                after.effort,
            ) == selection(config, Some(name), after.effort)
        }),
{
}

/// What is shown of a session to resume: its first message, and its model.
pub open spec fn session_label(session: SessionView, prompt: Option<Seq<char>>) -> Seq<char> {
    (match prompt {
        Some(prompt) => if lines_of(prompt).len() > 0 {
            lines_of(prompt)[0]
        } else {
            "(no messages)"@
        },
        None => "(no messages)"@,
    }) + "  "@ + (match session.model_profile {
        Some(profile) => profile,
        None => "unconfigured"@,
    }) + " · "@ + session.model
}

/// What is shown of a session to resume, given its first message.
pub fn label_session(session: &Session, prompt: &Option<String>) -> (r: String)
    ensures
        r@ == session_label(session@, maybe(*prompt)),
{
    let title = match prompt {
        Some(prompt) => {
            let lines = lines(prompt);
            assert(texts(lines@).len() == lines@.len());
            if lines.len() > 0 {
                assert(texts(lines@)[0] == lines@[0]@);
                lines[0].clone()
            } else {
                "(no messages)".to_owned()
            }
        },
        None => "(no messages)".to_owned(),
    };
    let profile = match &session.model_profile {
        Some(profile) => profile.clone(),
        None => "unconfigured".to_owned(),
    };
    title.concat("  ").concat(&profile).concat(" · ").concat(&session.model)
}

/// Where a session stands among others, by its id; the first place if it is not
/// there.
pub open spec fn session_place(sessions: Seq<SessionView>, id: Seq<char>, from: int) -> int
    decreases sessions.len() - from,
{
    if from >= sessions.len() {
        0
    } else if sessions[from].id == id {
        from
    } else {
        session_place(sessions, id, from + 1)
    }
}

/// Where a session stands among others.
pub fn find_session(sessions: &Vec<Session>, id: &str) -> (r: usize)
    ensures
        r == session_place(views(sessions@), id@, 0),
{
    let ghost all = views(sessions@);
    let mut i: usize = 0;
    while i < sessions.len()
        invariant
            i <= sessions.len(),
            all == views(sessions@),
            session_place(all, id@, 0) == session_place(all, id@, i as int),
        decreases sessions.len() - i,
    {
        assert(all[i as int] == sessions@[i as int]@);
        if same(&sessions[i].id, id) {
            return i;
        }
        i += 1;
    }
    0
}

/// The session that a search by id leads to, unless there is none or it belongs
/// to another directory.
pub open spec fn resumable(found: Option<SessionView>, id: Seq<char>, cwd: Seq<char>) -> Result<
    SessionView,
    Seq<char>,
> {
    match found {
        Some(session) => if session.cwd == cwd {
            Ok(session)
        } else {
            Err("cannot resume a session from a different cwd"@)
        },
        None => Err("session not found: "@ + id),
    }
}

/// The session that a search by id leads to.
pub fn resume_found(found: Option<Session>, id: &str, cwd: &str) -> (r: Result<Session, String>)
    ensures
        outcome(r) == resumable(maybe_view(found), id@, cwd@),
{
    match found {
        Some(session) => {
            if same(&session.cwd, cwd) {
                Ok(session)
            } else {
                Err("cannot resume a session from a different cwd".to_owned())
            }
        },
        None => Err("session not found: ".to_owned().concat(id)),
    }
}

// ---------------------------------------------------------------------------
// Reports

/// What is said of the session.
pub fn session_report(session: &Session, selection: &ModelSelection) -> (r: String)
    ensures
        r@ == "session "@ + session.id@ + " · model "@ + selection.name@ + " · "@
            + selection.provider.model@ + " · effort "@ + effort_text(maybe(selection.effort)),
{
    "session ".to_owned().concat(&session.id).concat(" · model ").concat(&selection.name).concat(
        " · ",
    ).concat(&selection.provider.model).concat(" · effort ").concat(
        &effort_or_default(&selection.effort),
    )
}

/// What is said of the context.
pub open spec fn context_text(status: ContextStatus) -> Seq<char> {
    "context "@ + decimal(status.used_tokens as nat) + (match status.context_window {
        Some(window) => " / "@ + decimal(window as nat),
        None => ""@,
    }) + " tokens"@ + (match status.compact_at {
        Some(at) => " · compacts at "@ + decimal(at as nat),
        None => ""@,
    })
}

/// What is said of the context.
pub fn context_report(status: &ContextStatus) -> (r: String)
    ensures
        r@ == context_text(*status),
{
    let window = match status.context_window {
        Some(window) => " / ".to_owned().concat(&decimal_text(window)),
        None => "".to_owned(),
    };
    let compaction = match status.compact_at {
        Some(at) => " · compacts at ".to_owned().concat(&decimal_text(at)),
        None => "".to_owned(),
    };
    "context ".to_owned().concat(&decimal_text(status.used_tokens)).concat(&window).concat(
        " tokens",
    ).concat(&compaction)
}

/// The provider that a setting is suggested for.
pub open spec fn suggested(model: Seq<char>, providers: Seq<Seq<char>>) -> Seq<char> {
    match namesake(model, providers, 0) {
        Some(i) => providers[i],
        None => providers[0],
    }
}

/// What is said of the cost of a session, whose requests come to an amount at
/// the prices that were found. Discounts that depend on when a request was sent
/// are not known, so the amount is told as a list price. A price that is not
/// certain is not guessed at: the candidates are told, and the line to add.
pub open spec fn cost_text(
    prices: ResolutionView,
    measured: bool,
    amount: Seq<char>,
    profile: Seq<char>,
) -> Seq<char> {
    if !measured {
        "cost unavailable: the provider reported no token usage"@
    } else {
        match prices {
            ResolutionView::Known { schedule, source } => "cost "@ + amount + " · list price · "@
                + source,
            ResolutionView::Ambiguous { model, providers } => if providers.len() == 0 {
                "cost unavailable: no price for "@ + model
            } else {
                "cost unavailable: "@ + model + " is priced by "@ + joined(providers, ", "@)
                    + "; add pricing = \""@ + suggested(model, providers) + "/"@ + model
                    + "\" under [models."@ + profile + "]"@
            },
            ResolutionView::Unknown(reason) => "cost unavailable: "@ + reason,
        }
    }
}

/// What prices are kept under: the key that is configured, or else the model.
pub fn price_key(selection: &ModelSelection) -> (r: String)
    ensures
        r@ == match selection@.pricing {
            Some(key) => key,
            None => selection@.provider.model,
        },
{
    match &selection.pricing {
        Some(key) => key.clone(),
        None => selection.provider.model.clone(),
    }
}

/// The prices of a model that are known without a lookup: those that are
/// configured, or else those that were looked up lately.
pub open spec fn prices_at_hand(
    selection: SelectionView,
    cached: Option<(ScheduleView, Seq<char>)>,
) -> Option<ResolutionView> {
    match (selection.cost, cached) {
        (Some(rates), _) => Some(
            ResolutionView::Known {
                schedule: ScheduleView { base: rates, tiers: Seq::empty() },
                source: "configured prices"@,
            },
        ),
        (None, Some((schedule, source))) => Some(ResolutionView::Known { schedule, source }),
        (None, None) => None,
    }
}

/// The prices of a model that are known without a lookup, given what was kept
/// of an earlier one.
pub fn known_prices(selection: &ModelSelection, cached: Option<(Schedule, String)>) -> (r: Option<
    Resolution,
>)
    ensures
        maybe_view(r) == prices_at_hand(
            selection@,
            match cached {
                Some((schedule, source)) => Some((schedule@, source@)),
                None => None,
            },
        ),
{
    match selection.cost {
        Some(rates) => Some(
            Resolution::Known {
                schedule: Schedule::flat(rates),
                source: "configured prices".to_owned(),
            },
        ),
        None => match cached {
            Some((schedule, source)) => Some(Resolution::Known { schedule, source }),
            None => None,
        },
    }
}

/// What is said of the cost of a session.
pub fn cost_report(prices: &Resolution, measured: bool, amount: &str, profile: &str) -> (r: String)
    ensures
        r@ == cost_text(prices@, measured, amount@, profile@),
{
    if !measured {
        return "cost unavailable: the provider reported no token usage".to_owned();
    }
    match prices {
        Resolution::Known { source, .. } => "cost ".to_owned().concat(amount).concat(
            " · list price · ",
        ).concat(source),
        Resolution::Ambiguous { model, providers } => {
            assert(texts(providers@).len() == providers@.len());
            match likely_provider(model, providers) {
                Some(provider) => "cost unavailable: ".to_owned().concat(model).concat(
                    " is priced by ",
                ).concat(&join(providers, ", ")).concat("; add pricing = \"").concat(
                    provider,
                ).concat("/").concat(model).concat("\" under [models.").concat(profile).concat("]"),
                None => "cost unavailable: no price for ".to_owned().concat(model),
            }
        },
        Resolution::Unknown(reason) => "cost unavailable: ".to_owned().concat(reason),
    }
}

/// What is said once the reasoning is shown or hidden.
pub fn reasoning_report(visible: bool) -> (r: String)
    ensures
        r@ == (if visible {
            "reasoning: expanded"@
        } else {
            "reasoning: collapsed"@
        }),
{
    if visible {
        "reasoning: expanded".to_owned()
    } else {
        "reasoning: collapsed".to_owned()
    }
}

/// What is said after a compaction: whether there was anything to compact, or
/// that it was cancelled.
pub fn compaction_report(outcome: Option<bool>) -> (r: String)
    ensures
        r@ == (match outcome {
            Some(true) => "conversation compacted"@,
            Some(false) => "no conversation to compact"@,
            None => "cancelled"@,
        }),
{
    match outcome {
        Some(true) => "conversation compacted".to_owned(),
        Some(false) => "no conversation to compact".to_owned(),
        None => "cancelled".to_owned(),
    }
}

/// The names of the commands differ.
proof fn lemma_command_names()
    ensures
        "/clear"@ != "/compact"@,
        "/clear"@ != "/effort"@,
        "/clear"@ != "/help"@,
        "/clear"@ != "/model"@,
        "/clear"@ != "/resume"@,
        "/clear"@ != "/status"@,
        "/clear"@ != "/thinking"@,
        "/compact"@ != "/effort"@,
        "/compact"@ != "/help"@,
        "/compact"@ != "/model"@,
        "/compact"@ != "/resume"@,
        "/compact"@ != "/status"@,
        "/compact"@ != "/thinking"@,
        "/effort"@ != "/help"@,
        "/effort"@ != "/model"@,
        "/effort"@ != "/resume"@,
        "/effort"@ != "/status"@,
        "/effort"@ != "/thinking"@,
        "/help"@ != "/model"@,
        "/help"@ != "/resume"@,
        "/help"@ != "/status"@,
        "/help"@ != "/thinking"@,
        "/model"@ != "/resume"@,
        "/model"@ != "/status"@,
        "/model"@ != "/thinking"@,
        "/resume"@ != "/status"@,
        "/resume"@ != "/thinking"@,
        "/status"@ != "/thinking"@,
{
    reveal_strlit("/clear");
    reveal_strlit("/compact");
    reveal_strlit("/effort");
    reveal_strlit("/help");
    reveal_strlit("/model");
    reveal_strlit("/resume");
    reveal_strlit("/status");
    reveal_strlit("/thinking");
    assert("/clear"@.len() != "/compact"@.len());
    assert("/clear"@.len() != "/effort"@.len());
    assert("/clear"@.len() != "/help"@.len());
    assert("/clear"@[1] != "/model"@[1]);
    assert("/clear"@.len() != "/resume"@.len());
    assert("/clear"@.len() != "/status"@.len());
    assert("/clear"@.len() != "/thinking"@.len());
    assert("/compact"@.len() != "/effort"@.len());
    assert("/compact"@.len() != "/help"@.len());
    assert("/compact"@.len() != "/model"@.len());
    assert("/compact"@.len() != "/resume"@.len());
    assert("/compact"@.len() != "/status"@.len());
    assert("/compact"@.len() != "/thinking"@.len());
    assert("/effort"@.len() != "/help"@.len());
    assert("/effort"@.len() != "/model"@.len());
    assert("/effort"@[1] != "/resume"@[1]);
    assert("/effort"@[1] != "/status"@[1]);
    assert("/effort"@.len() != "/thinking"@.len());
    assert("/help"@.len() != "/model"@.len());
    assert("/help"@.len() != "/resume"@.len());
    assert("/help"@.len() != "/status"@.len());
    assert("/help"@.len() != "/thinking"@.len());
    assert("/model"@.len() != "/resume"@.len());
    assert("/model"@.len() != "/status"@.len());
    assert("/model"@.len() != "/thinking"@.len());
    assert("/resume"@[1] != "/status"@[1]);
    assert("/resume"@.len() != "/thinking"@.len());
    assert("/status"@.len() != "/thinking"@.len());
}

/// A line is a command where its first word begins with a slash; another line is
/// none, nor is a blank one.
pub proof fn law_commands_begin_with_a_slash(
    config: ChoiceView,
    current: SelectionView,
    line: Seq<char>,
)
    ensures
        slash_step(config, current, line) is NotCommand <==> words_of(line).len() == 0 || !(
        words_of(line)[0].len() > 0 && words_of(line)[0][0] == '/'),
{
    reveal_strlit("/");
    let words = words_of(line);
    if words.len() > 0 {
        let word = words[0];
        if word.len() > 0 {
            assert(word.subrange(0, 1)[0] == word[0]);
            if word[0] == '/' {
                assert(word.subrange(0, 1) =~= "/"@);
            }
        }
        if begins(word, "/"@) {
            assert(word.subrange(0, 1) == "/"@);
            assert(word[0] == '/');
            lemma_no_step_is_none(config, current, line);
        }
    }
}

proof fn lemma_no_step_is_none(config: ChoiceView, current: SelectionView, line: Seq<char>)
    requires
        words_of(line).len() > 0,
        begins(words_of(line)[0], "/"@),
    ensures
        !(slash_step(config, current, line) is NotCommand),
{
}

/// A command with an argument, as it is typed.
pub open spec fn typed(command: Seq<char>, argument: Seq<char>) -> Seq<char> {
    command.push(' ') + argument
}

/// Whether a text is one word.
pub open spec fn is_word(word: Seq<char>) -> bool {
    word.len() > 0 && forall|k: int| 0 <= k < word.len() ==> !white_space(#[trigger] word[k])
}

proof fn lemma_typed(command: Seq<char>, argument: Seq<char>)
    requires
        is_word(command),
        is_word(argument),
    ensures
        words_of(typed(command, argument)) == seq![command, argument],
        words_of(command) == seq![command],
{
    let words = seq![command, argument];
    let space = seq![' '];
    assert forall|i: int, k: int| 0 <= i < words.len() && 0 <= k < words[i].len() implies
        !white_space(#[trigger] words[i][k]) by {
        if i == 0 {
            assert(words[i][k] == command[k]);
        } else {
            assert(words[i][k] == argument[k]);
        }
    }
    law_words_are_read_back(words);
    assert(words.drop_last() =~= seq![command]);
    assert(joined(seq![command], space) == command);
    assert(joined(words, space) =~= typed(command, argument));
    let one = seq![command];
    assert forall|i: int, k: int| 0 <= i < one.len() && 0 <= k < one[i].len() implies !white_space(
        #[trigger] one[i][k],
    ) by {
        assert(one[i][k] == command[k]);
    }
    law_words_are_read_back(one);
}

proof fn lemma_named(command: Seq<char>)
    requires
        command == "/model"@ || command == "/effort"@ || command == "/resume"@ || command
            == "/compact"@ || command == "/clear"@ || command == "/status"@ || command
            == "/thinking"@ || command == "/help"@,
    ensures
        is_word(command),
        begins(command, "/"@),
{
    reveal_strlit("/");
    reveal_strlit("/model");
    reveal_strlit("/effort");
    reveal_strlit("/resume");
    reveal_strlit("/compact");
    reveal_strlit("/clear");
    reveal_strlit("/status");
    reveal_strlit("/thinking");
    reveal_strlit("/help");
    assert(command.subrange(0, 1) =~= "/"@);
}

/// What is asked for by a command with an argument: the model or the effort of that
/// name, or the session of that id. It is refused for the reason that the selection
/// gives.
pub proof fn law_commands_take_their_argument(
    config: ChoiceView,
    current: SelectionView,
    argument: Seq<char>,
)
    requires
        is_word(argument),
    ensures
        slash_step(config, current, typed("/resume"@, argument)) == StepView::FindSession(argument),
        match selection(config, Some(argument), None) {
            Ok(model) => slash_step(config, current, typed("/model"@, argument)) matches
                StepView::Switch(switch) && switch.selection == model,
            Err(e) => slash_step(config, current, typed("/model"@, argument)) == StepView::Fail(e),
        },
        current.efforts.len() > 0 ==> match selection(
            config,
            Some(current.name),
            Some(argument),
        ) {
            Ok(model) => slash_step(config, current, typed("/effort"@, argument)) matches
                StepView::Switch(switch) && switch.selection == model,
            Err(e) => slash_step(config, current, typed("/effort"@, argument)) == StepView::Fail(e),
        },
        current.efforts.len() == 0 ==> slash_step(
            config,
            current,
            typed("/effort"@, argument),
        ) is Notice,
{
    lemma_command_names();
    lemma_named("/resume"@);
    lemma_named("/model"@);
    lemma_named("/effort"@);
    lemma_typed("/resume"@, argument);
    lemma_typed("/model"@, argument);
    lemma_typed("/effort"@, argument);
}

/// What is asked for by a command alone.
pub proof fn law_commands_are_known(config: ChoiceView, current: SelectionView, word: Seq<char>)
    requires
        is_word(word),
    ensures
        slash_step(config, current, "/resume"@) == StepView::ChooseSession,
        slash_step(config, current, "/compact"@) == StepView::Compact,
        slash_step(config, current, "/clear"@) == StepView::Clear,
        slash_step(config, current, "/status"@) == StepView::Report,
        slash_step(config, current, "/thinking"@) == StepView::ToggleReasoning,
        slash_step(config, current, "/help"@) is Notice,
        current.efforts.len() > 0 ==> (slash_step(config, current, "/effort"@) matches
            StepView::ChooseEffort { efforts, .. } && efforts == current.efforts),
        (word[0] == '/' && word != "/model"@ && word != "/effort"@ && word != "/resume"@ && word
            != "/compact"@ && word != "/clear"@ && word != "/status"@ && word != "/thinking"@
            && word != "/help"@) ==> slash_step(config, current, word) == StepView::Notice(
            "unknown command: "@ + word,
        ),
{
    lemma_command_names();
    lemma_named("/resume"@);
    lemma_named("/compact"@);
    lemma_named("/clear"@);
    lemma_named("/status"@);
    lemma_named("/thinking"@);
    lemma_named("/help"@);
    lemma_named("/effort"@);
    lemma_typed("/resume"@, word);
    lemma_typed("/compact"@, word);
    lemma_typed("/clear"@, word);
    lemma_typed("/status"@, word);
    lemma_typed("/thinking"@, word);
    lemma_typed("/help"@, word);
    lemma_typed("/effort"@, word);
    lemma_typed(word, word);
    reveal_strlit("/");
    if word[0] == '/' {
        assert(word.subrange(0, 1) =~= "/"@);
    }
}

proof fn lemma_place_of(s: Seq<Seq<char>>, text: Seq<char>, from: int)
    requires
        0 <= from <= s.len(),
        forall|i: int| 0 <= i < from ==> #[trigger] s[i] != text,
    ensures
        s.contains(text) ==> 0 <= place_of(s, text, from) < s.len() && s[place_of(s, text, from)]
            == text,
        !s.contains(text) ==> place_of(s, text, from) == 0,
    decreases s.len() - from,
{
    if from < s.len() {
        if s[from] != text {
            lemma_place_of(s, text, from + 1);
        } else {
            assert(s.contains(text));
        }
    } else if s.contains(text) {
        let k = choose|k: int| 0 <= k < s.len() && s[k] == text;
        assert(s[k] != text);
    }
}

/// The choice that is highlighted is the current one, and the first where the
/// current one is not among the choices; each model is shown with its name.
pub proof fn law_the_current_choice_is_highlighted(
    config: ChoiceView,
    current: SelectionView,
    line: Seq<char>,
)
    ensures
        slash_step(config, current, line) matches StepView::ChooseModel { names, labels, default }
            ==> {
            &&& names == keys_of(config.models)
            &&& names.contains(current.name) ==> 0 <= default < names.len()
                && names[default] == current.name
            &&& !names.contains(current.name) ==> default == 0
            &&& labels.len() == names.len()
            &&& forall|i: int|
                0 <= i < names.len() ==> begins(#[trigger] labels[i], names[i] + "  "@)
        },
        slash_step(config, current, line) matches StepView::ChooseEffort { efforts, default } ==> {
            &&& efforts == current.efforts
            &&& (current.effort matches Some(effort) && efforts.contains(effort)) ==> 0 <= default
                < efforts.len() && efforts[default] == current.effort->Some_0
            &&& !(current.effort matches Some(effort) && efforts.contains(effort)) ==> default == 0
        },
{
    let names = keys_of(config.models);
    lemma_place_of(names, current.name, 0);
    if current.effort is Some {
        lemma_place_of(current.efforts, current.effort->Some_0, 0);
    }
    lemma_labels_name_models(config, names);
}

proof fn lemma_labels_name_models(config: ChoiceView, names: Seq<Seq<char>>)
    ensures
        model_labels(config, names) matches Ok(labels) ==> labels.len() == names.len() && forall|
            i: int,
        |
            0 <= i < names.len() ==> begins(#[trigger] labels[i], names[i] + "  "@),
    decreases names.len(),
{
    if names.len() > 0 {
        let front = names.drop_last();
        lemma_labels_name_models(config, front);
        if let Ok(labels) = model_labels(config, names) {
            let before = model_labels(config, front)->Ok_0;
            assert forall|i: int| 0 <= i < names.len() implies begins(
                #[trigger] labels[i],
                names[i] + "  "@,
            ) by {
                if i < front.len() {
                    assert(labels[i] == before[i]);
                    assert(front[i] == names[i]);
                } else {
                    let p = names[i] + "  "@;
                    assert(labels[i].subrange(0, p.len() as int) =~= p);
                }
            }
        }
    }
}

/// The session that is highlighted is that of the id, and the first where there is
/// none.
pub proof fn law_the_current_session_is_highlighted(sessions: Seq<SessionView>, id: Seq<char>)
    ensures
        ({
            let n = session_place(sessions, id, 0);
            &&& (exists|i: int| 0 <= i < sessions.len() && (#[trigger] sessions[i]).id == id) ==> 0
                <= n < sessions.len() && sessions[n].id == id
            &&& (forall|i: int| 0 <= i < sessions.len() ==> (#[trigger] sessions[i]).id != id)
                ==> n == 0
        }),
{
    lemma_session_place(sessions, id, 0);
}

proof fn lemma_session_place(sessions: Seq<SessionView>, id: Seq<char>, from: int)
    requires
        0 <= from <= sessions.len(),
        forall|i: int| 0 <= i < from ==> (#[trigger] sessions[i]).id != id,
    ensures
        ({
            let n = session_place(sessions, id, from);
            &&& (exists|i: int| 0 <= i < sessions.len() && (#[trigger] sessions[i]).id == id) ==> 0
                <= n < sessions.len() && sessions[n].id == id
            &&& (forall|i: int| 0 <= i < sessions.len() ==> (#[trigger] sessions[i]).id != id)
                ==> n == 0
        }),
    decreases sessions.len() - from,
{
    if from < sessions.len() {
        if sessions[from].id != id {
            lemma_session_place(sessions, id, from + 1);
        }
    }
}

/// A session is offered by the first line of its first message, its profile and
/// its model.
pub proof fn law_sessions_are_labelled(session: SessionView, prompt: Seq<char>)
    ensures
        lines_of(prompt).len() > 0 && session.model_profile is Some ==> session_label(
            session,
            Some(prompt),
        ) == lines_of(prompt)[0] + "  "@ + session.model_profile->Some_0 + " · "@ + session.model,
        session.model_profile is Some ==> session_label(session, None) == "(no messages)"@ + "  "@
            + session.model_profile->Some_0 + " · "@ + session.model,
        session.model_profile is None ==> session_label(session, None) == "(no messages)"@ + "  "@
            + "unconfigured"@ + " · "@ + session.model,
        lines_of(prompt).len() == 0 ==> session_label(session, Some(prompt)) == session_label(
            session,
            None,
        ),
{
}

/// What is told of the context: how much is used, of how much, and when it is
/// compacted.
pub proof fn law_the_context_is_told(status: ContextStatus)
    ensures
        begins(context_text(status), "context "@ + decimal(status.used_tokens as nat)),
        status.context_window is None && status.compact_at is None ==> context_text(status)
            == "context "@ + decimal(status.used_tokens as nat) + " tokens"@,
        (status.context_window is Some && status.compact_at is Some) ==> context_text(status)
            == "context "@ + decimal(status.used_tokens as nat) + " / "@ + decimal(
            status.context_window->Some_0 as nat,
        ) + " tokens · compacts at "@ + decimal(status.compact_at->Some_0 as nat),
{
    reveal_strlit("");
    reveal_strlit(" tokens");
    reveal_strlit(" · compacts at ");
    reveal_strlit(" tokens · compacts at ");
    let text = context_text(status);
    let start = "context "@ + decimal(status.used_tokens as nat);
    assert(text.subrange(0, start.len() as int) =~= start);
    assert(" tokens"@ + " · compacts at "@ =~= " tokens · compacts at "@);
    if status.context_window is None && status.compact_at is None {
        assert(text =~= start + " tokens"@);
    }
    if status.context_window is Some && status.compact_at is Some {
        assert(text =~= start + " / "@ + decimal(status.context_window->Some_0 as nat)
            + " tokens · compacts at "@ + decimal(status.compact_at->Some_0 as nat));
    }
}

/// The provider that is suggested for the prices of a model is one of those that
/// have them: the first whose name the model's begins with, or the first of all.
pub proof fn law_a_provider_is_suggested(model: Seq<char>, providers: Seq<Seq<char>>, i: int)
    requires
        providers.len() > 0,
        0 <= i < providers.len(),
        forall|k: int| 0 <= k < i ==> !begins(model, #[trigger] providers[k]),
        begins(model, providers[i]) || (i == 0 && forall|k: int|
            0 <= k < providers.len() ==> !begins(model, #[trigger] providers[k])),
    ensures
        suggested(model, providers) == providers[i],
{
    law_namesakes_are_found(model, providers, 0);
}

/// Costs are told where tokens were counted and prices are known, with where the
/// prices are from; else it is told why not.
pub proof fn law_costs_are_told(
    schedule: ScheduleView,
    source: Seq<char>,
    model: Seq<char>,
    providers: Seq<Seq<char>>,
    amount: Seq<char>,
    profile: Seq<char>,
    prices: ResolutionView,
)
    ensures
        cost_text(ResolutionView::Known { schedule, source }, true, amount, profile) == "cost "@
            + amount + " · list price · "@ + source,
        cost_text(prices, false, amount, profile)
            == "cost unavailable: the provider reported no token usage"@,
        cost_text(ResolutionView::Unknown(source), true, amount, profile) == "cost unavailable: "@
            + source,
        providers.len() == 0 ==> cost_text(
            ResolutionView::Ambiguous { model, providers },
            true,
            amount,
            profile,
        ) == "cost unavailable: no price for "@ + model,
        providers.len() > 0 ==> ends(
            cost_text(ResolutionView::Ambiguous { model, providers }, true, amount, profile),
            "; add pricing = \""@ + suggested(model, providers) + "/"@ + model
                + "\" under [models."@ + profile + "]"@,
        ),
{
    if providers.len() > 0 {
        let text = cost_text(
            ResolutionView::Ambiguous { model, providers },
            true,
            amount,
            profile,
        );
        let end = "; add pricing = \""@ + suggested(model, providers) + "/"@ + model
            + "\" under [models."@ + profile + "]"@;
        assert(text.subrange(text.len() - end.len(), text.len() as int) =~= end);
    }
}

/// Prices that are configured go before those that were looked up, and hold for any
/// context.
pub proof fn law_configured_prices_come_first(
    model: SelectionView,
    cached: (ScheduleView, Seq<char>),
)
    ensures
        model.cost is Some ==> (prices_at_hand(model, Some(cached)) matches Some(
            ResolutionView::Known { schedule, .. },
        ) && schedule.base == model.cost->Some_0 && schedule.tiers.len() == 0),
        model.cost is Some ==> prices_at_hand(model, None) == prices_at_hand(model, Some(cached)),
        model.cost is None ==> prices_at_hand(model, Some(cached)) == Some(
            ResolutionView::Known { schedule: cached.0, source: cached.1 },
        ),
        model.cost is None ==> prices_at_hand(model, None) is None,
{
}

} // verus!
