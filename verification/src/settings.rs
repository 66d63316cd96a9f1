//! Settings files: what they hold and how they are laid over each other.
use vstd::prelude::*;
use vstd::string::*;

use crate::seqs::{lemma_picks_last, lemma_picks_nothing, picks};
use crate::table::{Table, entry_of, find_key, key_at, lemma_key_at, lemma_key_at_is, pairs};
use crate::text::{lemma_texts_push, maybe, texts, views};
use crate::tools::path::{join_path, path_in};

verus! {

/// A value of a settings file.
#[derive(Debug)]
pub enum Setting {
    Text(String),
    Integer(i64),
    /// A floating-point number as it is displayed.
    Float(String),
    Flag(bool),
    /// A date or time as it is displayed.
    Time(String),
    List(Vec<Setting>),
    Table(Vec<(String, Setting)>),
}

/// The model of a [`Setting`].
pub enum SettingView {
    Text(Seq<char>),
    Integer(i64),
    Float(Seq<char>),
    Flag(bool),
    Time(Seq<char>),
    List(Seq<SettingView>),
    Table(Seq<(Seq<char>, SettingView)>),
}

/// The model of a value.
pub open spec fn setting_view(s: Setting) -> SettingView
    decreases s,
{
    match s {
        Setting::Text(t) => SettingView::Text(t@),
        Setting::Integer(n) => SettingView::Integer(n),
        Setting::Float(t) => SettingView::Float(t@),
        Setting::Flag(b) => SettingView::Flag(b),
        Setting::Time(t) => SettingView::Time(t@),
        Setting::List(items) => SettingView::List(
            Seq::new(
                items@.len(),
                |i: int|
                    if 0 <= i < items@.len() {
                        setting_view(items@[i])
                    } else {
                        SettingView::Flag(false)
                    },
            ),
        ),
        Setting::Table(entries) => SettingView::Table(
            Seq::new(
                entries@.len(),
                |i: int|
                    if 0 <= i < entries@.len() {
                        (entries@[i].0@, setting_view(entries@[i].1))
                    } else {
                        (Seq::empty(), SettingView::Flag(false))
                    },
            ),
        ),
    }
}

impl View for Setting {
    type V = SettingView;

    open spec fn view(&self) -> SettingView {
        setting_view(*self)
    }
}

proof fn lemma_list_setting(items: Vec<Setting>)
    ensures
        Setting::List(items)@ == SettingView::List(views(items@)),
{
    match Setting::List(items)@ {
        SettingView::List(v) => {
            assert(v =~= views(items@));
        },
        _ => {},
    }
}

proof fn lemma_table_setting(entries: Vec<(String, Setting)>)
    ensures
        Setting::Table(entries)@ == SettingView::Table(pairs(entries@)),
{
    match Setting::Table(entries)@ {
        SettingView::Table(v) => {
            assert(v =~= pairs(entries@));
        },
        _ => {},
    }
}

// ---------------------------------------------------------------------------
// Reading a file

#[verifier::external_type_specification]
#[verifier::external_body]
pub struct ExTomlValue(toml::Value);

/// What a `toml::Value` holds: its variant with its contents, a floating-point
/// number and a date as they are displayed, the entries of a table in the order
/// in which its map is walked.
pub uninterp spec fn toml_held(v: toml::Value) -> SettingView;

/// What `toml` reads from a text, or what it displays of the fault where the
/// text is not TOML.
pub uninterp spec fn toml_read(text: Seq<char>) -> Result<SettingView, Seq<char>>;

/// One level of a value that is being read.
enum Level<'a> {
    Text(String),
    Integer(i64),
    Float(String),
    Flag(bool),
    Time(String),
    List(Vec<&'a toml::Value>),
    Table(Vec<(&'a String, &'a toml::Value)>),
}

impl<'a> Level<'a> {
    spec fn holds(self, v: SettingView) -> bool {
        match self {
            Level::Text(s) => v == SettingView::Text(s@),
            Level::Integer(n) => v == SettingView::Integer(n),
            Level::Float(s) => v == SettingView::Float(s@),
            Level::Flag(b) => v == SettingView::Flag(b),
            Level::Time(s) => v == SettingView::Time(s@),
            Level::List(items) => v == SettingView::List(
                Seq::new(items@.len(), |i: int| toml_held(*items@[i])),
            ),
            Level::Table(entries) => v == SettingView::Table(
                Seq::new(entries@.len(), |i: int| (entries@[i].0@, toml_held(*entries@[i].1))),
            ),
        }
    }
}

/// Tells the variants of `toml::Value` apart: each gives its contents, a
/// floating-point number and a date the text that they are displayed as.
#[verifier::external_body]
fn open_toml<'a>(v: &'a toml::Value) -> (r: Level<'a>)
    ensures
        r.holds(toml_held(*v)),
{
    match v {
        toml::Value::String(s) => Level::Text(s.clone()),
        toml::Value::Integer(n) => Level::Integer(*n),
        toml::Value::Float(x) => Level::Float(x.to_string()),
        toml::Value::Boolean(b) => Level::Flag(*b),
        toml::Value::Datetime(d) => Level::Time(d.to_string()),
        toml::Value::Array(items) => Level::List(items.iter().collect()),
        toml::Value::Table(entries) => Level::Table(entries.iter().collect()),
    }
}

/// `toml::from_str` gives the value that a document denotes, or an error exactly
/// where the text is not TOML; which value that is, or which text the error
/// displays, the name stands for.
#[verifier::external_body]
fn read_toml(text: &str) -> (r: Result<toml::Value, String>)
    ensures
        match r {
            Ok(v) => toml_read(text@) == Ok::<SettingView, Seq<char>>(toml_held(v)),
            Err(e) => toml_read(text@) == Err::<SettingView, Seq<char>>(e@),
        },
{
    toml::from_str::<toml::Value>(text).map_err(|e| e.to_string())
}

fn from_toml(v: &toml::Value) -> (r: Setting)
    ensures
        r@ == toml_held(*v),
    decreases toml_held(*v),
{
    let ghost whole = toml_held(*v);
    match open_toml(v) {
        Level::Text(s) => Setting::Text(s),
        Level::Integer(n) => Setting::Integer(n),
        Level::Float(s) => Setting::Float(s),
        Level::Flag(b) => Setting::Flag(b),
        Level::Time(s) => Setting::Time(s),
        Level::List(items) => {
            let ghost all = whole->List_0;
            let mut read: Vec<Setting> = Vec::new();
            let mut i: usize = 0;
            while i < items.len()
                invariant
                    i <= items.len(),
                    whole == toml_held(*v),
                    whole is List,
                    all == whole->List_0,
                    all == Seq::new(items@.len(), |i: int| toml_held(*items@[i])),
                    views(read@) == all.take(i as int),
                decreases items.len() - i,
            {
                assert(all[i as int] == toml_held(*items@[i as int]));
                assert(decreases_to!(whole => whole->List_0));
                assert(decreases_to!(all => all[i as int]));
                let ghost before = views(read@);
                let item = from_toml(items[i]);
                read.push(item);
                assert(views(read@) =~= before.push(item@));
                i += 1;
            }
            assert(all.take(all.len() as int) =~= all);
            proof {
                lemma_list_setting(read);
            }
            Setting::List(read)
        },
        Level::Table(entries) => {
            let ghost all = whole->Table_0;
            let mut read: Vec<(String, Setting)> = Vec::new();
            let mut i: usize = 0;
            while i < entries.len()
                invariant
                    i <= entries.len(),
                    whole == toml_held(*v),
                    whole is Table,
                    all == whole->Table_0,
                    all == Seq::new(
                        entries@.len(),
                        |i: int| (entries@[i].0@, toml_held(*entries@[i].1)),
                    ),
                    pairs(read@) == all.take(i as int),
                decreases entries.len() - i,
            {
                assert(all[i as int] == (
                    entries@[i as int].0@,
                    toml_held(*entries@[i as int].1),
                ));
                assert(decreases_to!(whole => whole->Table_0));
                assert(decreases_to!(all => all[i as int]));
                assert(decreases_to!(all[i as int] => all[i as int].1));
                let ghost before = pairs(read@);
                let item = from_toml(entries[i].1);
                let key = entries[i].0.clone();
                read.push((key, item));
                assert(pairs(read@) =~= before.push((key@, item@)));
                i += 1;
            }
            assert(all.take(all.len() as int) =~= all);
            proof {
                lemma_table_setting(read);
            }
            Setting::Table(read)
        },
    }
}

// ---------------------------------------------------------------------------
// Laying one file over another

impl SettingView {
    /// The value under a key of a table.
    pub open spec fn get(self, key: Seq<char>) -> Option<SettingView> {
        match self {
            SettingView::Table(entries) => entry_of(entries, key),
            _ => None,
        }
    }
}

/// One value laid over another: tables are merged key by key, anything else
/// takes the place of what was there.
pub open spec fn overlaid(base: SettingView, overlay: SettingView) -> SettingView
    decreases overlay, 0nat,
{
    match (base, overlay) {
        (SettingView::Table(b), SettingView::Table(o)) => SettingView::Table(
            overlaid_entries(b, o, o.len()),
        ),
        _ => overlay,
    }
}

/// The first `n` entries of a table laid over another table.
pub open spec fn overlaid_entries(
    base: Seq<(Seq<char>, SettingView)>,
    overlay: Seq<(Seq<char>, SettingView)>,
    n: nat,
) -> Seq<(Seq<char>, SettingView)>
    decreases overlay, n,
{
    if n == 0 || n > overlay.len() {
        base
    } else {
        let before = overlaid_entries(base, overlay, (n - 1) as nat);
        let key = overlay[n - 1].0;
        let value = overlay[n - 1].1;
        match key_at(before, key, 0) {
            Some(i) => before.update(i, (key, overlaid(before[i].1, value))),
            None => before.push((key, value)),
        }
    }
}

/// A key that the overlay does not name keeps its value.
pub proof fn law_overlay_keeps_other_keys(
    base: Seq<(Seq<char>, SettingView)>,
    overlay: Seq<(Seq<char>, SettingView)>,
    key: Seq<char>,
    n: nat,
)
    requires
        n <= overlay.len(),
        forall|k: int| 0 <= k < n ==> (#[trigger] overlay[k]).0 != key,
    ensures
        SettingView::Table(overlaid_entries(base, overlay, n)).get(key) == SettingView::Table(
            base,
        ).get(key),
        key_at(overlaid_entries(base, overlay, n), key, 0) == key_at(base, key, 0),
    decreases n,
{
    if n > 0 {
        law_overlay_keeps_other_keys(base, overlay, key, (n - 1) as nat);
        let before = overlaid_entries(base, overlay, (n - 1) as nat);
        let after = overlaid_entries(base, overlay, n);
        let named = overlay[n - 1].0;
        lemma_key_at(before, key, 0);
        lemma_key_at(before, named, 0);
        match key_at(before, key, 0) {
            Some(i) => {
                assert(after[i] == before[i]);
                assert forall|k: int| 0 <= k < i implies (#[trigger] after[k]).0 != key by {
                    assert(after[k].0 == before[k].0);
                }
                lemma_key_at_is(after, key, 0, Some(i));
            },
            None => {
                assert forall|k: int| 0 <= k < after.len() implies (#[trigger] after[k]).0
                    != key by {
                    if k < before.len() {
                        assert(after[k].0 == before[k].0);
                    }
                }
                lemma_key_at_is(after, key, 0, None);
            },
        }
    }
}

/// A key that the overlay names once gets the overlay's value, laid over the
/// value that was there.
pub proof fn law_overlay_wins(
    base: Seq<(Seq<char>, SettingView)>,
    overlay: Seq<(Seq<char>, SettingView)>,
    i: int,
    n: nat,
)
    requires
        0 <= i < n <= overlay.len(),
        forall|k: int| 0 <= k < n && k != i ==> (#[trigger] overlay[k]).0 != overlay[i].0,
    ensures
        SettingView::Table(overlaid_entries(base, overlay, n)).get(overlay[i].0) == Some(
            match SettingView::Table(base).get(overlay[i].0) {
                Some(current) => overlaid(current, overlay[i].1),
                None => overlay[i].1,
            },
        ),
    decreases n,
{
    let key = overlay[i].0;
    let before = overlaid_entries(base, overlay, (n - 1) as nat);
    let after = overlaid_entries(base, overlay, n);
    if n - 1 == i {
        law_overlay_keeps_other_keys(base, overlay, key, (n - 1) as nat);
        lemma_key_at(before, key, 0);
        match key_at(before, key, 0) {
            Some(at) => {
                assert forall|k: int| 0 <= k < at implies (#[trigger] after[k]).0 != key by {
                    assert(after[k] == before[k]);
                }
                lemma_key_at_is(after, key, 0, Some(at));
            },
            None => {
                assert forall|k: int| 0 <= k < before.len() implies (#[trigger] after[k]).0
                    != key by {
                    assert(after[k] == before[k]);
                }
                lemma_key_at_is(after, key, 0, Some(before.len() as int));
            },
        }
    } else {
        law_overlay_wins(base, overlay, i, (n - 1) as nat);
        let named = overlay[n - 1].0;
        lemma_key_at(before, key, 0);
        lemma_key_at(before, named, 0);
        let at = key_at(before, key, 0)->Some_0;
        assert(after[at] == before[at]);
        assert forall|k: int| 0 <= k < at implies (#[trigger] after[k]).0 != key by {
            assert(after[k].0 == before[k].0);
        }
        lemma_key_at_is(after, key, 0, Some(at));
    }
}

impl Setting {
    /// The value under a key of a table.
    pub fn get(&self, key: &str) -> (r: Option<&Setting>)
        ensures
            match r {
                Some(s) => self@.get(key@) == Some(s@),
                None => self@.get(key@) is None,
            },
    {
        match self {
            Setting::Table(entries) => {
                proof {
                    lemma_table_setting(*entries);
                }
                match find_key(entries, key) {
                    Some(i) => Some(&entries[i].1),
                    None => None,
                }
            },
            _ => None,
        }
    }
}

impl Clone for Setting {
    fn clone(&self) -> (r: Setting)
        ensures
            r@ == self@,
        decreases self,
    {
        match self {
            Setting::Text(s) => Setting::Text(s.clone()),
            Setting::Integer(n) => Setting::Integer(*n),
            Setting::Float(s) => Setting::Float(s.clone()),
            Setting::Flag(b) => Setting::Flag(*b),
            Setting::Time(s) => Setting::Time(s.clone()),
            Setting::List(items) => {
                let mut copies: Vec<Setting> = Vec::new();
                let mut i: usize = 0;
                while i < items.len()
                    invariant
                        i <= items.len(),
                        *self is List,
                        self->List_0 == *items,
                        views(copies@) == views(items@).take(i as int),
                    decreases items.len() - i,
                {
                    let ghost before = views(copies@);
                    assert(decreases_to!(*self => self->List_0));
                    assert(decreases_to!(items@ => items@[i as int]));
                    let copy = items[i].clone();
                    assert(copy@ == views(items@)[i as int]);
                    copies.push(copy);
                    assert(views(copies@) =~= before.push(copy@));
                    i += 1;
                }
                assert(views(items@).take(items@.len() as int) =~= views(items@));
                proof {
                    lemma_list_setting(*items);
                    lemma_list_setting(copies);
                }
                Setting::List(copies)
            },
            Setting::Table(entries) => {
                let mut copies: Vec<(String, Setting)> = Vec::new();
                let mut i: usize = 0;
                while i < entries.len()
                    invariant
                        i <= entries.len(),
                        *self is Table,
                        self->Table_0 == *entries,
                        pairs(copies@) == pairs(entries@).take(i as int),
                    decreases entries.len() - i,
                {
                    let ghost before = pairs(copies@);
                    assert(decreases_to!(*self => self->Table_0));
                    assert(decreases_to!(entries@ => entries@[i as int]));
                    let key = entries[i].0.clone();
                    let copy = entries[i].1.clone();
                    assert((key@, copy@) == pairs(entries@)[i as int]);
                    copies.push((key, copy));
                    assert(pairs(copies@) =~= before.push((key@, copy@)));
                    i += 1;
                }
                assert(pairs(entries@).take(entries@.len() as int) =~= pairs(entries@));
                proof {
                    lemma_table_setting(*entries);
                    lemma_table_setting(copies);
                }
                Setting::Table(copies)
            },
        }
    }
}

/// Lays one value over another.
pub fn merge_toml(base: &Setting, overlay: &Setting) -> (r: Setting)
    ensures
        r@ == overlaid(base@, overlay@),
    decreases overlay,
{
    match (base, overlay) {
        (Setting::Table(b), Setting::Table(o)) => {
            proof {
                lemma_table_setting(*b);
                lemma_table_setting(*o);
            }
            let ghost low = pairs(b@);
            let ghost high = pairs(o@);
            let mut merged: Vec<(String, Setting)> = Vec::new();
            let mut i: usize = 0;
            while i < b.len()
                invariant
                    i <= b.len(),
                    low == pairs(b@),
                    pairs(merged@) == low.take(i as int),
                decreases b.len() - i,
            {
                let ghost before = pairs(merged@);
                let key = b[i].0.clone();
                let copy = b[i].1.clone();
                merged.push((key, copy));
                assert(pairs(merged@) =~= before.push((key@, copy@)));
                i += 1;
            }
            assert(low.take(low.len() as int) =~= low);
            i = 0;
            while i < o.len()
                invariant
                    i <= o.len(),
                    *overlay is Table,
                    overlay->Table_0 == *o,
                    high == pairs(o@),
                    pairs(merged@) == overlaid_entries(low, high, i as nat),
                decreases o.len() - i,
            {
                assert(decreases_to!(*overlay => overlay->Table_0));
                assert(decreases_to!(o@ => o@[i as int]));
                assert(high[i as int] == (o@[i as int].0@, o@[i as int].1@));
                let ghost before = pairs(merged@);
                let key = o[i].0.clone();
                match find_key(&merged, &key) {
                    Some(at) => {
                        let value = merge_toml(&merged[at].1, &o[i].1);
                        assert(before[at as int].1 == merged@[at as int].1@);
                        let ghost entry = (key@, value@);
                        merged.set(at, (key, value));
                        assert(pairs(merged@) =~= before.update(at as int, entry));
                    },
                    None => {
                        let value = o[i].1.clone();
                        let ghost entry = (key@, value@);
                        merged.push((key, value));
                        assert(pairs(merged@) =~= before.push(entry));
                    },
                }
                i += 1;
            }
            proof {
                lemma_table_setting(merged);
            }
            Setting::Table(merged)
        },
        _ => overlay.clone(),
    }
}

// ---------------------------------------------------------------------------
// The files of a configuration

/// Why there is no configuration, and what lies behind that.
#[derive(Debug, PartialEq, Eq)]
pub struct ConfigFault {
    pub message: String,
    pub cause: Option<String>,
}

/// The model of a [`ConfigFault`].
pub struct FaultView {
    pub message: Seq<char>,
    pub cause: Option<Seq<char>>,
}

impl View for ConfigFault {
    type V = FaultView;

    open spec fn view(&self) -> FaultView {
        FaultView { message: self.message@, cause: maybe(self.cause) }
    }
}

/// Files laid over each other in order; the first that cannot be read ends it.
pub open spec fn layered(sources: Seq<(Seq<char>, Seq<char>)>) -> Result<SettingView, FaultView>
    decreases sources.len(),
{
    if sources.len() == 0 {
        Ok(SettingView::Table(Seq::empty()))
    } else {
        match layered(sources.drop_last()) {
            Err(e) => Err(e),
            Ok(base) => match toml_read(sources.last().1) {
                Err(fault) => Err(
                    FaultView {
                        message: "parse config "@ + sources.last().0,
                        cause: Some(fault),
                    },
                ),
                Ok(overlay) => Ok(overlaid(base, overlay)),
            },
        }
    }
}

/// The names of the first `n` entries whose value has a key.
pub open spec fn names_with(
    entries: Seq<(Seq<char>, SettingView)>,
    key: Seq<char>,
    n: nat,
) -> Seq<Seq<char>>
    decreases n,
{
    if n == 0 || n > entries.len() {
        Seq::empty()
    } else if entries[n - 1].1.get(key) is Some {
        names_with(entries, key, (n - 1) as nat).push(entries[n - 1].0)
    } else {
        names_with(entries, key, (n - 1) as nat)
    }
}

/// The providers that name an environment variable for their key.
pub open spec fn explicit_names(merged: SettingView) -> Seq<Seq<char>> {
    match merged.get("providers"@) {
        Some(SettingView::Table(entries)) => names_with(entries, "api_key_env"@, entries.len()),
        _ => Seq::empty(),
    }
}

/// The merged settings of a configuration.
pub struct Merged {
    pub settings: Setting,
    /// The providers that name an environment variable for their key.
    pub explicit_api_key_envs: Vec<String>,
}

/// The files that a configuration is read from, in the order in which they are
/// laid over each other.
pub fn config_paths(cwd: &str, home: &str) -> (r: (String, String))
    ensures
        r.0@ == path_in(home@, ".config/a/config.toml"@),
        r.1@ == path_in(cwd@, ".a/config.toml"@),
{
    (join_path(home, ".config/a/config.toml"), join_path(cwd, ".a/config.toml"))
}

/// Lays the files of a configuration over each other. Each is given by its path
/// and its text.
pub fn merge_sources(sources: &Vec<(String, String)>) -> (r: Result<Merged, ConfigFault>)
    ensures
        match r {
            Ok(m) => {
                &&& layered(pairs(sources@)) == Ok::<SettingView, FaultView>(m.settings@)
                &&& m.settings@.get("provider"@) is None
                &&& texts(m.explicit_api_key_envs@) == explicit_names(m.settings@)
            },
            Err(e) => match layered(pairs(sources@)) {
                Err(problem) => e@ == problem,
                Ok(merged) => merged.get("provider"@) is Some && e@ == (FaultView {
                    message:
                        "legacy [provider] configuration is no longer supported; define [providers.<name>], [models.<name>], and default_model"@,
                    cause: None,
                }),
            },
        },
{
    broadcast use lemma_texts_push;

    let ghost all = pairs(sources@);
    let none: Vec<(String, Setting)> = Vec::new();
    proof {
        lemma_table_setting(none);
        assert(pairs(none@) =~= Seq::empty());
        assert(all.take(0) =~= Seq::empty());
    }
    let mut merged = Setting::Table(none);
    let mut i: usize = 0;
    while i < sources.len()
        invariant
            i <= sources.len(),
            all == pairs(sources@),
            layered(all.take(i as int)) == Ok::<SettingView, FaultView>(merged@),
        decreases sources.len() - i,
    {
        assert(all.take(i + 1).drop_last() =~= all.take(i as int));
        assert(all.take(i + 1).last() == (sources@[i as int].0@, sources@[i as int].1@));
        match read_toml(&sources[i].1) {
            Err(fault) => {
                proof {
                    lemma_layered_error(all, i + 1);
                }
                return Err(
                    ConfigFault {
                        message: "parse config ".to_owned().concat(&sources[i].0),
                        cause: Some(fault),
                    },
                );
            },
            Ok(v) => {
                merged = merge_toml(&merged, &from_toml(&v));
            },
        }
        i += 1;
    }
    assert(all.take(all.len() as int) =~= all);
    if merged.get("provider").is_some() {
        return Err(
            ConfigFault {
                message:
                    "legacy [provider] configuration is no longer supported; define [providers.<name>], [models.<name>], and default_model".to_owned(),
                cause: None,
            },
        );
    }
    let mut names: Vec<String> = Vec::new();
    assert(texts(names@) =~= Seq::empty());
    match merged.get("providers") {
        Some(Setting::Table(entries)) => {
            proof {
                lemma_table_setting(*entries);
            }
            let ghost es = pairs(entries@);
            let mut k: usize = 0;
            while k < entries.len()
                invariant
                    k <= entries.len(),
                    es == pairs(entries@),
                    texts(names@) == names_with(es, "api_key_env"@, k as nat),
                decreases entries.len() - k,
            {
                assert(es[k as int] == (entries@[k as int].0@, entries@[k as int].1@));
                if entries[k].1.get("api_key_env").is_some() {
                    names.push(entries[k].0.clone());
                }
                k += 1;
            }
        },
        _ => {},
    }
    Ok(Merged { settings: merged, explicit_api_key_envs: names })
}

proof fn lemma_layered_error(sources: Seq<(Seq<char>, Seq<char>)>, i: int)
    requires
        0 <= i <= sources.len(),
        layered(sources.take(i)) is Err,
    ensures
        layered(sources) == layered(sources.take(i)),
    decreases sources.len(),
{
    if i == sources.len() {
        assert(sources.take(i) =~= sources);
    } else {
        assert(sources.drop_last().take(i) =~= sources.take(i));
        lemma_layered_error(sources.drop_last(), i);
    }
}

// ---------------------------------------------------------------------------
// How settings files come together

/// Settings are laid over others key by key: what the later ones do not name
/// stays, what they name is theirs, and where both are tables the same holds
/// inside.
pub proof fn law_settings_are_laid_over(
    base: Seq<(Seq<char>, SettingView)>,
    overlay: Seq<(Seq<char>, SettingView)>,
    below: SettingView,
    value: SettingView,
    key: Seq<char>,
    i: int,
)
    ensures
        ({
            let merged = overlaid(SettingView::Table(base), SettingView::Table(overlay));
            &&& (forall|k: int| 0 <= k < overlay.len() ==> (#[trigger] overlay[k]).0 != key)
                ==> merged.get(key) == SettingView::Table(base).get(key)
            &&& 0 <= i < overlay.len() && overlay[i].0 == key && (forall|k: int|
                0 <= k < overlay.len() && k != i ==> (#[trigger] overlay[k]).0 != key) ==> (
            merged.get(key) matches Some(now) && {
                &&& SettingView::Table(base).get(key) is None ==> now == overlay[i].1
                &&& !(overlay[i].1 is Table) ==> now == overlay[i].1
                &&& overlay[i].1 is Table && (SettingView::Table(base).get(key) matches Some(old)
                    && !(old is Table)) ==> now == overlay[i].1
                &&& overlay[i].1 is Table ==> (SettingView::Table(base).get(key) matches Some(old)
                    ==> (old is Table ==> now == overlaid(old, overlay[i].1)))
            })
        }),
        !(value is Table) || !(below is Table) ==> overlaid(below, value) == value,
{
    let merged = overlaid(SettingView::Table(base), SettingView::Table(overlay));
    assert(merged == SettingView::Table(overlaid_entries(base, overlay, overlay.len())));
    if forall|k: int| 0 <= k < overlay.len() ==> (#[trigger] overlay[k]).0 != key {
        law_overlay_keeps_other_keys(base, overlay, key, overlay.len());
    }
    if 0 <= i < overlay.len() && overlay[i].0 == key && (forall|k: int|
        0 <= k < overlay.len() && k != i ==> (#[trigger] overlay[k]).0 != key) {
        law_overlay_wins(base, overlay, i, overlay.len());
    }
}

/// The settings of files are those of each laid over those before it. A file that
/// cannot be read is named, with the reason, and then none of them count.
pub proof fn law_later_files_are_laid_over(
    sources: Seq<(Seq<char>, Seq<char>)>,
    path: Seq<char>,
    text: Seq<char>,
)
    ensures
        layered(Seq::<(Seq<char>, Seq<char>)>::empty()) matches Ok(SettingView::Table(none))
            && none.len() == 0,
        layered(sources) matches Err(e) ==> layered(sources.push((path, text))) == Err::<
            SettingView,
            FaultView,
        >(e),
        layered(sources) matches Ok(base) ==> match toml_read(text) {
            Ok(later) => layered(sources.push((path, text))) == Ok::<SettingView, FaultView>(
                overlaid(base, later),
            ),
            Err(fault) => layered(sources.push((path, text))) matches Err(e) && e.message
                == "parse config "@ + path && e.cause == Some(fault),
        },
{
    assert(sources.push((path, text)).drop_last() =~= sources);
}

/// The name of an entry whose table holds a key.
pub open spec fn name_with(key: Seq<char>) -> spec_fn((Seq<char>, SettingView)) -> Option<Seq<char>> {
    |entry: (Seq<char>, SettingView)|
        if entry.1.get(key) is Some {
            Some(entry.0)
        } else {
            None
        }
}

proof fn lemma_names_picked(entries: Seq<(Seq<char>, SettingView)>, key: Seq<char>, n: nat)
    requires
        n <= entries.len(),
    ensures
        picks(entries.take(n as int), names_with(entries, key, n), name_with(key)),
    decreases n,
{
    if n == 0 {
        lemma_picks_nothing(entries.take(0), name_with(key));
    } else {
        lemma_names_picked(entries, key, (n - 1) as nat);
        let front = entries.take(n as int);
        assert(front.drop_last() =~= entries.take(n - 1));
        lemma_picks_last(front, names_with(entries, key, (n - 1) as nat), name_with(key));
    }
}

/// The providers that name the variable of their key are those whose settings
/// hold it, in their order.
pub proof fn law_explicit_names_are_those_given(entries: Seq<(Seq<char>, SettingView)>, merged: SettingView)
    requires
        merged.get("providers"@) == Some(SettingView::Table(entries)),
    ensures
        picks(entries, explicit_names(merged), name_with("api_key_env"@)),
{
    lemma_names_picked(entries, "api_key_env"@, entries.len());
    assert(entries.take(entries.len() as int) =~= entries);
}

} // verus!
