//! What models cost.
use vstd::prelude::*;
use vstd::string::*;

use crate::config::{Rates, borrowed};
use crate::model::{Usage, capped, capped_sum, or_zero, unless_none};
use crate::seqs::{lemma_picks_last, lemma_picks_nothing, picks};
use crate::table::{Table, keys_of, lookup, ordered};
use crate::text::{
    begins, cut_first, increasing, law_cut_at_the_first, lemma_texts_push, maybe, maybe_view,
    occurs_at, precedes, same, split_once, starts_with, texts, views,
};

verus! {

/// Where prices are looked up.
pub const SOURCE_URL: &'static str = "https://models.dev/api.json";

/// How long prices that were looked up are used, in milliseconds.
pub const CACHE_TTL: u64 = 86_400_000;

/// The catalog endpoint: `A_PRICING_URL` from the environment, for mirrors,
/// proxies, and runs that must not reach a third-party service, or else the
/// usual one.
pub fn source_url(configured: &Option<String>) -> (r: String)
    ensures
        r@ == (match maybe(*configured) {
            Some(url) => url,
            None => SOURCE_URL@,
        }),
{
    match configured {
        Some(url) => url.clone(),
        None => SOURCE_URL.to_owned(),
    }
}

/// Rates that apply once a request is large enough.
#[derive(Debug)]
pub struct CostTier {
    /// What the size measures.
    pub kind: String,
    pub size: u64,
    pub rates: Rates,
}

/// The model of a [`CostTier`].
pub struct TierView {
    pub kind: Seq<char>,
    pub size: u64,
    pub rates: Rates,
}

impl View for CostTier {
    type V = TierView;

    open spec fn view(&self) -> TierView {
        TierView { kind: self.kind@, size: self.size, rates: self.rates }
    }
}

/// What a catalog says of the prices of a model.
#[derive(Debug)]
pub struct Cost {
    pub rates: Rates,
    /// Rates that replace the base ones once a request is large enough.
    pub tiers: Vec<CostTier>,
}

/// The model of a [`Cost`].
pub struct CostView {
    pub rates: Rates,
    pub tiers: Seq<TierView>,
}

impl View for Cost {
    type V = CostView;

    open spec fn view(&self) -> CostView {
        CostView { rates: self.rates, tiers: views(self.tiers@) }
    }
}

/// A model of a catalog, with its prices if it lists any.
#[derive(Debug)]
pub struct CatalogModel {
    pub cost: Option<Cost>,
}

impl View for CatalogModel {
    type V = Option<CostView>;

    open spec fn view(&self) -> Option<CostView> {
        maybe_view(self.cost)
    }
}

/// Base rates plus any context-size tiers, so a request can be priced by how
/// large it actually was.
#[derive(Debug, PartialEq)]
pub struct Schedule {
    pub base: Rates,
    /// Ascending by threshold; the highest threshold at or below the request's
    /// context size wins.
    pub tiers: Vec<(u64, Rates)>,
}

/// The model of a [`Schedule`].
pub struct ScheduleView {
    pub base: Rates,
    pub tiers: Seq<(u64, Rates)>,
}

impl View for Schedule {
    type V = ScheduleView;

    open spec fn view(&self) -> ScheduleView {
        ScheduleView { base: self.base, tiers: self.tiers@ }
    }
}

/// What is known about a model's prices. Ambiguity is reported rather than
/// resolved by guessing: mirrors of the same model id charge different rates, so
/// picking one would produce a plausible but wrong number.
#[derive(Debug, PartialEq)]
pub enum Resolution {
    Known { schedule: Schedule, source: String },
    Ambiguous { model: String, providers: Vec<String> },
    Unknown(String),
}

/// The model of a [`Resolution`].
pub enum ResolutionView {
    Known { schedule: ScheduleView, source: Seq<char> },
    Ambiguous { model: Seq<char>, providers: Seq<Seq<char>> },
    Unknown(Seq<char>),
}

impl View for Resolution {
    type V = ResolutionView;

    open spec fn view(&self) -> ResolutionView {
        match self {
            Resolution::Known { schedule, source } => ResolutionView::Known {
                schedule: schedule@,
                source: source@,
            },
            Resolution::Ambiguous { model, providers } => ResolutionView::Ambiguous {
                model: model@,
                providers: texts(providers@),
            },
            Resolution::Unknown(reason) => ResolutionView::Unknown(reason@),
        }
    }
}

// ---------------------------------------------------------------------------
// Schedules

/// Where a tier goes among tiers in the order of their sizes: after those of its
/// size or below.
pub open spec fn tier_place(tiers: Seq<(u64, Rates)>, size: u64, from: int) -> int
    decreases tiers.len() - from,
{
    if from >= tiers.len() {
        tiers.len() as int
    } else if tiers[from].0 <= size {
        tier_place(tiers, size, from + 1)
    } else {
        from
    }
}

/// The tiers of a cost that apply by the size of the context, in the order of
/// their sizes.
pub open spec fn context_tiers(tiers: Seq<TierView>) -> Seq<(u64, Rates)>
    decreases tiers.len(),
{
    if tiers.len() == 0 {
        Seq::empty()
    } else {
        let before = context_tiers(tiers.drop_last());
        let last = tiers.last();
        if last.kind == "context"@ && last.size > 0 {
            before.insert(tier_place(before, last.size, 0), (last.size, last.rates))
        } else {
            before
        }
    }
}

/// The schedule of a cost.
pub open spec fn schedule_of(cost: CostView) -> ScheduleView {
    ScheduleView { base: cost.rates, tiers: context_tiers(cost.tiers) }
}

/// The last of the first `n` tiers that a context reaches.
pub open spec fn reached(tiers: Seq<(u64, Rates)>, context: u64, n: int) -> Option<Rates>
    decreases n,
{
    if n <= 0 {
        None
    } else if context >= tiers[n - 1].0 {
        Some(tiers[n - 1].1)
    } else {
        reached(tiers, context, n - 1)
    }
}

/// The rates that apply to a context.
pub open spec fn rates_at(s: ScheduleView, context: u64) -> Rates {
    match reached(s.tiers, context, s.tiers.len() as int) {
        Some(rates) => rates,
        None => s.base,
    }
}

/// Whether tiers stand in the order of their sizes.
pub open spec fn ascending(tiers: Seq<(u64, Rates)>) -> bool {
    forall|i: int, j: int| 0 <= i < j < tiers.len() ==> (#[trigger] tiers[i]).0 <= (#[trigger] tiers[j]).0
}

proof fn lemma_tier_place(tiers: Seq<(u64, Rates)>, size: u64, from: int)
    requires
        0 <= from <= tiers.len(),
        ascending(tiers),
    ensures
        from <= tier_place(tiers, size, from) <= tiers.len(),
        forall|k: int| from <= k < tier_place(tiers, size, from) ==> (#[trigger] tiers[k]).0 <= size,
        forall|k: int|
            tier_place(tiers, size, from) <= k < tiers.len() ==> (#[trigger] tiers[k]).0 > size,
    decreases tiers.len() - from,
{
    if from < tiers.len() && tiers[from].0 <= size {
        lemma_tier_place(tiers, size, from + 1);
    }
}

/// The tiers of a schedule ascend by threshold.
pub proof fn law_tiers_ascend(tiers: Seq<TierView>)
    ensures
        ascending(context_tiers(tiers)),
    decreases tiers.len(),
{
    if tiers.len() > 0 {
        law_tiers_ascend(tiers.drop_last());
        let before = context_tiers(tiers.drop_last());
        let last = tiers.last();
        lemma_tier_place(before, last.size, 0);
        if last.kind == "context"@ && last.size > 0 {
            let at = tier_place(before, last.size, 0);
            let after = before.insert(at, (last.size, last.rates));
            assert forall|i: int, j: int| 0 <= i < j < after.len() implies (#[trigger] after[i]).0
                <= (#[trigger] after[j]).0 by {
                let a = if i < at {
                    i
                } else {
                    i - 1
                };
                let b = if j < at {
                    j
                } else {
                    j - 1
                };
                if i != at {
                    assert(after[i] == before[a]);
                }
                if j != at {
                    assert(after[j] == before[b]);
                }
            }
        }
    }
}

/// Of tiers that ascend, the rates are those of a threshold at or below the
/// context above which no other such threshold lies; the base rates apply only
/// below all thresholds.
pub proof fn law_highest_threshold_wins(s: ScheduleView, context: u64)
    requires
        ascending(s.tiers),
    ensures
        (forall|k: int| 0 <= k < s.tiers.len() ==> (#[trigger] s.tiers[k]).0 > context) ==> rates_at(
            s,
            context,
        ) == s.base,
        (exists|k: int| 0 <= k < s.tiers.len() && (#[trigger] s.tiers[k]).0 <= context) ==> exists|
            i: int,
        |
            {
                &&& 0 <= i < s.tiers.len()
                &&& (#[trigger] s.tiers[i]).0 <= context
                &&& rates_at(s, context) == s.tiers[i].1
                &&& forall|k: int|
                    0 <= k < s.tiers.len() && (#[trigger] s.tiers[k]).0 <= context ==> s.tiers[k].0
                        <= s.tiers[i].0
            },
{
    lemma_reached(s.tiers, context, s.tiers.len() as int);
}

proof fn lemma_reached(tiers: Seq<(u64, Rates)>, context: u64, n: int)
    requires
        ascending(tiers),
        0 <= n <= tiers.len(),
    ensures
        reached(tiers, context, n) is None ==> forall|k: int|
            0 <= k < n ==> (#[trigger] tiers[k]).0 > context,
        reached(tiers, context, n) matches Some(rates) ==> exists|i: int|
            {
                &&& 0 <= i < n
                &&& (#[trigger] tiers[i]).0 <= context
                &&& rates == tiers[i].1
                &&& forall|k: int|
                    0 <= k < n && (#[trigger] tiers[k]).0 <= context ==> tiers[k].0 <= tiers[i].0
            },
    decreases n,
{
    if n > 0 && context < tiers[n - 1].0 {
        lemma_reached(tiers, context, n - 1);
    }
}

impl Default for Schedule {
    fn default() -> (r: Schedule)
        ensures
            r.base == (Rates { input: 0, output: 0, cache_read: 0, cache_write: 0 }),
            r.tiers@.len() == 0,
    {
        Schedule { base: Rates::default(), tiers: Vec::new() }
    }
}

impl Schedule {
    pub fn flat(base: Rates) -> (r: Schedule)
        ensures
            r@ == (ScheduleView { base, tiers: Seq::empty() }),
    {
        Schedule { base, tiers: Vec::new() }
    }

    /// The schedule of a cost.
    pub fn from_cost(cost: &Cost) -> (r: Schedule)
        ensures
            r@ == schedule_of(cost@),
    {
        let ghost all = cost@.tiers;
        let mut tiers: Vec<(u64, Rates)> = Vec::new();
        assert(all.take(0) =~= Seq::empty());
        let mut i: usize = 0;
        while i < cost.tiers.len()
            invariant
                i <= cost.tiers.len(),
                all == cost@.tiers,
                tiers@ == context_tiers(all.take(i as int)),
            decreases cost.tiers.len() - i,
        {
            assert(all.take(i + 1).drop_last() =~= all.take(i as int));
            let tier = &cost.tiers[i];
            assert(all.take(i + 1).last() == tier@);
            if same(&tier.kind, "context") && tier.size > 0 {
                let ghost before = tiers@;
                let mut at: usize = 0;
                while at < tiers.len() && tiers[at].0 <= tier.size
                    invariant
                        at <= tiers.len(),
                        tiers@ == before,
                        tier_place(before, tier.size, 0) == tier_place(
                            before,
                            tier.size,
                            at as int,
                        ),
                    decreases tiers.len() - at,
                {
                    at += 1;
                }
                tiers.insert(at, (tier.size, tier.rates));
            }
            i += 1;
        }
        assert(all.take(all.len() as int) =~= all);
        Schedule { base: cost.rates, tiers }
    }

    /// The rates that apply to a request whose context was `context_tokens`.
    pub fn rates_for(&self, context_tokens: u64) -> (r: Rates)
        ensures
            r == rates_at(self@, context_tokens),
    {
        let mut n: usize = self.tiers.len();
        while n > 0
            invariant
                n <= self.tiers.len(),
                reached(self.tiers@, context_tokens, self.tiers@.len() as int) == reached(
                    self.tiers@,
                    context_tokens,
                    n as int,
                ),
            decreases n,
        {
            if context_tokens >= self.tiers[n - 1].0 {
                return self.tiers[n - 1].1;
            }
            n -= 1;
        }
        self.base
    }

    pub fn is_tiered(&self) -> (r: bool)
        ensures
            r == (self@.tiers.len() > 0),
    {
        self.tiers.len() > 0
    }
}

// ---------------------------------------------------------------------------
// Looking up prices

/// A text between quotes, as `Debug` shows it.
pub uninterp spec fn shown_quoted(s: Seq<char>) -> Seq<char>;

/// The `Debug` form of a text from `format`: the text between quotes, with
/// escapes where it needs them; a name stands for it.
#[verifier::external_body]
fn show_quoted(s: &str) -> (r: String)
    ensures
        r@ == shown_quoted(s@),
{
    format!("{s:?}")
}

/// The providers that list a model, with what they say of its prices.
pub open spec fn listings(
    catalog: Seq<(Seq<char>, Seq<(Seq<char>, Option<CostView>)>)>,
    model: Seq<char>,
) -> Seq<(Seq<char>, Option<CostView>)>
    decreases catalog.len(),
{
    if catalog.len() == 0 {
        Seq::empty()
    } else {
        match lookup(catalog.last().1, model) {
            Some(cost) => listings(catalog.drop_last(), model).push((catalog.last().0, cost)),
            None => listings(catalog.drop_last(), model),
        }
    }
}

/// The providers that list a model stand in the order of their names where the
/// catalog does.
pub proof fn law_listings_are_ordered(
    catalog: Seq<(Seq<char>, Seq<(Seq<char>, Option<CostView>)>)>,
    model: Seq<char>,
)
    requires
        ordered(catalog),
    ensures
        increasing(keys_of(listings(catalog, model))),
        forall|i: int|
            0 <= i < listings(catalog, model).len() ==> keys_of(catalog).contains(
                (#[trigger] listings(catalog, model)[i]).0,
            ),
    decreases catalog.len(),
{
    if catalog.len() > 0 {
        let first = catalog.drop_last();
        let all = keys_of(catalog);
        assert forall|i: int, j: int| 0 <= i < j < keys_of(first).len() implies precedes(
            #[trigger] keys_of(first)[i],
            #[trigger] keys_of(first)[j],
        ) by {
            assert(all[i] == keys_of(first)[i] && all[j] == keys_of(first)[j]);
        }
        law_listings_are_ordered(first, model);
        let before = listings(first, model);
        let found = listings(catalog, model);
        assert(all[catalog.len() - 1] == catalog.last().0);
        assert forall|i: int| 0 <= i < before.len() implies all.contains(
            (#[trigger] before[i]).0,
        ) && precedes(before[i].0, catalog.last().0) by {
            let k = choose|k: int| 0 <= k < keys_of(first).len() && keys_of(first)[k] == before[i].0;
            assert(all[k] == before[i].0);
        }
        assert forall|i: int, j: int| 0 <= i < j < keys_of(found).len() implies precedes(
            #[trigger] keys_of(found)[i],
            #[trigger] keys_of(found)[j],
        ) by {
            assert(found[i] == before[i]);
            if j < before.len() {
                assert(keys_of(before)[i] == before[i].0 && keys_of(before)[j] == before[j].0);
            }
        }
        assert forall|i: int| 0 <= i < found.len() implies all.contains((#[trigger] found[i]).0) by {
            if i < before.len() {
                assert(found[i] == before[i]);
            }
        }
    }
}

/// What is known of a model under a key, once its listing was looked up.
pub open spec fn keyed_resolution(
    key: Seq<char>,
    listing: Option<Option<CostView>>,
) -> ResolutionView {
    match listing {
        Some(Some(cost)) => ResolutionView::Known { schedule: schedule_of(cost), source: key },
        Some(None) => ResolutionView::Unknown(key + " lists no prices"@),
        None => ResolutionView::Unknown(key + " was not found on models.dev"@),
    }
}

/// What is known of a model's prices.
pub open spec fn resolution(
    catalog: Result<Seq<(Seq<char>, Seq<(Seq<char>, Option<CostView>)>)>, Seq<char>>,
    model: Seq<char>,
    key: Option<Seq<char>>,
) -> ResolutionView {
    match catalog {
        Err(e) => ResolutionView::Unknown("catalog is not valid JSON: "@ + e),
        Ok(providers) => match key {
            Some(key) => match cut_first(key, "/"@) {
                None => ResolutionView::Unknown(
                    "pricing key "@ + shown_quoted(key) + " must look like provider/model"@,
                ),
                Some((provider, named)) => keyed_resolution(
                    key,
                    match lookup(providers, provider) {
                        Some(models) => lookup(models, named),
                        None => None,
                    },
                ),
            },
            None => {
                let found = listings(providers, model);
                if found.len() == 0 {
                    ResolutionView::Unknown(model + " was not found on models.dev"@)
                } else if found.len() == 1 {
                    keyed_resolution(found[0].0 + "/"@ + model, Some(found[0].1))
                } else {
                    ResolutionView::Ambiguous { model, providers: keys_of(found) }
                }
            },
        },
    }
}

/// The model of a catalog that was read or not.
pub open spec fn catalog_view(c: Result<Table<Table<CatalogModel>>, String>) -> Result<
    Seq<(Seq<char>, Seq<(Seq<char>, Option<CostView>)>)>,
    Seq<char>,
> {
    match c {
        Ok(t) => Ok(t@),
        Err(e) => Err(e@),
    }
}

fn resolve_listing(key: String, cost: &Option<Cost>) -> (r: Resolution)
    ensures
        r@ == keyed_resolution(key@, Some(maybe_view(*cost))),
{
    match cost {
        Some(cost) => Resolution::Known { schedule: Schedule::from_cost(cost), source: key },
        None => Resolution::Unknown(key.concat(" lists no prices")),
    }
}

/// Looks up `model` in a models.dev catalog. `key` is an explicit
/// `provider/model` selector; without one the model id must be unique.
/// `catalog` holds the models of each provider, or why it could not be read.
pub fn resolve_from_catalog(
    catalog: &Result<Table<Table<CatalogModel>>, String>,
    model: &str,
    key: Option<&str>,
) -> (r: Resolution)
    ensures
        r@ == resolution(catalog_view(*catalog), model@, borrowed(key)),
        catalog_view(*catalog) matches Ok(listed) ==> ordered(listed) ==> (
        r matches Resolution::Ambiguous { providers, .. } ==> increasing(texts(providers@))),
{
    broadcast use lemma_texts_push;

    let providers = match catalog {
        Ok(providers) => providers,
        Err(e) => return Resolution::Unknown("catalog is not valid JSON: ".to_owned().concat(e)),
    };
    if let Some(key) = key {
        return match split_once(key, "/") {
            None => Resolution::Unknown(
                "pricing key ".to_owned().concat(&show_quoted(key)).concat(
                    " must look like provider/model",
                ),
            ),
            Some((provider, named)) => match providers.get(&provider) {
                Some(models) => match models.get(&named) {
                    Some(entry) => resolve_listing(key.to_owned(), &entry.cost),
                    None => Resolution::Unknown(
                        key.to_owned().concat(" was not found on models.dev"),
                    ),
                },
                None => Resolution::Unknown(key.to_owned().concat(" was not found on models.dev")),
            },
        };
    }
    let ghost all = providers@;
    let mut names: Vec<String> = Vec::new();
    let mut first: Option<usize> = None;
    assert(all.take(0) =~= Seq::empty());
    assert(texts(names@) =~= keys_of(listings(all.take(0), model@)));
    let mut i: usize = 0;
    while i < providers.entries.len()
        invariant
            i <= providers.entries.len(),
            all == providers@,
            texts(names@) == keys_of(listings(all.take(i as int), model@)),
            names@.len() == listings(all.take(i as int), model@).len(),
            match first {
                Some(at) => {
                    &&& at < i
                    &&& names@.len() > 0
                    &&& lookup(all[at as int].1, model@) is Some
                    &&& listings(all.take(i as int), model@)[0] == (
                        all[at as int].0,
                        lookup(all[at as int].1, model@)->Some_0,
                    )
                },
                None => names@.len() == 0,
            },
        decreases providers.entries.len() - i,
    {
        assert(all.take(i + 1).drop_last() =~= all.take(i as int));
        let entry = &providers.entries[i];
        assert(all.take(i + 1).last() == (entry.0@, entry.1@));
        assert(all[i as int] == (entry.0@, entry.1@));
        let ghost before = listings(all.take(i as int), model@);
        if entry.1.has(model) {
            let ghost others = texts(names@);
            let name = entry.0.clone();
            names.push(name);
            assert(texts(names@) =~= others.push(name@));
            if first.is_none() {
                first = Some(i);
            }
            let ghost after = listings(all.take(i + 1), model@);
            assert(after == before.push((entry.0@, lookup(entry.1@, model@)->Some_0)));
            assert(keys_of(after) =~= keys_of(before).push(entry.0@));
        }
        i += 1;
    }
    assert(all.take(all.len() as int) =~= all);
    match first {
        None => Resolution::Unknown(model.to_owned().concat(" was not found on models.dev")),
        Some(at) => {
            if names.len() == 1 {
                let entry = &providers.entries[at];
                assert(all[at as int] == (entry.0@, entry.1@));
                let source = entry.0.clone().concat("/").concat(model);
                match entry.1.get(model) {
                    Some(listing) => resolve_listing(source, &listing.cost),
                    None => Resolution::Unknown(source),
                }
            } else {
                proof {
                    if ordered(all) {
                        law_listings_are_ordered(all, model@);
                    }
                }
                Resolution::Ambiguous { model: model.to_owned(), providers: names }
            }
        },
    }
}

// ---------------------------------------------------------------------------
// Usage

/// Tokens the provider had to read for a request, which is what a context tier
/// is measured against.
pub fn request_context(usage: Usage) -> (r: u64)
    ensures
        r == capped(
            or_zero(usage.input_tokens) + or_zero(usage.cached_tokens) + or_zero(
                usage.cache_write_tokens,
            ),
        ),
{
    capped_sum(
        capped_sum(unless_none(usage.input_tokens), unless_none(usage.cached_tokens)),
        unless_none(usage.cache_write_tokens),
    )
}

/// Whether some tokens were counted for a request.
pub open spec fn measured(usage: Usage) -> bool {
    usage.counted() > 0
}

/// Whether the provider reported any tokens for this session. Without that,
/// there is nothing to price, and a dollar figure would claim a measurement that
/// was never made.
pub fn has_measured_usage(requests: &Vec<Usage>) -> (r: bool)
    ensures
        r == exists|i: int| 0 <= i < requests@.len() && measured(#[trigger] requests@[i]),
{
    let mut i: usize = 0;
    while i < requests.len()
        invariant
            i <= requests.len(),
            forall|k: int| 0 <= k < i ==> !measured(#[trigger] requests@[k]),
        decreases requests.len() - i,
    {
        let usage = requests[i];
        if unless_none(usage.input_tokens) > 0 || unless_none(usage.output_tokens) > 0
            || unless_none(usage.cached_tokens) > 0 || unless_none(usage.cache_write_tokens) > 0 {
            assert(measured(requests@[i as int]));
            return true;
        }
        i += 1;
    }
    false
}

/// The first provider from `from` on whose name the model's begins with.
pub open spec fn namesake(model: Seq<char>, providers: Seq<Seq<char>>, from: int) -> Option<int>
    decreases providers.len() - from,
{
    if from >= providers.len() {
        None
    } else if begins(model, providers[from]) {
        Some(from)
    } else {
        namesake(model, providers, from + 1)
    }
}

/// The candidate most likely to be the model's own vendor, used only to make the
/// suggested `pricing` line useful. A provider whose id prefixes the model id,
/// such as `deepseek` for `deepseek-v4-flash`, beats an alphabetical first pick.
pub fn likely_provider<'a>(model: &str, providers: &'a Vec<String>) -> (r: Option<&'a String>)
    ensures
        match r {
            Some(p) => providers@.len() > 0 && p@ == (match namesake(model@, texts(providers@), 0) {
                Some(i) => texts(providers@)[i],
                None => texts(providers@)[0],
            }),
            None => providers@.len() == 0,
        },
{
    let ghost all = texts(providers@);
    let mut i: usize = 0;
    while i < providers.len()
        invariant
            i <= providers.len(),
            all == texts(providers@),
            namesake(model@, all, 0) == namesake(model@, all, i as int),
        decreases providers.len() - i,
    {
        assert(all[i as int] == providers@[i as int]@);
        if starts_with(model, &providers[i]) {
            return Some(&providers[i]);
        }
        i += 1;
    }
    if providers.len() > 0 {
        assert(all[0] == providers@[0]@);
        Some(&providers[0])
    } else {
        None
    }
}

// ---------------------------------------------------------------------------
// Which prices apply

/// Whether a tier applies to a context: it is for contexts, and the context
/// reaches it.
pub open spec fn is_reached(tier: TierView, context: u64) -> bool {
    tier.kind == "context"@ && 0 < tier.size <= context
}

/// Whether a tier is the one to use: it is reached, and no other that is reached
/// is higher, nor as high and later.
pub open spec fn is_tier_to_use(tiers: Seq<TierView>, context: u64, i: int) -> bool {
    &&& 0 <= i < tiers.len()
    &&& is_reached(tiers[i], context)
    &&& forall|j: int|
        0 <= j < tiers.len() && is_reached(#[trigger] tiers[j], context) ==> tiers[j].size
            < tiers[i].size || (tiers[j].size == tiers[i].size && j <= i)
}

proof fn lemma_reached_place(tiers: Seq<(u64, Rates)>, context: u64, n: int)
    requires
        ascending(tiers),
        tier_place(tiers, context, 0) <= n <= tiers.len(),
    ensures
        reached(tiers, context, n) == (if tier_place(tiers, context, 0) > 0 {
            Some(tiers[tier_place(tiers, context, 0) - 1].1)
        } else {
            None
        }),
    decreases n,
{
    lemma_tier_place(tiers, context, 0);
    let p = tier_place(tiers, context, 0);
    if n > p {
        assert(tiers[n - 1].0 > context);
        lemma_reached_place(tiers, context, n - 1);
    } else if n > 0 {
        assert(tiers[n - 1].0 <= context);
    }
}

proof fn lemma_place_is(tiers: Seq<(u64, Rates)>, context: u64, p: int)
    requires
        ascending(tiers),
        0 <= p <= tiers.len(),
        p > 0 ==> tiers[p - 1].0 <= context,
        p < tiers.len() ==> tiers[p].0 > context,
    ensures
        tier_place(tiers, context, 0) == p,
{
    lemma_tier_place(tiers, context, 0);
    let q = tier_place(tiers, context, 0);
    if q < p {
        assert(tiers[q].0 > context);
        assert(tiers[q].0 <= tiers[p - 1].0);
    } else if p < q {
        assert(tiers[p].0 <= context);
    }
}

/// Every tier of a schedule comes from the list.
proof fn lemma_tiers_from(tiers: Seq<TierView>, k: int)
    requires
        0 <= k < context_tiers(tiers).len(),
    ensures
        exists|j: int|
            0 <= j < tiers.len() && (#[trigger] tiers[j]).kind == "context"@ && tiers[j].size > 0
                && context_tiers(tiers)[k] == (tiers[j].size, tiers[j].rates),
    decreases tiers.len(),
{
    let front = tiers.drop_last();
    let before = context_tiers(front);
    let last = tiers[tiers.len() - 1];
    law_tiers_ascend(front);
    lemma_tier_place(before, last.size, 0);
    if last.kind == "context"@ && last.size > 0 {
        let at = tier_place(before, last.size, 0);
        if k == at {
            assert(tiers[tiers.len() - 1].size > 0);
        } else {
            let m = if k < at {
                k
            } else {
                k - 1
            };
            lemma_tiers_from(front, m);
            let j = choose|j: int|
                0 <= j < front.len() && (#[trigger] front[j]).kind == "context"@ && front[j].size
                    > 0 && before[m] == (front[j].size, front[j].rates);
            assert(tiers[j] == front[j]);
        }
    } else {
        lemma_tiers_from(front, k);
        let j = choose|j: int|
            0 <= j < front.len() && (#[trigger] front[j]).kind == "context"@ && front[j].size > 0
                && before[k] == (front[j].size, front[j].rates);
        assert(tiers[j] == front[j]);
    }
}

proof fn lemma_tier_used(tiers: Seq<TierView>, context: u64, i: int)
    requires
        is_tier_to_use(tiers, context, i),
    ensures
        ({
            let all = context_tiers(tiers);
            let p = tier_place(all, context, 0);
            0 < p <= all.len() && all[p - 1] == (tiers[i].size, tiers[i].rates)
        }),
    decreases tiers.len(),
{
    let front = tiers.drop_last();
    let before = context_tiers(front);
    let all = context_tiers(tiers);
    let n = tiers.len() - 1;
    let last = tiers[n];
    law_tiers_ascend(front);
    law_tiers_ascend(tiers);
    lemma_tier_place(before, last.size, 0);
    lemma_tier_place(before, context, 0);
    let at = tier_place(before, last.size, 0);
    let p = tier_place(before, context, 0);
    if i == n {
        assert forall|k: int| 0 <= k < before.len() && (#[trigger] before[k]).0 <= context implies
            before[k].0 <= last.size by {
            lemma_tiers_from(front, k);
            let j = choose|j: int|
                0 <= j < front.len() && (#[trigger] front[j]).kind == "context"@ && front[j].size
                    > 0 && before[k] == (front[j].size, front[j].rates);
            assert(is_reached(tiers[j], context));
        }
        if at < p {
            assert(before[at].0 <= context);
        } else if p < at {
            assert(before[p].0 <= last.size);
        }
        assert(all[at] == (last.size, last.rates));
        if at + 1 < all.len() {
            assert(all[at + 1] == before[at]);
        }
        lemma_place_is(all, context, at + 1);
    } else {
        assert(front[i] == tiers[i]);
        assert forall|j: int| 0 <= j < front.len() && is_reached(#[trigger] front[j], context) implies
            front[j].size < front[i].size || (front[j].size == front[i].size && j <= i) by {
            assert(is_reached(tiers[j], context));
        }
        lemma_tier_used(front, context, i);
        if last.kind == "context"@ && last.size > 0 {
            if last.size <= context {
                assert(is_reached(tiers[n], context));
                assert(at <= p - 1) by {
                    if at > p - 1 {
                        assert(before[p - 1].0 <= last.size);
                    }
                }
                assert(all[p] == before[p - 1]);
                if p + 1 < all.len() {
                    assert(all[p + 1] == before[p]);
                }
                lemma_place_is(all, context, p + 1);
            } else {
                assert(p <= at) by {
                    if at < p {
                        assert(before[at].0 > last.size);
                        assert(before[at].0 <= context);
                    }
                }
                assert(all[p - 1] == before[p - 1]);
                if p < all.len() {
                    if p < at {
                        assert(all[p] == before[p]);
                    } else {
                        assert(all[p] == (last.size, last.rates));
                    }
                }
                lemma_place_is(all, context, p);
            }
        }
    }
}

/// The rates of a request are those of the highest tier that its context
/// reaches, of the last such tier where several are as high, and the base rates
/// where it reaches none.
pub proof fn law_prices_are_those_of_the_highest_tier(cost: CostView, context: u64, i: int)
    ensures
        is_tier_to_use(cost.tiers, context, i) ==> rates_at(schedule_of(cost), context)
            == cost.tiers[i].rates,
        (forall|j: int| 0 <= j < cost.tiers.len() ==> !is_reached(#[trigger] cost.tiers[j], context))
            ==> rates_at(schedule_of(cost), context) == cost.rates,
{
    let all = context_tiers(cost.tiers);
    law_tiers_ascend(cost.tiers);
    lemma_tier_place(all, context, 0);
    lemma_reached_place(all, context, all.len() as int);
    if is_tier_to_use(cost.tiers, context, i) {
        lemma_tier_used(cost.tiers, context, i);
    }
    if forall|j: int| 0 <= j < cost.tiers.len() ==> !is_reached(#[trigger] cost.tiers[j], context) {
        let p = tier_place(all, context, 0);
        if p > 0 {
            assert(all[p - 1].0 <= context);
            lemma_tiers_from(cost.tiers, p - 1);
            let j = choose|j: int|
                0 <= j < cost.tiers.len() && (#[trigger] cost.tiers[j]).kind == "context"@
                    && cost.tiers[j].size > 0 && all[p - 1] == (
                    cost.tiers[j].size,
                    cost.tiers[j].rates,
                );
            assert(is_reached(cost.tiers[j], context));
        }
    }
}

/// What a provider lists of a model, with its name.
pub open spec fn listing_of(model: Seq<char>) -> spec_fn(
    (Seq<char>, Seq<(Seq<char>, Option<CostView>)>),
) -> Option<(Seq<char>, Option<CostView>)> {
    |provider: (Seq<char>, Seq<(Seq<char>, Option<CostView>)>)|
        match lookup(provider.1, model) {
            Some(cost) => Some((provider.0, cost)),
            None => None,
        }
}

proof fn lemma_listings_picked(
    catalog: Seq<(Seq<char>, Seq<(Seq<char>, Option<CostView>)>)>,
    model: Seq<char>,
)
    ensures
        picks(catalog, listings(catalog, model), listing_of(model)),
    decreases catalog.len(),
{
    if catalog.len() == 0 {
        lemma_picks_nothing(catalog, listing_of(model));
    } else {
        lemma_listings_picked(catalog.drop_last(), model);
        lemma_picks_last(catalog, listings(catalog.drop_last(), model), listing_of(model));
    }
}

/// The prices of a model are those of the provider and the model that the key
/// names; without a key those of the one provider that lists it. Where several
/// do, all of them are named, in their order; where none does, or no prices are
/// listed, the prices are not known.
pub proof fn law_prices_are_found_in_the_catalog(
    catalog: Seq<(Seq<char>, Seq<(Seq<char>, Option<CostView>)>)>,
    model: Seq<char>,
    provider: Seq<char>,
    named: Seq<char>,
)
    ensures
        exists|found: Seq<(Seq<char>, Option<CostView>)>|
            {
                &&& #[trigger] picks(catalog, found, listing_of(model))
                &&& found.len() == 0 ==> resolution(Ok(catalog), model, None) is Unknown
                &&& found.len() == 1 ==> match found[0].1 {
                    Some(cost) => resolution(Ok(catalog), model, None) == (ResolutionView::Known {
                        schedule: schedule_of(cost),
                        source: found[0].0 + "/"@ + model,
                    }),
                    None => resolution(Ok(catalog), model, None) is Unknown,
                }
                &&& found.len() > 1 ==> (resolution(Ok(catalog), model, None) matches
                    ResolutionView::Ambiguous { model: asked, providers } && asked == model
                    && providers.len() == found.len() && forall|i: int|
                    0 <= i < found.len() ==> #[trigger] providers[i] == found[i].0)
            },
        !provider.contains('/') ==> ({
            let key = provider + "/"@ + named;
            match lookup(catalog, provider) {
                None => resolution(Ok(catalog), model, Some(key)) is Unknown,
                Some(models) => match lookup(models, named) {
                    Some(Some(cost)) => resolution(Ok(catalog), model, Some(key)) == (
                    ResolutionView::Known { schedule: schedule_of(cost), source: key }),
                    _ => resolution(Ok(catalog), model, Some(key)) is Unknown,
                },
            }
        }),
{
    lemma_listings_picked(catalog, model);
    assert(picks(catalog, listings(catalog, model), listing_of(model)));
    if !provider.contains('/') {
        reveal_strlit("/");
        assert("/"@ =~= seq!['/']);
        let key = provider + "/"@ + named;
        law_cut_at_the_first(key, "/"@);
        let n = provider.len() as int;
        assert(key.subrange(n, n + 1) =~= "/"@);
        assert(occurs_at(key, "/"@, n));
        let (a, b) = cut_first(key, "/"@)->Some_0;
        assert(a.len() == n) by {
            if a.len() < n {
                assert(key[a.len() as int] == '/') by {
                    assert(key == a + "/"@ + b);
                }
                assert(provider[a.len() as int] == '/');
            } else if n < a.len() {
                assert(!occurs_at(key, "/"@, n));
            }
        }
        assert(a =~= provider) by {
            assert(key == a + "/"@ + b);
            assert(key.take(n) =~= provider);
            assert((a + "/"@ + b).take(n) =~= a);
        }
        assert(b =~= named) by {
            assert(key == a + "/"@ + b);
            assert(key.skip(n + 1) =~= named);
            assert((a + "/"@ + b).skip(n + 1) =~= b);
        }
    }
}

/// The provider that a model is named after is the first whose name the model's
/// begins with.
pub proof fn law_namesakes_are_found(model: Seq<char>, providers: Seq<Seq<char>>, from: int)
    requires
        0 <= from <= providers.len(),
    ensures
        match namesake(model, providers, from) {
            Some(i) => from <= i < providers.len() && begins(model, providers[i]) && forall|k: int|
                from <= k < i ==> !begins(model, #[trigger] providers[k]),
            None => forall|k: int|
                from <= k < providers.len() ==> !begins(model, #[trigger] providers[k]),
        },
    decreases providers.len() - from,
{
    if from < providers.len() && !begins(model, providers[from]) {
        law_namesakes_are_found(model, providers, from + 1);
    }
}

} // verus!
