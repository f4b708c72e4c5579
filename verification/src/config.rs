//! Settings: what the environment says, and the overrides that a user keeps.

use vstd::prelude::*;

use crate::table::Table;
use crate::text::{
    a_field_ends_at_its_mark, a_joined_text_holds_its_parts, a_signed_number_reads_back,
    a_trimmed_text_has_no_blank_ends, blank, fields, finishes, is_among, is_blank_text, join,
    joined, lemma_decimal, lemma_occurs, lemma_occurs_within, occurs, opt_text, parse_i32,
    parsed_signed, same, signed, split, trim, trimmed, views,
};

verus! {

#[derive(Debug, Clone, PartialEq, Eq)]
pub struct Settings {
    pub provider: String,
    pub api_key: Option<String>,
    pub base_url: Option<String>,
    pub model: Option<String>,
    pub small_model: Option<String>,
    /// The directory that holds everything.
    pub home: String,
    pub llm_timeout_secs: i64,
    pub max_iterations: i32,
    pub max_tokens: i32,
    pub history_turns: i32,
    pub consolidate_every: i32,
    pub retrieval_top_k: i32,
    pub apple_calendar: bool,
    pub google_calendar: bool,
    pub experimental: bool,
    pub graph_workflows: bool,
    pub embeddings_enabled: bool,
    pub embed_model: Option<String>,
    pub exec_enabled: bool,
    pub exec_allow: Vec<String>,
    pub exec_timeout_secs: i64,
    /// How many rounds a goal gets before it is put to rest.
    pub goal_max_rounds: i32,
}

#[verifier::ext_equal]
pub struct SettingsV {
    pub provider: Seq<char>,
    pub api_key: Option<Seq<char>>,
    pub base_url: Option<Seq<char>>,
    pub model: Option<Seq<char>>,
    pub small_model: Option<Seq<char>>,
    pub home: Seq<char>,
    pub llm_timeout_secs: int,
    pub max_iterations: i32,
    pub max_tokens: i32,
    pub history_turns: i32,
    pub consolidate_every: i32,
    pub retrieval_top_k: i32,
    pub apple_calendar: bool,
    pub google_calendar: bool,
    pub experimental: bool,
    pub graph_workflows: bool,
    pub embeddings_enabled: bool,
    pub embed_model: Option<Seq<char>>,
    pub exec_enabled: bool,
    pub exec_allow: Seq<Seq<char>>,
    pub exec_timeout_secs: int,
    pub goal_max_rounds: i32,
}

impl Settings {
    /// What the settings say, as plain values.
    pub open spec fn values(&self) -> SettingsV {
        SettingsV {
            provider: self.provider@,
            api_key: opt_text(self.api_key),
            base_url: opt_text(self.base_url),
            model: opt_text(self.model),
            small_model: opt_text(self.small_model),
            home: self.home@,
            llm_timeout_secs: self.llm_timeout_secs as int,
            max_iterations: self.max_iterations,
            max_tokens: self.max_tokens,
            history_turns: self.history_turns,
            consolidate_every: self.consolidate_every,
            retrieval_top_k: self.retrieval_top_k,
            apple_calendar: self.apple_calendar,
            google_calendar: self.google_calendar,
            experimental: self.experimental,
            graph_workflows: self.graph_workflows,
            embeddings_enabled: self.embeddings_enabled,
            embed_model: opt_text(self.embed_model),
            exec_enabled: self.exec_enabled,
            exec_allow: views(self.exec_allow@),
            exec_timeout_secs: self.exec_timeout_secs as int,
            goal_max_rounds: self.goal_max_rounds,
        }
    }
}

pub open spec fn default_settings() -> SettingsV {
    SettingsV {
        provider: "anthropic"@,
        api_key: None,
        base_url: None,
        model: None,
        small_model: None,
        home: ".joy"@,
        llm_timeout_secs: 120,
        max_iterations: 10,
        max_tokens: 8192,
        history_turns: 12,
        consolidate_every: 6,
        retrieval_top_k: 4,
        apple_calendar: false,
        google_calendar: false,
        experimental: false,
        graph_workflows: false,
        embeddings_enabled: false,
        embed_model: None,
        exec_enabled: false,
        exec_allow: Seq::empty(),
        exec_timeout_secs: 30,
        goal_max_rounds: 5,
    }
}

impl Default for Settings {
    fn default() -> (r: Settings)
        ensures
            r.values() == default_settings(),
    {
        let r = Settings {
            provider: "anthropic".to_owned(),
            api_key: None,
            base_url: None,
            model: None,
            small_model: None,
            home: ".joy".to_owned(),
            llm_timeout_secs: 120,
            max_iterations: 10,
            max_tokens: 8192,
            history_turns: 12,
            consolidate_every: 6,
            retrieval_top_k: 4,
            apple_calendar: false,
            google_calendar: false,
            experimental: false,
            graph_workflows: false,
            embeddings_enabled: false,
            embed_model: None,
            exec_enabled: false,
            exec_allow: Vec::new(),
            exec_timeout_secs: 30,
            goal_max_rounds: 5,
        };
        assert(views(r.exec_allow@) =~= Seq::<Seq<char>>::empty());
        r
    }
}

// ---- the environment -------------------------------------------------------

/// The trimmed value of a variable; one that is blank counts as unset.
pub open spec fn env_value(vars: Map<Seq<char>, String>, name: Seq<char>) -> Option<Seq<char>> {
    if vars.contains_key(name) && trimmed(vars[name]@).len() > 0 {
        Some(trimmed(vars[name]@))
    } else {
        None
    }
}

pub open spec fn env_switch(vars: Map<Seq<char>, String>, name: Seq<char>) -> bool {
    let v = env_value(vars, name);
    v == Some("1"@) || v == Some("true"@) || v == Some("yes"@)
}

pub open spec fn env_number(vars: Map<Seq<char>, String>, name: Seq<char>, fallback: i32) -> i32 {
    match env_value(vars, name) {
        Some(t) => match parsed_signed(t, i32::MIN as int, i32::MAX as int) {
            Some(n) => n as i32,
            None => fallback,
        },
        None => fallback,
    }
}

/// The trimmed, non-empty parts among the first `k`.
pub open spec fn rules_among(parts: Seq<Seq<char>>, k: int) -> Seq<Seq<char>>
    decreases k,
{
    if k <= 0 {
        Seq::empty()
    } else {
        let before = rules_among(parts, k - 1);
        let rule = trimmed(parts[k - 1]);
        if rule.len() > 0 {
            before.push(rule)
        } else {
            before
        }
    }
}

/// The rules of a comma-separated list.
pub open spec fn rule_list(raw: Option<Seq<char>>) -> Seq<Seq<char>> {
    match raw {
        Some(t) => rules_among(fields(t, ','), fields(t, ',').len() as int),
        None => Seq::empty(),
    }
}

pub open spec fn env_settings(vars: Map<Seq<char>, String>) -> SettingsV {
    let d = default_settings();
    SettingsV {
        provider: match env_value(vars, "JOY_PROVIDER"@) {
            Some(v) => v,
            None => d.provider,
        },
        api_key: env_value(vars, "JOY_API_KEY"@),
        base_url: env_value(vars, "JOY_BASE_URL"@),
        model: env_value(vars, "JOY_MODEL"@),
        small_model: env_value(vars, "JOY_SMALL_MODEL"@),
        home: match env_value(vars, "JOY_HOME"@) {
            Some(v) => v,
            None => d.home,
        },
        llm_timeout_secs: env_number(vars, "JOY_LLM_TIMEOUT"@, 120) as int,
        max_iterations: env_number(vars, "JOY_MAX_ITERATIONS"@, d.max_iterations),
        max_tokens: env_number(vars, "JOY_MAX_TOKENS"@, d.max_tokens),
        history_turns: env_number(vars, "JOY_HISTORY_TURNS"@, d.history_turns),
        consolidate_every: env_number(vars, "JOY_CONSOLIDATE_EVERY"@, d.consolidate_every),
        retrieval_top_k: env_number(vars, "JOY_RETRIEVAL_TOP_K"@, d.retrieval_top_k),
        apple_calendar: env_switch(vars, "JOY_APPLE_CALENDAR"@),
        google_calendar: env_switch(vars, "JOY_GOOGLE_CALENDAR"@),
        experimental: env_switch(vars, "JOY_EXPERIMENTAL"@),
        graph_workflows: env_switch(vars, "JOY_GRAPH_WORKFLOWS"@),
        embeddings_enabled: env_switch(vars, "JOY_EMBEDDINGS"@),
        embed_model: env_value(vars, "JOY_EMBED_MODEL"@),
        exec_enabled: env_switch(vars, "JOY_EXEC"@),
        exec_allow: rule_list(env_value(vars, "JOY_EXEC_ALLOW"@)),
        exec_timeout_secs: env_number(vars, "JOY_EXEC_TIMEOUT"@, 30) as int,
        goal_max_rounds: env_number(vars, "JOY_GOAL_MAX_ROUNDS"@, 5),
    }
}

pub fn env(vars: &Table<String>, name: &str) -> (r: Option<String>)
    ensures
        opt_text(r) == env_value(vars@, name@),
{
    match vars.get(name) {
        Some(raw) => non_empty(raw.as_str()),
        None => None,
    }
}

pub fn env_bool(vars: &Table<String>, name: &str) -> (r: bool)
    ensures
        r == env_switch(vars@, name@),
{
    match env(vars, name) {
        Some(v) => same(v.as_str(), "1") || same(v.as_str(), "true") || same(v.as_str(), "yes"),
        None => false,
    }
}

pub fn env_int(vars: &Table<String>, name: &str, fallback: i32) -> (r: i32)
    ensures
        r == env_number(vars@, name@, fallback),
{
    match env(vars, name) {
        Some(v) => match parse_i32(v.as_str()) {
            Some(n) => n,
            None => fallback,
        },
        None => fallback,
    }
}

pub open spec fn kept_text(v: Seq<char>) -> Option<Seq<char>> {
    if trimmed(v).len() > 0 {
        Some(trimmed(v))
    } else {
        None
    }
}

/// The trimmed text, unless nothing is left of it.
pub fn non_empty(v: &str) -> (r: Option<String>)
    ensures
        opt_text(r) == kept_text(v@),
{
    let t = trim(v);
    if is_blank_text(v) {
        None
    } else {
        Some(t)
    }
}

fn split_rules(raw: &str) -> (r: Vec<String>)
    ensures
        views(r@) == rule_list(Some(raw@)),
{
    let parts = split(raw, ',');
    let ghost all = fields(raw@, ',');
    let mut r: Vec<String> = Vec::new();
    let mut i: usize = 0;
    assert(views(r@) =~= Seq::<Seq<char>>::empty());
    while i < parts.len()
        invariant
            i <= parts@.len(),
            views(parts@) == all,
            views(r@) == rules_among(all, i as int),
        decreases parts@.len() - i,
    {
        let ghost before = views(r@);
        assert(parts@[i as int]@ == all[i as int]);
        match non_empty(parts[i].as_str()) {
            Some(rule) => {
                r.push(rule);
                assert(views(r@) =~= before.push(rule@));
            },
            None => {},
        }
        i += 1;
    }
    assert(all.len() == parts@.len());
    r
}

impl Settings {
    /// The settings that the environment spells; `vars` holds its variables.
    pub fn from_env(vars: &Table<String>) -> (r: Settings)
        ensures
            r.values() == env_settings(vars@),
    {
        let exec_allow = match env(vars, "JOY_EXEC_ALLOW") {
            Some(raw) => split_rules(raw.as_str()),
            None => {
                let none: Vec<String> = Vec::new();
                assert(views(none@) =~= Seq::<Seq<char>>::empty());
                none
            },
        };
        Settings {
            provider: match env(vars, "JOY_PROVIDER") {
                Some(v) => v,
                None => "anthropic".to_owned(),
            },
            api_key: env(vars, "JOY_API_KEY"),
            base_url: env(vars, "JOY_BASE_URL"),
            model: env(vars, "JOY_MODEL"),
            small_model: env(vars, "JOY_SMALL_MODEL"),
            home: match env(vars, "JOY_HOME") {
                Some(v) => v,
                None => ".joy".to_owned(),
            },
            llm_timeout_secs: env_int(vars, "JOY_LLM_TIMEOUT", 120) as i64,
            max_iterations: env_int(vars, "JOY_MAX_ITERATIONS", 10),
            max_tokens: env_int(vars, "JOY_MAX_TOKENS", 8192),
            history_turns: env_int(vars, "JOY_HISTORY_TURNS", 12),
            consolidate_every: env_int(vars, "JOY_CONSOLIDATE_EVERY", 6),
            retrieval_top_k: env_int(vars, "JOY_RETRIEVAL_TOP_K", 4),
            apple_calendar: env_bool(vars, "JOY_APPLE_CALENDAR"),
            google_calendar: env_bool(vars, "JOY_GOOGLE_CALENDAR"),
            experimental: env_bool(vars, "JOY_EXPERIMENTAL"),
            graph_workflows: env_bool(vars, "JOY_GRAPH_WORKFLOWS"),
            embeddings_enabled: env_bool(vars, "JOY_EMBEDDINGS"),
            embed_model: env(vars, "JOY_EMBED_MODEL"),
            exec_enabled: env_bool(vars, "JOY_EXEC"),
            exec_allow,
            exec_timeout_secs: env_int(vars, "JOY_EXEC_TIMEOUT", 30) as i64,
            goal_max_rounds: env_int(vars, "JOY_GOAL_MAX_ROUNDS", 5),
        }
    }

    /// What a client gets to see: no key and no address among it.
    pub fn view(&self) -> (r: SettingsView)
        ensures
            r.shows(self.values()),
    {
        SettingsView {
            provider: self.provider.clone(),
            model: or_nothing(&self.model),
            small_model: or_nothing(&self.small_model),
            max_iterations: self.max_iterations,
            max_tokens: self.max_tokens,
            history_turns: self.history_turns,
            consolidate_every: self.consolidate_every,
            retrieval_top_k: self.retrieval_top_k,
            apple_calendar: self.apple_calendar,
            google_calendar: self.google_calendar,
            experimental: self.experimental,
            graph_workflows: self.graph_workflows,
            home: self.home.clone(),
        }
    }
}

fn or_nothing(t: &Option<String>) -> (r: String)
    ensures
        r@ == match opt_text(*t) {
            Some(s) => s,
            None => Seq::<char>::empty(),
        },
{
    match t {
        Some(s) => s.clone(),
        None => {
            let r = String::new();
            assert(r@ =~= Seq::<char>::empty());
            r
        },
    }
}

#[derive(Debug, Clone, PartialEq, Eq)]
pub struct SettingsView {
    pub provider: String,
    pub model: String,
    pub small_model: String,
    pub max_iterations: i32,
    pub max_tokens: i32,
    pub history_turns: i32,
    pub consolidate_every: i32,
    pub retrieval_top_k: i32,
    pub apple_calendar: bool,
    pub google_calendar: bool,
    pub experimental: bool,
    pub graph_workflows: bool,
    pub home: String,
}

impl SettingsView {
    pub open spec fn shows(self, s: SettingsV) -> bool {
        &&& self.provider@ == s.provider
        &&& self.model@ == match s.model {
            Some(m) => m,
            None => Seq::empty(),
        }
        &&& self.small_model@ == match s.small_model {
            Some(m) => m,
            None => Seq::empty(),
        }
        &&& self.max_iterations == s.max_iterations
        &&& self.max_tokens == s.max_tokens
        &&& self.history_turns == s.history_turns
        &&& self.consolidate_every == s.consolidate_every
        &&& self.retrieval_top_k == s.retrieval_top_k
        &&& self.apple_calendar == s.apple_calendar
        &&& self.google_calendar == s.google_calendar
        &&& self.experimental == s.experimental
        &&& self.graph_workflows == s.graph_workflows
        &&& self.home@ == s.home
    }
}

// ---- overrides -------------------------------------------------------------

/// The overrides that a user keeps: each field says something or nothing.
#[derive(Debug, Clone, PartialEq, Eq)]
pub struct SettingsPatch {
    pub provider: Option<String>,
    pub model: Option<String>,
    pub small_model: Option<String>,
    pub max_iterations: Option<i32>,
    pub max_tokens: Option<i32>,
    pub history_turns: Option<i32>,
    pub consolidate_every: Option<i32>,
    pub retrieval_top_k: Option<i32>,
    pub apple_calendar: Option<bool>,
    pub google_calendar: Option<bool>,
    pub experimental: Option<bool>,
    pub graph_workflows: Option<bool>,
    pub exec_allow: Option<Vec<String>>,
}

#[verifier::ext_equal]
pub struct PatchV {
    pub provider: Option<Seq<char>>,
    pub model: Option<Seq<char>>,
    pub small_model: Option<Seq<char>>,
    pub max_iterations: Option<i32>,
    pub max_tokens: Option<i32>,
    pub history_turns: Option<i32>,
    pub consolidate_every: Option<i32>,
    pub retrieval_top_k: Option<i32>,
    pub apple_calendar: Option<bool>,
    pub google_calendar: Option<bool>,
    pub experimental: Option<bool>,
    pub graph_workflows: Option<bool>,
    pub exec_allow: Option<Seq<Seq<char>>>,
}

impl View for SettingsPatch {
    type V = PatchV;

    open spec fn view(&self) -> PatchV {
        PatchV {
            provider: opt_text(self.provider),
            model: opt_text(self.model),
            small_model: opt_text(self.small_model),
            max_iterations: self.max_iterations,
            max_tokens: self.max_tokens,
            history_turns: self.history_turns,
            consolidate_every: self.consolidate_every,
            retrieval_top_k: self.retrieval_top_k,
            apple_calendar: self.apple_calendar,
            google_calendar: self.google_calendar,
            experimental: self.experimental,
            graph_workflows: self.graph_workflows,
            exec_allow: opt_list(self.exec_allow),
        }
    }
}

/// A patch that says nothing.
pub open spec fn no_patch() -> PatchV {
    PatchV {
        provider: None,
        model: None,
        small_model: None,
        max_iterations: None,
        max_tokens: None,
        history_turns: None,
        consolidate_every: None,
        retrieval_top_k: None,
        apple_calendar: None,
        google_calendar: None,
        experimental: None,
        graph_workflows: None,
        exec_allow: None,
    }
}

pub open spec fn newer_of<T>(newer: Option<T>, older: Option<T>) -> Option<T> {
    match newer {
        Some(v) => Some(v),
        None => older,
    }
}

/// What two patches say together; where both speak, the newer one counts.
pub open spec fn merged_patch(older: PatchV, newer: PatchV) -> PatchV {
    PatchV {
        provider: newer_of(newer.provider, older.provider),
        model: newer_of(newer.model, older.model),
        small_model: newer_of(newer.small_model, older.small_model),
        max_iterations: newer_of(newer.max_iterations, older.max_iterations),
        max_tokens: newer_of(newer.max_tokens, older.max_tokens),
        history_turns: newer_of(newer.history_turns, older.history_turns),
        consolidate_every: newer_of(newer.consolidate_every, older.consolidate_every),
        retrieval_top_k: newer_of(newer.retrieval_top_k, older.retrieval_top_k),
        apple_calendar: newer_of(newer.apple_calendar, older.apple_calendar),
        google_calendar: newer_of(newer.google_calendar, older.google_calendar),
        experimental: newer_of(newer.experimental, older.experimental),
        graph_workflows: newer_of(newer.graph_workflows, older.graph_workflows),
        exec_allow: newer_of(newer.exec_allow, older.exec_allow),
    }
}

pub open spec fn chosen<T>(v: Option<T>, other: T) -> T {
    match v {
        Some(x) => x,
        None => other,
    }
}

pub open spec fn override_of(v: Option<Seq<char>>, other: Option<Seq<char>>) -> Option<Seq<char>> {
    match v {
        Some(x) => kept_text(x),
        None => other,
    }
}

pub open spec fn provider_of(v: Option<Seq<char>>, other: Seq<char>) -> Seq<char> {
    match v {
        Some(x) => trimmed(x),
        None => other,
    }
}

/// Settings with a patch laid over them. A blank model override takes the
/// override away.
pub open spec fn patched(s: SettingsV, p: PatchV) -> SettingsV {
    SettingsV {
        provider: provider_of(p.provider, s.provider),
        model: override_of(p.model, s.model),
        small_model: override_of(p.small_model, s.small_model),
        max_iterations: chosen(p.max_iterations, s.max_iterations),
        max_tokens: chosen(p.max_tokens, s.max_tokens),
        history_turns: chosen(p.history_turns, s.history_turns),
        consolidate_every: chosen(p.consolidate_every, s.consolidate_every),
        retrieval_top_k: chosen(p.retrieval_top_k, s.retrieval_top_k),
        apple_calendar: chosen(p.apple_calendar, s.apple_calendar),
        google_calendar: chosen(p.google_calendar, s.google_calendar),
        experimental: chosen(p.experimental, s.experimental),
        graph_workflows: chosen(p.graph_workflows, s.graph_workflows),
        exec_allow: chosen(p.exec_allow, s.exec_allow),
        ..s
    }
}

/// A patch that says nothing changes nothing.
pub proof fn an_empty_patch_changes_nothing(s: SettingsV)
    ensures
        patched(s, no_patch()) == s,
{
}

/// Laying two patches over settings one after the other is laying their merger
/// over them.
pub proof fn patches_add_up(s: SettingsV, older: PatchV, newer: PatchV)
    ensures
        patched(patched(s, older), newer) == patched(s, merged_patch(older, newer)),
{
}

/// Merging is associative, and a patch that says nothing is neutral.
pub proof fn merging_is_associative(a: PatchV, b: PatchV, c: PatchV)
    ensures
        merged_patch(merged_patch(a, b), c) == merged_patch(a, merged_patch(b, c)),
        merged_patch(a, no_patch()) == a,
        merged_patch(no_patch(), a) == a,
{
}

impl Default for SettingsPatch {
    fn default() -> (r: SettingsPatch)
        ensures
            r@ == no_patch(),
    {
        SettingsPatch {
            provider: None,
            model: None,
            small_model: None,
            max_iterations: None,
            max_tokens: None,
            history_turns: None,
            consolidate_every: None,
            retrieval_top_k: None,
            apple_calendar: None,
            google_calendar: None,
            experimental: None,
            graph_workflows: None,
            exec_allow: None,
        }
    }
}

fn copy_text(t: &Option<String>) -> (r: Option<String>)
    ensures
        opt_text(r) == opt_text(*t),
{
    match t {
        Some(s) => Some(s.clone()),
        None => None,
    }
}

fn copy_list(v: &Vec<String>) -> (r: Vec<String>)
    ensures
        views(r@) == views(v@),
{
    let r = v.clone();
    assert(r@ =~= v@);
    r
}

fn newer_text(newer: &Option<String>, older: &Option<String>) -> (r: Option<String>)
    ensures
        opt_text(r) == newer_of(opt_text(*newer), opt_text(*older)),
{
    match newer {
        Some(v) => Some(v.clone()),
        None => copy_text(older),
    }
}

fn newer_number(newer: Option<i32>, older: Option<i32>) -> (r: Option<i32>)
    ensures
        r == newer_of(newer, older),
{
    match newer {
        Some(v) => Some(v),
        None => older,
    }
}

fn newer_switch(newer: Option<bool>, older: Option<bool>) -> (r: Option<bool>)
    ensures
        r == newer_of(newer, older),
{
    match newer {
        Some(v) => Some(v),
        None => older,
    }
}

/// The contents of an optional list.
pub open spec fn opt_list(v: Option<Vec<String>>) -> Option<Seq<Seq<char>>> {
    match v {
        Some(list) => Some(views(list@)),
        None => None,
    }
}

fn newer_list(newer: &Option<Vec<String>>, older: &Option<Vec<String>>) -> (r: Option<Vec<String>>)
    ensures
        opt_list(r) == newer_of(opt_list(*newer), opt_list(*older)),
{
    match newer {
        Some(v) => Some(copy_list(v)),
        None => match older {
            Some(v) => Some(copy_list(v)),
            None => None,
        },
    }
}

fn overridden(by: &Option<String>, what: &Option<String>) -> (r: Option<String>)
    ensures
        opt_text(r) == override_of(opt_text(*by), opt_text(*what)),
{
    match by {
        Some(v) => non_empty(v.as_str()),
        None => copy_text(what),
    }
}

fn provider_or(v: &Option<String>, other: &String) -> (r: String)
    ensures
        r@ == provider_of(opt_text(*v), other@),
{
    match v {
        Some(p) => trim(p.as_str()),
        None => other.clone(),
    }
}

fn list_or(v: &Option<Vec<String>>, other: &Vec<String>) -> (r: Vec<String>)
    ensures
        views(r@) == chosen(opt_list(*v), views(other@)),
{
    match v {
        Some(list) => copy_list(list),
        None => copy_list(other),
    }
}

fn number_or(v: Option<i32>, other: i32) -> (r: i32)
    ensures
        r == chosen(v, other),
{
    match v {
        Some(n) => n,
        None => other,
    }
}

fn switch_or(v: Option<bool>, other: bool) -> (r: bool)
    ensures
        r == chosen(v, other),
{
    match v {
        Some(b) => b,
        None => other,
    }
}

impl SettingsPatch {
    pub fn is_empty(&self) -> (r: bool)
        ensures
            r == (self@ == no_patch()),
    {
        self.provider.is_none() && self.model.is_none() && self.small_model.is_none()
            && self.max_iterations.is_none() && self.max_tokens.is_none()
            && self.history_turns.is_none() && self.consolidate_every.is_none()
            && self.retrieval_top_k.is_none() && self.apple_calendar.is_none()
            && self.google_calendar.is_none() && self.experimental.is_none()
            && self.graph_workflows.is_none() && self.exec_allow.is_none()
    }

    /// Takes over everything that a newer patch says.
    pub fn merge_newer(&mut self, newer: &SettingsPatch)
        ensures
            final(self)@ == merged_patch(old(self)@, newer@),
    {
        self.provider = newer_text(&newer.provider, &self.provider);
        self.model = newer_text(&newer.model, &self.model);
        self.small_model = newer_text(&newer.small_model, &self.small_model);
        self.max_iterations = newer_number(newer.max_iterations, self.max_iterations);
        self.max_tokens = newer_number(newer.max_tokens, self.max_tokens);
        self.history_turns = newer_number(newer.history_turns, self.history_turns);
        self.consolidate_every = newer_number(newer.consolidate_every, self.consolidate_every);
        self.retrieval_top_k = newer_number(newer.retrieval_top_k, self.retrieval_top_k);
        self.apple_calendar = newer_switch(newer.apple_calendar, self.apple_calendar);
        self.google_calendar = newer_switch(newer.google_calendar, self.google_calendar);
        self.experimental = newer_switch(newer.experimental, self.experimental);
        self.graph_workflows = newer_switch(newer.graph_workflows, self.graph_workflows);
        self.exec_allow = newer_list(&newer.exec_allow, &self.exec_allow);
    }
}

/// Lays a patch over settings.
pub fn apply_patch(patch: &SettingsPatch, settings: &mut Settings)
    ensures
        final(settings).values() == patched(old(settings).values(), patch@),
{
    settings.provider = provider_or(&patch.provider, &settings.provider);
    settings.model = overridden(&patch.model, &settings.model);
    settings.small_model = overridden(&patch.small_model, &settings.small_model);
    settings.max_iterations = number_or(patch.max_iterations, settings.max_iterations);
    settings.max_tokens = number_or(patch.max_tokens, settings.max_tokens);
    settings.history_turns = number_or(patch.history_turns, settings.history_turns);
    settings.consolidate_every = number_or(patch.consolidate_every, settings.consolidate_every);
    settings.retrieval_top_k = number_or(patch.retrieval_top_k, settings.retrieval_top_k);
    settings.apple_calendar = switch_or(patch.apple_calendar, settings.apple_calendar);
    settings.google_calendar = switch_or(patch.google_calendar, settings.google_calendar);
    settings.experimental = switch_or(patch.experimental, settings.experimental);
    settings.graph_workflows = switch_or(patch.graph_workflows, settings.graph_workflows);
    settings.exec_allow = list_or(&patch.exec_allow, &settings.exec_allow);
}

pub open spec fn unknown_provider(provider: Seq<char>, known: Seq<Seq<char>>) -> Seq<char> {
    "未知的 provider '"@ + provider + "'。可选："@ + joined(known, ", "@)
}

/// Whether a patch is refused, and why. `bounds` is the verdict on its numbers,
/// `known` the providers that exist.
pub open spec fn refusal(
    patch: PatchV,
    bounds: Result<(), Seq<char>>,
    known: Seq<Seq<char>>,
) -> Option<Seq<char>> {
    if bounds is Err {
        Some(bounds->Err_0)
    } else {
        match patch.provider {
            Some(p) => if known.contains(trimmed(p)) {
                None
            } else {
                Some(unknown_provider(trimmed(p), known))
            },
            None => None,
        }
    }
}

pub open spec fn bounds_view(bounds: Result<(), String>) -> Result<(), Seq<char>> {
    match bounds {
        Ok(()) => Ok(()),
        Err(why) => Err(why@),
    }
}

/// Judges a patch as a whole: half of one is never taken.
pub fn validate_patch(
    patch: &SettingsPatch,
    bounds: Result<(), String>,
    known: &Vec<String>,
) -> (r: Result<(), String>)
    ensures
        bounds_view(r) == match refusal(patch@, bounds_view(bounds), views(known@)) {
            Some(why) => Err(why),
            None => Ok(()),
        },
{
    match bounds {
        Err(why) => {
            return Err(why);
        },
        Ok(()) => {},
    }
    match &patch.provider {
        Some(p) => {
            let provider = trim(p.as_str());
            if is_among(known, provider.as_str()) {
                Ok(())
            } else {
                let mut why = "未知的 provider '".to_owned();
                why.append(provider.as_str());
                why.append("'。可选：");
                why.append(join(known, ", ").as_str());
                Err(why)
            }
        },
        None => Ok(()),
    }
}

/// What a write of the configuration leads to: the patch to keep from now on and
/// the settings that hold once it is kept, or the reason why nothing changes.
/// `saved` is the patch that was kept so far.
pub fn write_config(
    saved: SettingsPatch,
    patch: &SettingsPatch,
    settings: Settings,
    bounds: Result<(), String>,
    known: &Vec<String>,
) -> (r: Result<(SettingsPatch, Settings), String>)
    ensures
        match refusal(patch@, bounds_view(bounds), views(known@)) {
            Some(why) => r matches Err(e) && e@ == why,
            None => r matches Ok(both) && both.0@ == merged_patch(saved@, patch@)
                && both.1.values() == patched(settings.values(), merged_patch(saved@, patch@)),
        },
{
    match validate_patch(patch, bounds, known) {
        Err(why) => Err(why),
        Ok(()) => {
            let mut kept = saved;
            kept.merge_newer(patch);
            let mut next = settings;
            apply_patch(&kept, &mut next);
            Ok((kept, next))
        },
    }
}

/// What a write of the configuration comes to, once it was tried to keep its
/// patch. Where that failed nothing changes: a change that is not remembered
/// would be a lie. Otherwise the settings hold, with the model that they lead to.
pub fn commit_config<M>(
    settings: &mut Settings,
    resolved: &mut Option<M>,
    planned: Settings,
    written: Result<(), String>,
    found: Option<M>,
) -> (r: Result<(), String>)
    ensures
        match written {
            Ok(_) => r is Ok && *final(settings) == planned && *final(resolved) == found,
            Err(why) => {
                &&& r matches Err(e) && e@ == "写 settings.json 失败："@ + why@
                &&& *final(settings) == *old(settings)
                &&& *final(resolved) == *old(resolved)
            },
        },
{
    match written {
        Err(why) => {
            let mut text = "写 settings.json 失败：".to_owned();
            text.append(why.as_str());
            Err(text)
        },
        Ok(_) => {
            *settings = planned;
            *resolved = found;
            Ok(())
        },
    }
}

/// The patch that lets a command through from the next start on; none where the
/// list holds it already. The command itself is listed, not its kind.
pub fn remember_command(settings: &Settings, command: &str) -> (r: Option<SettingsPatch>)
    ensures
        if views(settings.exec_allow@).contains(command@) {
            r is None
        } else {
            r matches Some(p) && p@ == (PatchV {
                exec_allow: Some(views(settings.exec_allow@).push(command@)),
                ..no_patch()
            })
        },
{
    if is_among(&settings.exec_allow, command) {
        return None;
    }
    let mut list = copy_list(&settings.exec_allow);
    let ghost before = views(list@);
    list.push(command.to_owned());
    assert(views(list@) =~= before.push(command@));
    let mut patch = SettingsPatch::default();
    patch.exec_allow = Some(list);
    Some(patch)
}

/// What the settings say after a write is what they say after a restart that
/// finds the patch the write has kept.
pub proof fn a_write_outlives_a_restart(base: SettingsV, saved: PatchV, patch: PatchV)
    ensures
        patched(patched(base, saved), merged_patch(saved, patch)) == patched(
            base,
            merged_patch(saved, patch),
        ),
{
}

/// A path below a directory.
pub open spec fn below(dir: Seq<char>, leaf: Seq<char>) -> Seq<char> {
    if dir.len() == 0 {
        leaf
    } else if dir.last() == '/' {
        dir + leaf
    } else {
        dir + "/"@ + leaf
    }
}

/// Joins a directory and a relative path.
pub fn join_path(dir: &str, leaf: &str) -> (r: String)
    ensures
        r@ == below(dir@, leaf@),
{
    let n: usize = dir.unicode_len();
    if n == 0 {
        return leaf.to_owned();
    }
    let mut t = dir.to_owned();
    if dir.get_char(n - 1) != '/' {
        t.append("/");
    }
    t.append(leaf);
    t
}

/// Where the overrides are kept.
pub fn patch_path(home: &str) -> (r: String)
    ensures
        r@ == below(home@, "settings.json"@),
{
    join_path(home, "settings.json")
}

// ---- where a setting comes from --------------------------------------------

/// A variable counts with what stands between its blanks; one that is blank or
/// missing does not count.
pub proof fn a_blank_variable_does_not_count(vars: Map<Seq<char>, String>, name: Seq<char>)
    ensures
        env_value(vars, name) is Some <==> vars.contains_key(name) && exists|k: int|
            0 <= k < vars[name]@.len() && !blank(#[trigger] vars[name]@[k]),
        env_value(vars, name) matches Some(v) ==> v == trimmed(vars[name]@),
{
    if vars.contains_key(name) {
        a_trimmed_text_has_no_blank_ends(vars[name]@);
    }
}

/// A switch is on exactly where its variable says `1`, `true` or `yes`.
pub proof fn a_switch_needs_a_yes(vars: Map<Seq<char>, String>, name: Seq<char>, value: String)
    requires
        vars.contains_key(name),
        vars[name] == value,
    ensures
        trimmed(value@) == "1"@ || trimmed(value@) == "true"@ || trimmed(value@) == "yes"@
            ==> env_switch(vars, name),
        trimmed(value@) != "1"@ && trimmed(value@) != "true"@ && trimmed(value@) != "yes"@
            ==> !env_switch(vars, name),
        !env_switch(vars.remove(name), name),
{
    reveal_strlit("1");
    reveal_strlit("true");
    reveal_strlit("yes");
}

/// A number is the one that its variable spells; without one the fallback counts.
pub proof fn a_number_is_read_from_its_variable(
    vars: Map<Seq<char>, String>,
    name: Seq<char>,
    n: i32,
    fallback: i32,
)
    ensures
        vars.contains_key(name) && trimmed(vars[name]@) == signed(n as int) ==> env_number(
            vars,
            name,
            fallback,
        ) == n,
        !vars.contains_key(name) ==> env_number(vars, name, fallback) == fallback,
        vars.contains_key(name) && parsed_signed(
            trimmed(vars[name]@),
            i32::MIN as int,
            i32::MAX as int,
        ) is None ==> env_number(vars, name, fallback) == fallback,
{
    a_signed_number_reads_back(n as int, i32::MIN as int, i32::MAX as int);
    lemma_decimal(if n >= 0 {
        n as nat
    } else {
        (-n) as nat
    });
}

/// Each rule of a list counts, without the blanks around it and in its order; a
/// blank one does not.
pub proof fn every_rule_counts(first: Seq<char>, rest: Seq<char>)
    requires
        !first.contains(','),
    ensures
        rule_list(None).len() == 0,
        rule_list(Some(first)) == if trimmed(first).len() > 0 {
            seq![trimmed(first)]
        } else {
            Seq::empty()
        },
        rule_list(Some(first + seq![','] + rest)) == rule_list(Some(first)) + rule_list(Some(rest)),
{
    a_field_ends_at_its_mark(first, ',', rest);
    reveal_with_fuel(rules_among, 2);
    assert(rule_list(Some(first)) =~= if trimmed(first).len() > 0 {
        seq![trimmed(first)]
    } else {
        Seq::empty()
    });
    let more = fields(rest, ',');
    lemma_rules_join(seq![first], more, more.len() as int);
    assert((seq![first] + more).len() == 1 + more.len());
}

proof fn lemma_rules_join(a: Seq<Seq<char>>, b: Seq<Seq<char>>, k: int)
    requires
        0 <= k <= b.len(),
    ensures
        rules_among(a + b, a.len() + k) == rules_among(a, a.len() as int) + rules_among(b, k),
    decreases k,
{
    if k == 0 {
        lemma_rules_front(a, a + b, a.len() as int);
        assert(rules_among(a, a.len() as int) + rules_among(b, 0) =~= rules_among(
            a,
            a.len() as int,
        ));
    } else {
        lemma_rules_join(a, b, k - 1);
        assert((a + b)[a.len() + k - 1] == b[k - 1]);
        assert(rules_among(a + b, a.len() + k) =~= rules_among(a, a.len() as int) + rules_among(
            b,
            k,
        ));
    }
}

proof fn lemma_rules_front(a: Seq<Seq<char>>, b: Seq<Seq<char>>, k: int)
    requires
        0 <= k <= a.len() <= b.len(),
        forall|i: int| 0 <= i < a.len() ==> #[trigger] a[i] == b[i],
    ensures
        rules_among(a, k) == rules_among(b, k),
    decreases k,
{
    if k > 0 {
        lemma_rules_front(a, b, k - 1);
        assert(a[k - 1] == b[k - 1]);
    }
}

/// Each text setting comes from its own variable.
pub proof fn a_text_comes_from_its_variable(vars: Map<Seq<char>, String>, value: Seq<char>)
    ensures
        env_value(vars, "JOY_PROVIDER"@) == Some(value) ==> env_settings(vars).provider == value,
        env_value(vars, "JOY_HOME"@) == Some(value) ==> env_settings(vars).home == value,
        env_settings(vars).api_key == env_value(vars, "JOY_API_KEY"@),
        env_settings(vars).base_url == env_value(vars, "JOY_BASE_URL"@),
        env_settings(vars).model == env_value(vars, "JOY_MODEL"@),
        env_settings(vars).small_model == env_value(vars, "JOY_SMALL_MODEL"@),
        env_settings(vars).embed_model == env_value(vars, "JOY_EMBED_MODEL"@),
        env_settings(vars).exec_allow == rule_list(env_value(vars, "JOY_EXEC_ALLOW"@)),
{
}

/// Each number comes from its own variable, and has its own fallback.
pub proof fn a_number_comes_from_its_variable(vars: Map<Seq<char>, String>)
    ensures
        env_settings(vars).llm_timeout_secs == env_number(vars, "JOY_LLM_TIMEOUT"@, 120),
        env_settings(vars).max_iterations == env_number(vars, "JOY_MAX_ITERATIONS"@, 10),
        env_settings(vars).max_tokens == env_number(vars, "JOY_MAX_TOKENS"@, 8192),
        env_settings(vars).history_turns == env_number(vars, "JOY_HISTORY_TURNS"@, 12),
        env_settings(vars).consolidate_every == env_number(vars, "JOY_CONSOLIDATE_EVERY"@, 6),
        env_settings(vars).retrieval_top_k == env_number(vars, "JOY_RETRIEVAL_TOP_K"@, 4),
        env_settings(vars).exec_timeout_secs == env_number(vars, "JOY_EXEC_TIMEOUT"@, 30),
        env_settings(vars).goal_max_rounds == env_number(vars, "JOY_GOAL_MAX_ROUNDS"@, 5),
{
}

/// Each switch comes from its own variable.
pub proof fn a_switch_comes_from_its_variable(vars: Map<Seq<char>, String>)
    ensures
        env_settings(vars).apple_calendar == env_switch(vars, "JOY_APPLE_CALENDAR"@),
        env_settings(vars).google_calendar == env_switch(vars, "JOY_GOOGLE_CALENDAR"@),
        env_settings(vars).experimental == env_switch(vars, "JOY_EXPERIMENTAL"@),
        env_settings(vars).graph_workflows == env_switch(vars, "JOY_GRAPH_WORKFLOWS"@),
        env_settings(vars).embeddings_enabled == env_switch(vars, "JOY_EMBEDDINGS"@),
        env_settings(vars).exec_enabled == env_switch(vars, "JOY_EXEC"@),
{
}

/// Without any variable the settings are the defaults.
pub proof fn no_variable_leaves_the_defaults(vars: Map<Seq<char>, String>)
    requires
        forall|name: Seq<char>| !vars.contains_key(name),
    ensures
        env_settings(vars) == default_settings(),
{
    assert(env_settings(vars).exec_allow =~= default_settings().exec_allow);
}

/// Everything that runs or reaches out by itself is off unless it is asked for.
pub proof fn nothing_is_on_by_default()
    ensures
        ({
            let d = default_settings();
            &&& !d.exec_enabled && d.exec_allow.len() == 0
            &&& !d.apple_calendar && !d.google_calendar
            &&& !d.experimental && !d.graph_workflows && !d.embeddings_enabled
            &&& d.api_key is None
        }),
{
}

/// What a patch names takes its place, and what it does not name stays; nothing that
/// a patch cannot name is touched.
pub proof fn a_patch_sets_what_it_names(s: SettingsV, p: PatchV)
    ensures
        ({
            let now = patched(s, p);
            &&& p.max_iterations matches Some(n) ==> now.max_iterations == n
            &&& p.max_iterations is None ==> now.max_iterations == s.max_iterations
            &&& p.max_tokens matches Some(n) ==> now.max_tokens == n
            &&& p.max_tokens is None ==> now.max_tokens == s.max_tokens
            &&& p.history_turns matches Some(n) ==> now.history_turns == n
            &&& p.history_turns is None ==> now.history_turns == s.history_turns
            &&& p.consolidate_every matches Some(n) ==> now.consolidate_every == n
            &&& p.consolidate_every is None ==> now.consolidate_every == s.consolidate_every
            &&& p.retrieval_top_k matches Some(n) ==> now.retrieval_top_k == n
            &&& p.retrieval_top_k is None ==> now.retrieval_top_k == s.retrieval_top_k
            &&& p.apple_calendar matches Some(b) ==> now.apple_calendar == b
            &&& p.apple_calendar is None ==> now.apple_calendar == s.apple_calendar
            &&& p.google_calendar matches Some(b) ==> now.google_calendar == b
            &&& p.google_calendar is None ==> now.google_calendar == s.google_calendar
            &&& p.experimental matches Some(b) ==> now.experimental == b
            &&& p.experimental is None ==> now.experimental == s.experimental
            &&& p.graph_workflows matches Some(b) ==> now.graph_workflows == b
            &&& p.graph_workflows is None ==> now.graph_workflows == s.graph_workflows
            &&& p.exec_allow matches Some(list) ==> now.exec_allow == list
            &&& p.exec_allow is None ==> now.exec_allow == s.exec_allow
            &&& now.api_key == s.api_key && now.base_url == s.base_url && now.home == s.home
            &&& now.exec_enabled == s.exec_enabled && now.exec_timeout_secs == s.exec_timeout_secs
            &&& now.llm_timeout_secs == s.llm_timeout_secs
            &&& now.embeddings_enabled == s.embeddings_enabled && now.embed_model == s.embed_model
            &&& now.goal_max_rounds == s.goal_max_rounds
        }),
{
}

/// A patch names a provider without the blanks around it. A model is named likewise,
/// and a blank one takes the choice back.
pub proof fn a_patch_names_a_model(s: SettingsV, p: PatchV, name: Seq<char>)
    ensures
        p.provider == Some(name) ==> patched(s, p).provider == trimmed(name),
        p.provider is None ==> patched(s, p).provider == s.provider,
        p.model == Some(name) && trimmed(name).len() > 0 ==> patched(s, p).model == Some(
            trimmed(name),
        ),
        p.model == Some(name) && trimmed(name).len() == 0 ==> patched(s, p).model is None,
        p.model is None ==> patched(s, p).model == s.model,
        p.small_model == Some(name) && trimmed(name).len() > 0 ==> patched(s, p).small_model == Some(
            trimmed(name),
        ),
        p.small_model == Some(name) && trimmed(name).len() == 0 ==> patched(s, p).small_model
            is None,
        p.small_model is None ==> patched(s, p).small_model == s.small_model,
{
}

/// Of two patches the newer one counts where it names something.
pub proof fn the_newer_patch_counts<T>(newer: Option<T>, older: Option<T>, v: T)
    ensures
        newer_of(Some(v), older) == Some(v),
        newer_of(None, older) == older,
        chosen(Some(v), v) == v,
{
}

/// A patch is refused exactly where a bound is broken or its provider is unknown; an
/// unknown provider is told, with the ones that are known.
pub proof fn a_bad_patch_is_refused(
    patch: PatchV,
    why: Seq<char>,
    known: Seq<Seq<char>>,
    i: int,
)
    ensures
        refusal(patch, Err(why), known) == Some(why),
        refusal(patch, Ok(()), known) is None <==> patch.provider is None || known.contains(
            trimmed(patch.provider->0),
        ),
        refusal(patch, Ok(()), known) is Some ==> occurs(
            refusal(patch, Ok(()), known)->0,
            trimmed(patch.provider->0),
        ),
        refusal(patch, Ok(()), known) is Some && 0 <= i < known.len() ==> occurs(
            refusal(patch, Ok(()), known)->0,
            known[i],
        ),
{
    if refusal(patch, Ok(()), known) is Some {
        let p = trimmed(patch.provider->0);
        let a = "未知的 provider '"@;
        let b = "'。可选："@;
        let list = joined(known, ", "@);
        let all = unknown_provider(p, known);
        lemma_occurs(a, p, b + list);
        assert(all =~= a + p + (b + list));
        if 0 <= i < known.len() {
            lemma_occurs(a + p + b, list, Seq::empty());
            assert(all =~= (a + p + b) + list + Seq::<char>::empty());
            assert(known =~= known.take(i) + seq![known[i]] + known.skip(i + 1));
            a_joined_text_holds_its_parts(known.take(i), known[i], known.skip(i + 1), ", "@);
            lemma_occurs_within(all, list, known[i]);
        }
    }
}

/// What is shown of the settings is what they are, and no credential is among it.
pub proof fn the_settings_are_shown_as_they_are(view: SettingsView, s: SettingsV)
    requires
        view.shows(s),
    ensures
        view.provider@ == s.provider,
        view.home@ == s.home,
        s.model matches Some(m) ==> view.model@ == m,
        s.model is None ==> view.model@.len() == 0,
        s.small_model matches Some(m) ==> view.small_model@ == m,
        s.small_model is None ==> view.small_model@.len() == 0,
        view.max_iterations == s.max_iterations,
        view.max_tokens == s.max_tokens,
        view.history_turns == s.history_turns,
        view.consolidate_every == s.consolidate_every,
        view.retrieval_top_k == s.retrieval_top_k,
        view.apple_calendar == s.apple_calendar,
        view.google_calendar == s.google_calendar,
        view.experimental == s.experimental,
        view.graph_workflows == s.graph_workflows,
{
}

/// A path below a directory has one slash between the two, whether or not the
/// directory ends with one.
pub proof fn a_path_has_one_slash(dir: Seq<char>, leaf: Seq<char>)
    ensures
        below(Seq::empty(), leaf) == leaf,
        dir.len() > 0 && dir.last() != '/' ==> below(dir, leaf) == dir + seq!['/'] + leaf,
        below(dir + seq!['/'], leaf) == dir + seq!['/'] + leaf,
        dir.len() > 0 ==> dir.is_prefix_of(below(dir, leaf)),
        finishes(below(dir, leaf), leaf),
{
    reveal_strlit("/");
    assert("/"@ =~= seq!['/']);
    let path = below(dir, leaf);
    assert(path.subrange(path.len() - leaf.len(), path.len() as int) =~= leaf);
    assert((dir + seq!['/']).last() == '/');
    if dir.len() > 0 {
        assert(path.take(dir.len() as int) =~= dir);
    }
}

} // verus!
