//! The shared configuration document and its schema migration.
//!
//! One document per installation is the single source of truth for block
//! rules, session state and settings. Legacy boolean fields (`active`,
//! `strict_mode`, `block_youtube_fallback`) are accepted on read, translated
//! exactly once into the mode-based schema by [`migrate`], and never written
//! back out.

use vstd::prelude::*;

verus! {

/// A session mode. `Off` is both the initial state and "no session".
#[derive(Clone, Copy, PartialEq, Eq, Structural, Debug)]
pub enum Mode {
    Off,
    Precision,
    Strict,
}

/// Whether a mode value represents an active session.
pub open spec fn mode_is_active(mode: Mode) -> bool {
    mode == Mode::Precision || mode == Mode::Strict
}

/// Returns true if the mode value represents an active session.
pub fn is_mode_active(mode: Mode) -> (r: bool)
    ensures
        r == mode_is_active(mode),
{
    match mode {
        Mode::Off => false,
        Mode::Precision => true,
        Mode::Strict => true,
    }
}

/// Session lifecycle state embedded in the configuration document.
#[derive(Clone, Debug, PartialEq)]
pub struct SessionState {
    pub mode: Mode,
    /// Epoch milliseconds; present whenever `mode` is active.
    pub start_time: Option<u64>,
    /// Epoch milliseconds; present whenever `mode` is active.
    pub end_time: Option<u64>,
    /// When true, ending the session before `end_time` requires a credential.
    pub locked: bool,
    /// Opaque correlation id for externally scheduled sessions.
    pub scheduled_id: Option<String>,
    /// Legacy field — read for migration, never written back.
    pub active: Option<bool>,
}

/// Advisory rule set consumed by front ends; not enforced by the hosts file.
#[derive(Clone, Debug, PartialEq)]
pub struct YoutubeRules {
    pub blocked_channels: Vec<String>,
    pub allowed_channels: Vec<String>,
}

/// Global settings embedded in the configuration document.
#[derive(Clone, Copy, Debug, PartialEq)]
pub struct GlobalSettings {
    /// `Precision` or `Strict`; used when a session start gives no mode.
    pub default_mode: Mode,
    /// Only applies in precision mode.
    pub block_all_channels: bool,
    pub session_duration_minutes: u32,
    /// Legacy field — read for migration, never written back.
    pub strict_mode: Option<bool>,
    /// Legacy field — read for migration, never written back.
    pub block_youtube_fallback: Option<bool>,
}

/// The single persisted configuration document.
#[derive(Clone, Debug, PartialEq)]
pub struct Config {
    /// Opaque credential verifier; absence means no password gate.
    pub password_hash: Option<String>,
    /// Ordered, lowercase, deduplicated domain list.
    pub blocked_domains: Vec<String>,
    pub session: Option<SessionState>,
    pub youtube_rules: Option<YoutubeRules>,
    pub global_settings: Option<GlobalSettings>,
}

// =========================================================================
// Mathematical views of the document
// =========================================================================

/// Spec-level image of [`SessionState`].
#[verifier::ext_equal]
pub struct SessionView {
    pub mode: Mode,
    pub start_time: Option<u64>,
    pub end_time: Option<u64>,
    pub locked: bool,
    pub scheduled_id: Option<Seq<char>>,
    pub active: Option<bool>,
}

/// Spec-level image of [`YoutubeRules`].
#[verifier::ext_equal]
pub struct RulesView {
    pub blocked_channels: Seq<Seq<char>>,
    pub allowed_channels: Seq<Seq<char>>,
}

/// Spec-level image of [`GlobalSettings`].
#[verifier::ext_equal]
pub struct SettingsView {
    pub default_mode: Mode,
    pub block_all_channels: bool,
    pub session_duration_minutes: u32,
    pub strict_mode: Option<bool>,
    pub block_youtube_fallback: Option<bool>,
}

/// Spec-level image of [`Config`].
#[verifier::ext_equal]
pub struct ConfigView {
    pub password_hash: Option<Seq<char>>,
    pub blocked_domains: Seq<Seq<char>>,
    pub session: Option<SessionView>,
    pub youtube_rules: Option<RulesView>,
    pub global_settings: Option<SettingsView>,
}

impl View for SessionState {
    type V = SessionView;

    open spec fn view(&self) -> SessionView {
        SessionView {
            mode: self.mode,
            start_time: self.start_time,
            end_time: self.end_time,
            locked: self.locked,
            scheduled_id: match self.scheduled_id {
                Some(ref s) => Some(s@),
                None => None,
            },
            active: self.active,
        }
    }
}

impl View for YoutubeRules {
    type V = RulesView;

    open spec fn view(&self) -> RulesView {
        RulesView {
            blocked_channels: self.blocked_channels.deep_view(),
            allowed_channels: self.allowed_channels.deep_view(),
        }
    }
}

impl View for GlobalSettings {
    type V = SettingsView;

    open spec fn view(&self) -> SettingsView {
        SettingsView {
            default_mode: self.default_mode,
            block_all_channels: self.block_all_channels,
            session_duration_minutes: self.session_duration_minutes,
            strict_mode: self.strict_mode,
            block_youtube_fallback: self.block_youtube_fallback,
        }
    }
}

impl View for Config {
    type V = ConfigView;

    open spec fn view(&self) -> ConfigView {
        ConfigView {
            password_hash: match self.password_hash {
                Some(ref s) => Some(s@),
                None => None,
            },
            blocked_domains: self.blocked_domains.deep_view(),
            session: match self.session {
                Some(ref s) => Some(s@),
                None => None,
            },
            youtube_rules: match self.youtube_rules {
                Some(ref r) => Some(r@),
                None => None,
            },
            global_settings: match self.global_settings {
                Some(ref g) => Some(g@),
                None => None,
            },
        }
    }
}

// =========================================================================
// Well-formedness and defaults
// =========================================================================

/// A list in which no element appears twice.
pub open spec fn distinct_domains(ds: Seq<Seq<char>>) -> bool {
    forall|i: int, j: int| 0 <= i < j < ds.len() ==> ds[i] != ds[j]
}

/// The document invariant: an active session carries both timestamps with
/// `end_time > start_time`, a stored default mode is never `Off`, and the
/// stored domain list is an ordered set — no domain appears twice.
pub open spec fn config_wf(c: ConfigView) -> bool {
    &&& distinct_domains(c.blocked_domains)
    &&& match c.session {
        Some(s) => mode_is_active(s.mode) ==> {
            &&& s.start_time is Some
            &&& s.end_time is Some
            &&& s.end_time->0 > s.start_time->0
        },
        None => true,
    }
    &&& match c.global_settings {
        Some(g) => mode_is_active(g.default_mode),
        None => true,
    }
}

/// The default session mode of a fresh document section.
pub fn default_mode_off() -> (m: Mode)
    ensures
        m == Mode::Off,
{
    Mode::Off
}

/// The default value of a stored default mode.
pub fn default_mode_precision() -> (m: Mode)
    ensures
        m == Mode::Precision,
{
    Mode::Precision
}

/// The default session duration, in minutes.
pub fn default_session_duration() -> (d: u32)
    ensures
        d == 30,
{
    30
}

/// The view of `SessionState::default()`.
pub open spec fn session_default() -> SessionView {
    SessionView {
        mode: Mode::Off,
        start_time: None,
        end_time: None,
        locked: false,
        scheduled_id: None,
        active: None,
    }
}

impl Default for SessionState {
    fn default() -> (s: Self)
        ensures
            s@ == session_default(),
    {
        SessionState {
            mode: Mode::Off,
            start_time: None,
            end_time: None,
            locked: false,
            scheduled_id: None,
            active: None,
        }
    }
}

/// The view of `GlobalSettings::default()`.
pub open spec fn settings_default() -> SettingsView {
    SettingsView {
        default_mode: Mode::Precision,
        block_all_channels: false,
        session_duration_minutes: 30,
        strict_mode: None,
        block_youtube_fallback: None,
    }
}

impl Default for GlobalSettings {
    fn default() -> (g: Self)
        ensures
            g@ == settings_default(),
    {
        GlobalSettings {
            default_mode: Mode::Precision,
            block_all_channels: false,
            session_duration_minutes: 30,
            strict_mode: None,
            block_youtube_fallback: None,
        }
    }
}

/// The view of `YoutubeRules::default()`.
pub open spec fn rules_default() -> RulesView {
    RulesView { blocked_channels: Seq::empty(), allowed_channels: Seq::empty() }
}

impl Default for YoutubeRules {
    fn default() -> (r: Self)
        ensures
            r@ == rules_default(),
    {
        let r = YoutubeRules { blocked_channels: Vec::new(), allowed_channels: Vec::new() };
        proof {
            assert(r@ =~= rules_default());
        }
        r
    }
}

/// The view of `Config::default()`: the document a fresh installation gets.
pub open spec fn config_default() -> ConfigView {
    ConfigView {
        password_hash: None,
        blocked_domains: Seq::empty(),
        session: None,
        youtube_rules: None,
        global_settings: None,
    }
}

impl Default for Config {
    fn default() -> (c: Self)
        ensures
            c@ == config_default(),
            config_wf(c@),
    {
        let c = Config {
            password_hash: None,
            blocked_domains: Vec::new(),
            session: None,
            youtube_rules: None,
            global_settings: None,
        };
        proof {
            assert(c@ =~= config_default());
        }
        c
    }
}

// =========================================================================
// Migration
// =========================================================================

/// True when the legacy settings carried `strict_mode == true`.
pub open spec fn legacy_was_strict(c: ConfigView) -> bool {
    match c.global_settings {
        Some(g) => g.strict_mode == Some(true),
        None => false,
    }
}

/// Migration of one session section, given the legacy strictness flag.
pub open spec fn migrate_session_view(s: SessionView, was_strict: bool) -> SessionView {
    SessionView {
        mode: if s.mode == Mode::Off && s.active == Some(true) {
            if was_strict {
                Mode::Strict
            } else {
                Mode::Precision
            }
        } else {
            s.mode
        },
        active: None,
        ..s
    }
}

/// Migration of one settings section.
pub open spec fn migrate_settings_view(g: SettingsView) -> SettingsView {
    SettingsView {
        default_mode: if g.strict_mode == Some(true) && g.default_mode == Mode::Precision {
            Mode::Strict
        } else {
            g.default_mode
        },
        strict_mode: None,
        block_youtube_fallback: None,
        ..g
    }
}

/// The pure migration function: derives the session mode from the legacy
/// `active` and `strict_mode` flags, derives the default mode from the
/// legacy `strict_mode`, discards `block_youtube_fallback`, and clears all
/// legacy fields so they are never serialized back out.
pub open spec fn spec_migrate(c: ConfigView) -> ConfigView {
    ConfigView {
        session: match c.session {
            Some(s) => Some(migrate_session_view(s, legacy_was_strict(c))),
            None => None,
        },
        global_settings: match c.global_settings {
            Some(g) => Some(migrate_settings_view(g)),
            None => None,
        },
        ..c
    }
}

/// True when the document carries no legacy fields.
pub open spec fn legacy_clear(c: ConfigView) -> bool {
    &&& match c.session {
        Some(s) => s.active is None,
        None => true,
    }
    &&& match c.global_settings {
        Some(g) => g.strict_mode is None && g.block_youtube_fallback is None,
        None => true,
    }
}

/// Migrate legacy boolean fields to the mode-based schema, in place.
pub fn migrate(config: &mut Config)
    ensures
        final(config)@ == spec_migrate(old(config)@),
{
    let was_strict: bool = match &config.global_settings {
        Some(g) => matches!(g.strict_mode, Some(true)),
        None => false,
    };

    if let Some(session) = &mut config.session {
        if matches!(session.mode, Mode::Off) && matches!(session.active, Some(true)) {
            session.mode = if was_strict {
                Mode::Strict
            } else {
                Mode::Precision
            };
        }
        session.active = None;
    }

    if let Some(gs) = &mut config.global_settings {
        if matches!(gs.strict_mode, Some(true)) && matches!(gs.default_mode, Mode::Precision) {
            gs.default_mode = Mode::Strict;
        }
        gs.strict_mode = None;
        gs.block_youtube_fallback = None;
    }

    proof {
        assert(config@ =~= spec_migrate(old(config)@));
    }
}

/// Migration is idempotent: one pass reaches a fixed point, and the legacy
/// fields never reappear after it.
pub proof fn lemma_migrate_idempotent(c: ConfigView)
    ensures
        spec_migrate(spec_migrate(c)) == spec_migrate(c),
        legacy_clear(spec_migrate(c)),
{
    assert(spec_migrate(spec_migrate(c)) =~= spec_migrate(c));
}

/// A document without legacy fields passes through migration unchanged.
pub proof fn lemma_migrate_noop_on_current(c: ConfigView)
    requires
        legacy_clear(c),
    ensures
        spec_migrate(c) == c,
{
    assert(spec_migrate(c) =~= c);
}

} // verus!
