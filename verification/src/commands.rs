//! The command layer: one handler per inbound request kind.
//!
//! Each handler validates its required fields, applies exactly one state
//! change to the document, and reports what the caller must do next: which
//! domain set to write into the hosts file, whether to register an
//! extension, and whether to shut down. Reading the request off the wire,
//! persisting the document and touching the hosts file happen outside the
//! library; the decisions here are pure.

use crate::config::Config;
use crate::config::ConfigView;
use crate::config::GlobalSettings;
use crate::config::Mode;
use crate::config::RulesView;
use crate::config::SessionState;
use crate::config::SessionView;
use crate::config::SettingsView;
use crate::config::YoutubeRules;
use crate::config::config_wf;
use crate::config::is_mode_active;
use crate::config::mode_is_active;
use crate::config::settings_default;
use crate::password::check_credential;
use crate::password::credential_check;
use crate::session::spec_clear_session;
use crate::session::spec_effective_domains;
use crate::session::spec_start_session;
use crate::session::auto_end_session;
use crate::session::clone_string_vec;
use crate::session::collect_blocked_domains;
use crate::session::start_session;
use vstd::prelude::*;

verus! {

/// What `str::to_lowercase` returns for the given characters.
pub uninterp spec fn lower_of(s: Seq<char>) -> Seq<char>;

/// Relies on str::to_lowercase: the result is a function of the
/// characters alone.
#[verifier::external_body]
fn to_lowercase(s: &str) -> (r: String)
    ensures
        r@ == lower_of(s@),
{
    s.to_lowercase()
}

/// The lower-cased elements of `ds` appended to `acc` in order, skipping
/// any element already present.
pub open spec fn norm_domains_rec(ds: Seq<Seq<char>>, acc: Seq<Seq<char>>) -> Seq<Seq<char>>
    decreases ds.len(),
{
    if ds.len() == 0 {
        acc
    } else {
        let l = lower_of(ds[0]);
        let acc2 = if acc.contains(l) {
            acc
        } else {
            acc.push(l)
        };
        norm_domains_rec(ds.drop_first(), acc2)
    }
}

/// The stored form of a pushed domain list: each element lower-cased,
/// duplicates dropped keeping the first occurrence, insertion order
/// preserved — the field is an ordered set.
pub open spec fn normalize_domains(ds: Seq<Seq<char>>) -> Seq<Seq<char>> {
    norm_domains_rec(ds, Seq::empty())
}

/// A normalized domain list holds no element twice: each pushed domain
/// appears exactly once, under its lower-cased form.
pub proof fn lemma_normalize_domains_distinct(ds: Seq<Seq<char>>)
    ensures
        forall|i: int, j: int|
            0 <= i < j < normalize_domains(ds).len() ==> normalize_domains(ds)[i]
                != normalize_domains(ds)[j],
{
    lemma_norm_rec_distinct(ds, Seq::empty());
}

proof fn lemma_norm_rec_distinct(ds: Seq<Seq<char>>, acc: Seq<Seq<char>>)
    requires
        forall|i: int, j: int| 0 <= i < j < acc.len() ==> acc[i] != acc[j],
    ensures
        forall|i: int, j: int|
            0 <= i < j < norm_domains_rec(ds, acc).len() ==> norm_domains_rec(ds, acc)[i]
                != norm_domains_rec(ds, acc)[j],
    decreases ds.len(),
{
    if ds.len() > 0 {
        let l = lower_of(ds[0]);
        if acc.contains(l) {
            lemma_norm_rec_distinct(ds.drop_first(), acc);
            assert(norm_domains_rec(ds, acc) == norm_domains_rec(ds.drop_first(), acc));
        } else {
            let acc2 = acc.push(l);
            assert forall|i: int, j: int| 0 <= i < j < acc2.len() implies acc2[i] != acc2[j] by {
                if j == acc.len() {
                    if acc2[i] == l {
                        assert(acc.contains(l));
                    }
                }
            }
            lemma_norm_rec_distinct(ds.drop_first(), acc2);
            assert(norm_domains_rec(ds, acc) == norm_domains_rec(ds.drop_first(), acc2));
        }
    }
}

/// Lower-cases a domain list and drops duplicates, keeping the first
/// occurrence of each domain.
pub fn normalize_domain_list(sites: &Vec<String>) -> (out: Vec<String>)
    ensures
        out.deep_view() == normalize_domains(sites.deep_view()),
{
    let mut out: Vec<String> = Vec::new();
    let n = sites.len();
    let mut i: usize = 0;
    proof {
        assert(sites.deep_view().skip(0) =~= sites.deep_view());
        assert(out.deep_view() =~= Seq::<Seq<char>>::empty());
    }
    while i < n
        invariant
            0 <= i <= n == sites@.len(),
            normalize_domains(sites.deep_view()) == norm_domains_rec(
                sites.deep_view().skip(i as int),
                out.deep_view(),
            ),
        decreases n - i,
    {
        let ghost whole = sites.deep_view();
        let ghost tail = whole.skip(i as int);
        proof {
            assert(tail[0] == whole[i as int]);
            assert(tail.drop_first() =~= whole.skip(i + 1));
            assert(whole[i as int] == sites@[i as int]@);
        }
        let dl = to_lowercase(sites[i].as_str());
        let m = out.len();
        let mut j: usize = 0;
        let mut found = false;
        while j < m
            invariant
                0 <= j <= m == out@.len(),
                dl@ == lower_of(whole[i as int]),
                found ==> out.deep_view().contains(lower_of(whole[i as int])),
                !found ==> forall|k: int| 0 <= k < j ==> out.deep_view()[k] != dl@,
            decreases m - j,
        {
            if out[j].eq(&dl) {
                found = true;
                proof {
                    assert(out.deep_view()[j as int] == out@[j as int]@);
                }
            }
            j = j + 1;
        }
        proof {
            if !found && out.deep_view().contains(dl@) {
                let k = choose|k: int|
                    0 <= k < out.deep_view().len() && out.deep_view()[k] == dl@;
                assert(false);
            }
        }
        if !found {
            let ghost prev = out.deep_view();
            out.push(dl);
            proof {
                assert(out.deep_view() =~~= prev.push(lower_of(whole[i as int])));
            }
        }
        i = i + 1;
    }
    proof {
        assert(sites.deep_view().skip(n as int) =~= Seq::<Seq<char>>::empty());
    }
    out
}

/// An explicitly active session mode carried by a request.
#[derive(Clone, Copy, PartialEq, Eq, Structural, Debug)]
pub enum ActiveMode {
    Precision,
    Strict,
}

impl ActiveMode {
    /// The session mode this request value stands for.
    pub open spec fn spec_mode(self) -> Mode {
        match self {
            ActiveMode::Precision => Mode::Precision,
            ActiveMode::Strict => Mode::Strict,
        }
    }

    /// The session mode this request value stands for.
    pub fn mode(self) -> (m: Mode)
        ensures
            m == self.spec_mode(),
    {
        match self {
            ActiveMode::Precision => Mode::Precision,
            ActiveMode::Strict => Mode::Strict,
        }
    }
}

/// A partial update to the stored settings.
#[derive(Clone, Copy, PartialEq, Eq, Structural, Debug)]
pub struct SettingsPatch {
    pub default_mode: Option<ActiveMode>,
    pub block_all_channels: Option<bool>,
    pub session_duration_minutes: Option<u32>,
}

/// One inbound request, already framed and parsed off the wire.
#[derive(Clone, Debug, PartialEq)]
pub enum Request {
    Ping,
    GetState,
    StartSession {
        duration_minutes: Option<u32>,
        scheduled_id: Option<String>,
        locked: Option<bool>,
        mode: Option<ActiveMode>,
    },
    EndSession { natural: Option<bool>, credential: Option<String> },
    SyncRules { youtube_rules: Option<YoutubeRules>, blocked_sites: Option<Vec<String>> },
    SyncSettings { settings: Option<SettingsPatch> },
    BlockDomain { domain: Option<String> },
    UnblockDomain { domain: Option<String> },
    RegisterExtension { extension_id: Option<String>, manifest_path: Option<String> },
    Quit { credential: Option<String> },
    Unknown,
}

/// A required request field, for error reporting.
#[derive(Clone, Copy, PartialEq, Eq, Structural, Debug)]
pub enum FieldName {
    DurationMinutes,
    Domain,
    ExtensionId,
    Settings,
}

/// Why a request was rejected; the state is unchanged in every case.
#[derive(Clone, Copy, PartialEq, Eq, Structural, Debug)]
pub enum ErrorKind {
    /// A required field is missing (or empty where emptiness means absent).
    MissingField(FieldName),
    /// A session cannot run for zero minutes.
    InvalidDuration,
    /// The session is locked and no credential was supplied.
    PinRequired,
    /// The supplied credential does not match the stored verifier.
    InvalidPin,
    /// The supplied shutdown credential does not match.
    InvalidPassword,
    /// The stored credential verifier cannot be used at all.
    UnusableStoredCredential,
    /// The request's type discriminator is not recognized.
    UnknownType,
}

/// One outbound response.
#[derive(Clone, Debug, PartialEq)]
pub enum Response {
    Success,
    OkSession { session: SessionState },
    OkEnd { natural: bool },
    OkState {
        session: Option<SessionState>,
        youtube_rules: Option<YoutubeRules>,
        blocked_domains: Vec<String>,
        settings: Option<GlobalSettings>,
    },
    Error { kind: ErrorKind },
}

/// Spec-level image of [`Response`].
#[verifier::ext_equal]
pub enum ResponseView {
    Success,
    OkSession { session: SessionView },
    OkEnd { natural: bool },
    OkState {
        session: Option<SessionView>,
        youtube_rules: Option<RulesView>,
        blocked_domains: Seq<Seq<char>>,
        settings: Option<SettingsView>,
    },
    Error { kind: ErrorKind },
}

impl View for Response {
    type V = ResponseView;

    open spec fn view(&self) -> ResponseView {
        match self {
            Response::Success => ResponseView::Success,
            Response::OkSession { session } => ResponseView::OkSession { session: session@ },
            Response::OkEnd { natural } => ResponseView::OkEnd { natural: *natural },
            Response::OkState { session, youtube_rules, blocked_domains, settings } => {
                ResponseView::OkState {
                    session: match session {
                        Some(s) => Some(s@),
                        None => None,
                    },
                    youtube_rules: match youtube_rules {
                        Some(r) => Some(r@),
                        None => None,
                    },
                    blocked_domains: blocked_domains.deep_view(),
                    settings: match settings {
                        Some(g) => Some(g@),
                        None => None,
                    },
                }
            },
            Response::Error { kind } => ResponseView::Error { kind: *kind },
        }
    }
}

/// The registry registration a request asks for; carried out outside the
/// library, on the one platform that supports it.
#[derive(Clone, Debug, PartialEq)]
pub struct RegisterAction {
    pub extension_id: String,
    pub manifest_path: Option<String>,
}

/// Spec-level image of [`RegisterAction`].
#[verifier::ext_equal]
pub struct RegisterActionView {
    pub extension_id: Seq<char>,
    pub manifest_path: Option<Seq<char>>,
}

impl View for RegisterAction {
    type V = RegisterActionView;

    open spec fn view(&self) -> RegisterActionView {
        RegisterActionView {
            extension_id: self.extension_id@,
            manifest_path: match self.manifest_path {
                Some(ref p) => Some(p@),
                None => None,
            },
        }
    }
}

/// Everything a handler decides besides the new document: the response,
/// whether the document changed (and must be persisted), which domain set
/// to write into the hosts file (`None`: leave it alone), a registry
/// registration to carry out, and whether to shut down.
#[derive(Clone, Debug, PartialEq)]
pub struct HandleResult {
    pub response: Response,
    pub changed: bool,
    pub hosts_domains: Option<Vec<String>>,
    pub register: Option<RegisterAction>,
    pub quit: bool,
}

/// Spec-level image of [`HandleResult`].
#[verifier::ext_equal]
pub struct HandleResultView {
    pub response: ResponseView,
    pub changed: bool,
    pub hosts_domains: Option<Seq<Seq<char>>>,
    pub register: Option<RegisterActionView>,
    pub quit: bool,
}

impl View for HandleResult {
    type V = HandleResultView;

    open spec fn view(&self) -> HandleResultView {
        HandleResultView {
            response: self.response@,
            changed: self.changed,
            hosts_domains: match self.hosts_domains {
                Some(ref d) => Some(d.deep_view()),
                None => None,
            },
            register: match self.register {
                Some(ref a) => Some(a@),
                None => None,
            },
            quit: self.quit,
        }
    }
}

// =========================================================================
// The handlers, as pure functions
// =========================================================================

/// An error outcome: the state unchanged, nothing to do.
pub open spec fn step_rejected(c: ConfigView, kind: ErrorKind) -> (ConfigView, HandleResultView) {
    (
        c,
        HandleResultView {
            response: ResponseView::Error { kind },
            changed: false,
            hosts_domains: None,
            register: None,
            quit: false,
        },
    )
}

/// The default mode a session start falls back to.
pub open spec fn default_mode_of(c: ConfigView) -> Mode {
    match c.global_settings {
        Some(g) => g.default_mode,
        None => Mode::Precision,
    }
}

/// The session-start handler: the duration is required and nonzero; the
/// mode falls back to the stored default; both timestamps are set; the
/// effective set is enforced afterwards.
pub open spec fn spec_handle_start(
    c: ConfigView,
    duration_minutes: Option<u32>,
    scheduled_id: Option<Seq<char>>,
    locked: Option<bool>,
    mode: Option<ActiveMode>,
    now: u64,
) -> (ConfigView, HandleResultView) {
    match duration_minutes {
        None => step_rejected(c, ErrorKind::MissingField(FieldName::DurationMinutes)),
        Some(d) => if d == 0 {
            step_rejected(c, ErrorKind::InvalidDuration)
        } else {
            let m = match mode {
                Some(am) => am.spec_mode(),
                None => default_mode_of(c),
            };
            let locked_flag = match locked {
                Some(b) => b,
                None => false,
            };
            let c2 = spec_start_session(c, now, d, scheduled_id, locked_flag, m);
            (
                c2,
                HandleResultView {
                    response: ResponseView::OkSession { session: c2.session->0 },
                    changed: true,
                    hosts_domains: Some(spec_effective_domains(c2)),
                    register: None,
                    quit: false,
                },
            )
        },
    }
}

/// Whether ending now requires a verified credential: the session is
/// active, locked, and the end is not a natural expiry.
pub open spec fn end_needs_credential(c: ConfigView, natural: bool) -> bool {
    match c.session {
        Some(s) => mode_is_active(s.mode) && s.locked && !natural,
        None => false,
    }
}

/// The state and result of an allowed session end.
pub open spec fn step_session_ended(c: ConfigView, natural: bool) -> (
    ConfigView,
    HandleResultView,
) {
    (
        spec_clear_session(c),
        HandleResultView {
            response: ResponseView::OkEnd { natural },
            changed: true,
            hosts_domains: Some(Seq::empty()),
            register: None,
            quit: false,
        },
    )
}

/// The session-end handler: a locked session ending early demands a
/// credential that verifies against the stored verifier; a rejected end
/// leaves the state unchanged. An allowed end clears the session fields
/// and the stored domain list, and cleans the hosts file.
pub open spec fn spec_handle_end(
    c: ConfigView,
    natural: Option<bool>,
    credential: Option<Seq<char>>,
) -> (ConfigView, HandleResultView) {
    let natural_end = match natural {
        Some(b) => b,
        None => false,
    };
    if end_needs_credential(c, natural_end) {
        match credential {
            None => step_rejected(c, ErrorKind::PinRequired),
            Some(p) => if p.len() == 0 {
                step_rejected(c, ErrorKind::PinRequired)
            } else {
                match c.password_hash {
                    None => step_session_ended(c, natural_end),
                    Some(h) => match credential_check(p, h) {
                        Some(true) => step_session_ended(c, natural_end),
                        Some(false) => step_rejected(c, ErrorKind::InvalidPin),
                        None => step_rejected(c, ErrorKind::UnusableStoredCredential),
                    },
                }
            },
        }
    } else {
        step_session_ended(c, natural_end)
    }
}

/// The rules-sync handler: replaces the advisory rule set and, when given,
/// the stored domain list — lower-cased and deduplicated, first occurrence
/// kept; the effective set is enforced afterwards.
pub open spec fn spec_handle_sync_rules(
    c: ConfigView,
    youtube_rules: Option<RulesView>,
    blocked_sites: Option<Seq<Seq<char>>>,
) -> (ConfigView, HandleResultView) {
    let c2 = ConfigView {
        youtube_rules: match youtube_rules {
            Some(r) => Some(r),
            None => c.youtube_rules,
        },
        blocked_domains: match blocked_sites {
            Some(s) => normalize_domains(s),
            None => c.blocked_domains,
        },
        ..c
    };
    (
        c2,
        HandleResultView {
            response: ResponseView::Success,
            changed: true,
            hosts_domains: Some(spec_effective_domains(c2)),
            register: None,
            quit: false,
        },
    )
}

/// One settings section with a patch applied.
pub open spec fn patched_settings(g: SettingsView, p: SettingsPatch) -> SettingsView {
    SettingsView {
        default_mode: match p.default_mode {
            Some(am) => am.spec_mode(),
            None => g.default_mode,
        },
        block_all_channels: match p.block_all_channels {
            Some(b) => b,
            None => g.block_all_channels,
        },
        session_duration_minutes: match p.session_duration_minutes {
            Some(d) => d,
            None => g.session_duration_minutes,
        },
        ..g
    }
}

/// The settings-sync handler: the settings object is required; absent
/// stored settings start from the defaults.
pub open spec fn spec_handle_sync_settings(c: ConfigView, settings: Option<SettingsPatch>) -> (
    ConfigView,
    HandleResultView,
) {
    match settings {
        None => step_rejected(c, ErrorKind::MissingField(FieldName::Settings)),
        Some(p) => {
            let g = match c.global_settings {
                Some(g) => g,
                None => settings_default(),
            };
            let c2 = ConfigView { global_settings: Some(patched_settings(g, p)), ..c };
            (
                c2,
                HandleResultView {
                    response: ResponseView::Success,
                    changed: true,
                    hosts_domains: Some(spec_effective_domains(c2)),
                    register: None,
                    quit: false,
                },
            )
        },
    }
}

/// The block-domain handler: the domain is required, lower-cased, and
/// appended unless already present; the effective set is enforced.
pub open spec fn spec_handle_block(c: ConfigView, domain: Option<Seq<char>>) -> (
    ConfigView,
    HandleResultView,
) {
    match domain {
        None => step_rejected(c, ErrorKind::MissingField(FieldName::Domain)),
        Some(d) => {
            let dl = lower_of(d);
            let c2 = if c.blocked_domains.contains(dl) {
                c
            } else {
                ConfigView { blocked_domains: c.blocked_domains.push(dl), ..c }
            };
            (
                c2,
                HandleResultView {
                    response: ResponseView::Success,
                    changed: true,
                    hosts_domains: Some(spec_effective_domains(c2)),
                    register: None,
                    quit: false,
                },
            )
        },
    }
}

/// Every occurrence of `d` removed from the list, order otherwise kept.
pub open spec fn remove_domain(ds: Seq<Seq<char>>, d: Seq<char>) -> Seq<Seq<char>>
    decreases ds.len(),
{
    if ds.len() == 0 {
        Seq::empty()
    } else if ds[0] == d {
        remove_domain(ds.drop_first(), d)
    } else {
        seq![ds[0]] + remove_domain(ds.drop_first(), d)
    }
}

proof fn lemma_remove_domain_subset(ds: Seq<Seq<char>>, d: Seq<char>)
    ensures
        forall|x: Seq<char>| #[trigger] remove_domain(ds, d).contains(x) ==> ds.contains(x),
    decreases ds.len(),
{
    if ds.len() > 0 {
        lemma_remove_domain_subset(ds.drop_first(), d);
        let dsub = ds.drop_first();
        let rec = remove_domain(dsub, d);
        let out = remove_domain(ds, d);
        assert forall|x: Seq<char>| #[trigger] out.contains(x) implies ds.contains(x) by {
            let k = choose|k: int| 0 <= k < out.len() && out[k] == x;
            if ds[0] == d {
                assert(rec[k] == x);
                assert(rec.contains(x));
                let k2 = choose|k2: int| 0 <= k2 < dsub.len() && dsub[k2] == x;
                assert(ds[k2 + 1] == x);
            } else {
                if k == 0 {
                    assert(out[0] == ds[0]);
                } else {
                    assert(out[k] == rec[k - 1]);
                    assert(rec.contains(x));
                    let k2 = choose|k2: int| 0 <= k2 < dsub.len() && dsub[k2] == x;
                    assert(ds[k2 + 1] == x);
                }
            }
        }
    }
}

/// Removal keeps a duplicate-free list duplicate-free.
proof fn lemma_remove_domain_distinct(ds: Seq<Seq<char>>, d: Seq<char>)
    requires
        crate::config::distinct_domains(ds),
    ensures
        crate::config::distinct_domains(remove_domain(ds, d)),
    decreases ds.len(),
{
    if ds.len() > 0 {
        let dsub = ds.drop_first();
        assert forall|i: int, j: int| 0 <= i < j < dsub.len() implies dsub[i] != dsub[j] by {
            assert(dsub[i] == ds[i + 1]);
            assert(dsub[j] == ds[j + 1]);
        }
        lemma_remove_domain_distinct(dsub, d);
        lemma_remove_domain_subset(dsub, d);
        let rec = remove_domain(dsub, d);
        if ds[0] != d {
            let out = remove_domain(ds, d);
            assert forall|i: int, j: int| 0 <= i < j < out.len() implies out[i] != out[j] by {
                if i == 0 {
                    assert(out[0] == ds[0]);
                    assert(out[j] == rec[j - 1]);
                    if ds[0] == rec[j - 1] {
                        assert(rec.contains(ds[0]));
                        let k2 = choose|k2: int| 0 <= k2 < dsub.len() && dsub[k2] == ds[0];
                        assert(ds[k2 + 1] == ds[0]);
                        assert(false);
                    }
                } else {
                    assert(out[i] == rec[i - 1]);
                    assert(out[j] == rec[j - 1]);
                }
            }
        }
    }
}

/// The unblock-domain handler: the domain is required and lower-cased;
/// every occurrence leaves the list; the effective set is enforced.
pub open spec fn spec_handle_unblock(c: ConfigView, domain: Option<Seq<char>>) -> (
    ConfigView,
    HandleResultView,
) {
    match domain {
        None => step_rejected(c, ErrorKind::MissingField(FieldName::Domain)),
        Some(d) => {
            let c2 = ConfigView {
                blocked_domains: remove_domain(c.blocked_domains, lower_of(d)),
                ..c
            };
            (
                c2,
                HandleResultView {
                    response: ResponseView::Success,
                    changed: true,
                    hosts_domains: Some(spec_effective_domains(c2)),
                    register: None,
                    quit: false,
                },
            )
        },
    }
}

/// The registration handler: the extension id is required and nonempty;
/// the registration itself is handed to the caller.
pub open spec fn spec_handle_register(
    c: ConfigView,
    extension_id: Option<Seq<char>>,
    manifest_path: Option<Seq<char>>,
) -> (ConfigView, HandleResultView) {
    match extension_id {
        None => step_rejected(c, ErrorKind::MissingField(FieldName::ExtensionId)),
        Some(e) => if e.len() == 0 {
            step_rejected(c, ErrorKind::MissingField(FieldName::ExtensionId))
        } else {
            (
                c,
                HandleResultView {
                    response: ResponseView::Success,
                    changed: false,
                    hosts_domains: None,
                    register: Some(RegisterActionView { extension_id: e, manifest_path }),
                    quit: false,
                },
            )
        },
    }
}

/// The shutdown handler: the hosts file is cleaned unconditionally; when a
/// credential verifier is stored, the supplied credential must match for
/// the shutdown to proceed, and a mismatch is reported without quitting.
pub open spec fn spec_handle_quit(c: ConfigView, credential: Option<Seq<char>>) -> (
    ConfigView,
    HandleResultView,
) {
    let pw = match credential {
        Some(p) => p,
        None => Seq::<char>::empty(),
    };
    let verdict: Option<ErrorKind> = match c.password_hash {
        None => None,
        Some(h) => match credential_check(pw, h) {
            Some(true) => None,
            Some(false) => Some(ErrorKind::InvalidPassword),
            None => Some(ErrorKind::UnusableStoredCredential),
        },
    };
    (
        c,
        HandleResultView {
            response: match verdict {
                None => ResponseView::Success,
                Some(kind) => ResponseView::Error { kind },
            },
            changed: false,
            hosts_domains: Some(Seq::empty()),
            register: None,
            quit: verdict is None,
        },
    )
}

/// The full dispatch: what each request does to the document, and what the
/// caller must do afterwards.
pub open spec fn spec_handle(c: ConfigView, req: Request, now: u64) -> (
    ConfigView,
    HandleResultView,
) {
    match req {
        Request::Ping => (
            c,
            HandleResultView {
                response: ResponseView::Success,
                changed: false,
                hosts_domains: None,
                register: None,
                quit: false,
            },
        ),
        Request::GetState => (
            c,
            HandleResultView {
                response: ResponseView::OkState {
                    session: c.session,
                    youtube_rules: c.youtube_rules,
                    blocked_domains: c.blocked_domains,
                    settings: c.global_settings,
                },
                changed: false,
                hosts_domains: None,
                register: None,
                quit: false,
            },
        ),
        Request::StartSession { duration_minutes, scheduled_id, locked, mode } => spec_handle_start(
            c,
            duration_minutes,
            match scheduled_id {
                Some(s) => Some(s@),
                None => None,
            },
            locked,
            mode,
            now,
        ),
        Request::EndSession { natural, credential } => spec_handle_end(
            c,
            natural,
            match credential {
                Some(p) => Some(p@),
                None => None,
            },
        ),
        Request::SyncRules { youtube_rules, blocked_sites } => spec_handle_sync_rules(
            c,
            match youtube_rules {
                Some(r) => Some(r@),
                None => None,
            },
            match blocked_sites {
                Some(s) => Some(s.deep_view()),
                None => None,
            },
        ),
        Request::SyncSettings { settings } => spec_handle_sync_settings(c, settings),
        Request::BlockDomain { domain } => spec_handle_block(
            c,
            match domain {
                Some(d) => Some(d@),
                None => None,
            },
        ),
        Request::UnblockDomain { domain } => spec_handle_unblock(
            c,
            match domain {
                Some(d) => Some(d@),
                None => None,
            },
        ),
        Request::RegisterExtension { extension_id, manifest_path } => spec_handle_register(
            c,
            match extension_id {
                Some(e) => Some(e@),
                None => None,
            },
            match manifest_path {
                Some(p) => Some(p@),
                None => None,
            },
        ),
        Request::Quit { credential } => spec_handle_quit(
            c,
            match credential {
                Some(p) => Some(p@),
                None => None,
            },
        ),
        Request::Unknown => step_rejected(c, ErrorKind::UnknownType),
    }
}

// =========================================================================
// Small copies
// =========================================================================

/// Copies an optional string.
pub fn clone_opt_string(o: &Option<String>) -> (r: Option<String>)
    ensures
        r == *o,
{
    match o {
        Some(s) => Some(s.clone()),
        None => None,
    }
}

/// Copies a session section.
pub fn clone_session(s: &SessionState) -> (r: SessionState)
    ensures
        r@ == s@,
{
    SessionState {
        mode: s.mode,
        start_time: s.start_time,
        end_time: s.end_time,
        locked: s.locked,
        scheduled_id: clone_opt_string(&s.scheduled_id),
        active: s.active,
    }
}

/// Copies an advisory rule set.
pub fn clone_rules(r: &YoutubeRules) -> (out: YoutubeRules)
    ensures
        out@ == r@,
{
    YoutubeRules {
        blocked_channels: clone_string_vec(&r.blocked_channels),
        allowed_channels: clone_string_vec(&r.allowed_channels),
    }
}

/// An error result, leaving the document alone.
fn rejected(kind: ErrorKind) -> (r: HandleResult)
    ensures
        r@ == (HandleResultView {
            response: ResponseView::Error { kind },
            changed: false,
            hosts_domains: None,
            register: None,
            quit: false,
        }),
{
    let r = HandleResult {
        response: Response::Error { kind },
        changed: false,
        hosts_domains: None,
        register: None,
        quit: false,
    };
    proof {
        assert(r@ =~~= HandleResultView {
            response: ResponseView::Error { kind },
            changed: false,
            hosts_domains: None,
            register: None,
            quit: false,
        });
    }
    r
}

// =========================================================================
// Executable handlers
// =========================================================================

/// Returns the full shared state for front-end polling.
pub fn handle_get_state(cfg: &Config) -> (r: HandleResult)
    ensures
        r@ == spec_handle(cfg@, Request::GetState, 0).1,
{
    let r = HandleResult {
        response: Response::OkState {
            session: match &cfg.session {
                Some(s) => Some(clone_session(s)),
                None => None,
            },
            youtube_rules: match &cfg.youtube_rules {
                Some(yr) => Some(clone_rules(yr)),
                None => None,
            },
            blocked_domains: clone_string_vec(&cfg.blocked_domains),
            settings: match &cfg.global_settings {
                Some(g) => Some(*g),
                None => None,
            },
        },
        changed: false,
        hosts_domains: None,
        register: None,
        quit: false,
    };
    proof {
        assert(r@ =~~= spec_handle(cfg@, Request::GetState, 0).1);
    }
    r
}

/// Begins a session: the duration is required and nonzero, the mode falls
/// back to the stored default, and the effective set is enforced.
pub fn handle_start_session(
    cfg: &mut Config,
    duration_minutes: Option<u32>,
    scheduled_id: &Option<String>,
    locked: Option<bool>,
    mode: Option<ActiveMode>,
    now: u64,
) -> (r: HandleResult)
    requires
        now < 0x4000_0000_0000_0000u64,
    ensures
        ({
            let step = spec_handle_start(
                old(cfg)@,
                duration_minutes,
                match scheduled_id {
                    Some(s) => Some(s@),
                    None => None,
                },
                locked,
                mode,
                now,
            );
            final(cfg)@ == step.0 && r@ == step.1
        }),
        config_wf(old(cfg)@) ==> config_wf(final(cfg)@),
{
    let d: u32 = match duration_minutes {
        None => {
            return rejected(ErrorKind::MissingField(FieldName::DurationMinutes));
        },
        Some(d) => d,
    };
    if d == 0 {
        return rejected(ErrorKind::InvalidDuration);
    }
    let m = match mode {
        Some(am) => am.mode(),
        None => match &cfg.global_settings {
            Some(g) => g.default_mode,
            None => Mode::Precision,
        },
    };
    let locked_flag = match locked {
        Some(b) => b,
        None => false,
    };
    start_session(cfg, now, d, clone_opt_string(scheduled_id), locked_flag, m);
    let sess = match &cfg.session {
        Some(s) => clone_session(s),
        None => {
            proof {
                assert(false);
            }
            SessionState::default()
        },
    };
    let domains = collect_blocked_domains(cfg);
    let r = HandleResult {
        response: Response::OkSession { session: sess },
        changed: true,
        hosts_domains: Some(domains),
        register: None,
        quit: false,
    };
    proof {
        let step = spec_handle_start(
            old(cfg)@,
            duration_minutes,
            match scheduled_id {
                Some(s) => Some(s@),
                None => None,
            },
            locked,
            mode,
            now,
        );
        assert(cfg@ =~= step.0);
        assert(r@ =~~= step.1);
    }
    r
}

/// Ends the session: a locked session ending early demands a verified
/// credential; an allowed end clears everything and cleans the hosts file.
pub fn handle_end_session(cfg: &mut Config, natural: Option<bool>, credential: &Option<String>)
    -> (r: HandleResult)
    ensures
        ({
            let step = spec_handle_end(
                old(cfg)@,
                natural,
                match credential {
                    Some(p) => Some(p@),
                    None => None,
                },
            );
            final(cfg)@ == step.0 && r@ == step.1
        }),
        config_wf(old(cfg)@) ==> config_wf(final(cfg)@),
{
    let natural_end = match natural {
        Some(b) => b,
        None => false,
    };
    let needs: bool = match &cfg.session {
        Some(s) => is_mode_active(s.mode) && s.locked && !natural_end,
        None => false,
    };
    if needs {
        match credential {
            None => {
                return rejected(ErrorKind::PinRequired);
            },
            Some(p) => {
                if p.as_str().is_empty() {
                    return rejected(ErrorKind::PinRequired);
                }
                match &cfg.password_hash {
                    None => {},
                    Some(h) => {
                        match check_credential(p.as_str(), h.as_str()) {
                            Some(true) => {},
                            Some(false) => {
                                return rejected(ErrorKind::InvalidPin);
                            },
                            None => {
                                return rejected(ErrorKind::UnusableStoredCredential);
                            },
                        }
                    },
                }
            },
        }
    }
    auto_end_session(cfg);
    let r = HandleResult {
        response: Response::OkEnd { natural: natural_end },
        changed: true,
        hosts_domains: Some(Vec::new()),
        register: None,
        quit: false,
    };
    proof {
        let step = spec_handle_end(
            old(cfg)@,
            natural,
            match credential {
                Some(p) => Some(p@),
                None => None,
            },
        );
        assert(cfg@ =~= step.0);
        assert(r@ =~~= step.1);
    }
    r
}

/// Replaces the advisory rule set and, when given, the stored domain list
/// (lower-cased, deduplicated, first occurrence kept).
pub fn handle_sync_rules(
    cfg: &mut Config,
    youtube_rules: &Option<YoutubeRules>,
    blocked_sites: &Option<Vec<String>>,
) -> (r: HandleResult)
    ensures
        ({
            let step = spec_handle_sync_rules(
                old(cfg)@,
                match youtube_rules {
                    Some(yr) => Some(yr@),
                    None => None,
                },
                match blocked_sites {
                    Some(s) => Some(s.deep_view()),
                    None => None,
                },
            );
            final(cfg)@ == step.0 && r@ == step.1
        }),
        config_wf(old(cfg)@) ==> config_wf(final(cfg)@),
{
    if let Some(yr) = youtube_rules {
        cfg.youtube_rules = Some(clone_rules(yr));
    }
    if let Some(sites) = blocked_sites {
        cfg.blocked_domains = normalize_domain_list(sites);
    }
    let domains = collect_blocked_domains(cfg);
    let r = HandleResult {
        response: Response::Success,
        changed: true,
        hosts_domains: Some(domains),
        register: None,
        quit: false,
    };
    proof {
        let step = spec_handle_sync_rules(
            old(cfg)@,
            match youtube_rules {
                Some(yr) => Some(yr@),
                None => None,
            },
            match blocked_sites {
                Some(s) => Some(s.deep_view()),
                None => None,
            },
        );
        assert(cfg@ =~= step.0);
        assert(r@ =~~= step.1);
        if let Some(sites) = blocked_sites {
            lemma_normalize_domains_distinct(sites.deep_view());
        }
    }
    r
}

/// Applies a settings patch; absent stored settings start from defaults.
pub fn handle_sync_settings(cfg: &mut Config, settings: Option<SettingsPatch>) -> (r: HandleResult)
    ensures
        ({
            let step = spec_handle_sync_settings(old(cfg)@, settings);
            final(cfg)@ == step.0 && r@ == step.1
        }),
        config_wf(old(cfg)@) ==> config_wf(final(cfg)@),
{
    let p: SettingsPatch = match settings {
        None => {
            return rejected(ErrorKind::MissingField(FieldName::Settings));
        },
        Some(p) => p,
    };
    let g: GlobalSettings = match &cfg.global_settings {
        Some(g) => *g,
        None => GlobalSettings::default(),
    };
    cfg.global_settings = Some(
        GlobalSettings {
            default_mode: match p.default_mode {
                Some(am) => am.mode(),
                None => g.default_mode,
            },
            block_all_channels: match p.block_all_channels {
                Some(b) => b,
                None => g.block_all_channels,
            },
            session_duration_minutes: match p.session_duration_minutes {
                Some(d) => d,
                None => g.session_duration_minutes,
            },
            strict_mode: g.strict_mode,
            block_youtube_fallback: g.block_youtube_fallback,
        },
    );
    let domains = collect_blocked_domains(cfg);
    let r = HandleResult {
        response: Response::Success,
        changed: true,
        hosts_domains: Some(domains),
        register: None,
        quit: false,
    };
    proof {
        let step = spec_handle_sync_settings(old(cfg)@, settings);
        assert(cfg@ =~= step.0);
        assert(r@ =~~= step.1);
    }
    r
}

/// Blocks one domain: lower-cased, appended unless already present.
pub fn handle_block_domain(cfg: &mut Config, domain: &Option<String>) -> (r: HandleResult)
    ensures
        ({
            let step = spec_handle_block(
                old(cfg)@,
                match domain {
                    Some(d) => Some(d@),
                    None => None,
                },
            );
            final(cfg)@ == step.0 && r@ == step.1
        }),
        config_wf(old(cfg)@) ==> config_wf(final(cfg)@),
{
    let d: &String = match domain {
        None => {
            return rejected(ErrorKind::MissingField(FieldName::Domain));
        },
        Some(d) => d,
    };
    let dl = to_lowercase(d.as_str());
    let n = cfg.blocked_domains.len();
    let mut i: usize = 0;
    let mut found = false;
    while i < n
        invariant
            0 <= i <= n == cfg.blocked_domains@.len(),
            dl@ == lower_of(d@),
            found ==> cfg@.blocked_domains.contains(lower_of(d@)),
            !found ==> forall|j: int|
                0 <= j < i ==> cfg@.blocked_domains[j] != lower_of(d@),
            *cfg == *old(cfg),
        decreases n - i,
    {
        if cfg.blocked_domains[i].eq(&dl) {
            found = true;
            proof {
                assert(cfg@.blocked_domains[i as int] == cfg.blocked_domains@[i as int]@);
            }
        }
        i = i + 1;
    }
    proof {
        if !found && cfg@.blocked_domains.contains(lower_of(d@)) {
            let j = choose|j: int|
                0 <= j < cfg@.blocked_domains.len() && cfg@.blocked_domains[j] == lower_of(d@);
            assert(false);
        }
    }
    if !found {
        let ghost prev = cfg@.blocked_domains;
        cfg.blocked_domains.push(dl);
        proof {
            assert(cfg@.blocked_domains =~~= prev.push(lower_of(d@)));
            assert(cfg@ =~= ConfigView {
                blocked_domains: old(cfg)@.blocked_domains.push(lower_of(d@)),
                ..old(cfg)@
            });
        }
    }
    let domains = collect_blocked_domains(cfg);
    let r = HandleResult {
        response: Response::Success,
        changed: true,
        hosts_domains: Some(domains),
        register: None,
        quit: false,
    };
    proof {
        let step = spec_handle_block(
            old(cfg)@,
            match domain {
                Some(d) => Some(d@),
                None => None,
            },
        );
        assert(cfg@ =~= step.0);
        assert(r@ =~~= step.1);
        let prev = old(cfg)@.blocked_domains;
        if config_wf(old(cfg)@) && !prev.contains(lower_of(d@)) {
            let newd = prev.push(lower_of(d@));
            assert forall|i: int, j: int| 0 <= i < j < newd.len() implies newd[i] != newd[j] by {
                if j == prev.len() {
                    if newd[i] == lower_of(d@) {
                        assert(prev.contains(lower_of(d@)));
                    }
                }
            }
        }
    }
    r
}

/// Unblocks one domain: lower-cased, every occurrence removed.
pub fn handle_unblock_domain(cfg: &mut Config, domain: &Option<String>) -> (r: HandleResult)
    ensures
        ({
            let step = spec_handle_unblock(
                old(cfg)@,
                match domain {
                    Some(d) => Some(d@),
                    None => None,
                },
            );
            final(cfg)@ == step.0 && r@ == step.1
        }),
        config_wf(old(cfg)@) ==> config_wf(final(cfg)@),
{
    let d: &String = match domain {
        None => {
            return rejected(ErrorKind::MissingField(FieldName::Domain));
        },
        Some(d) => d,
    };
    let dl = to_lowercase(d.as_str());
    let mut out: Vec<String> = Vec::new();
    let n = cfg.blocked_domains.len();
    let mut i: usize = 0;
    let ghost whole = cfg@.blocked_domains;
    proof {
        assert(whole.skip(0) =~= whole);
        assert(out.deep_view() + remove_domain(whole, lower_of(d@)) =~= remove_domain(
            whole,
            lower_of(d@),
        ));
    }
    while i < n
        invariant
            0 <= i <= n == cfg.blocked_domains@.len(),
            dl@ == lower_of(d@),
            whole == cfg@.blocked_domains,
            *cfg == *old(cfg),
            remove_domain(whole, lower_of(d@)) == out.deep_view() + remove_domain(
                whole.skip(i as int),
                lower_of(d@),
            ),
        decreases n - i,
    {
        let ghost tail = whole.skip(i as int);
        proof {
            assert(tail[0] == whole[i as int]);
            assert(tail.drop_first() =~= whole.skip(i + 1));
            assert(whole[i as int] == cfg.blocked_domains@[i as int]@);
        }
        if !cfg.blocked_domains[i].eq(&dl) {
            let ghost prev = out.deep_view();
            out.push(cfg.blocked_domains[i].clone());
            proof {
                assert(out.deep_view() =~~= prev.push(whole[i as int]));
                assert(prev + (seq![whole[i as int]] + remove_domain(
                    whole.skip(i + 1),
                    lower_of(d@),
                )) =~= out.deep_view() + remove_domain(whole.skip(i + 1), lower_of(d@)));
            }
        }
        i = i + 1;
    }
    proof {
        assert(whole.skip(n as int) =~= Seq::<Seq<char>>::empty());
        assert(out.deep_view() + remove_domain(Seq::empty(), lower_of(d@)) =~= out.deep_view());
    }
    cfg.blocked_domains = out;
    let domains = collect_blocked_domains(cfg);
    let r = HandleResult {
        response: Response::Success,
        changed: true,
        hosts_domains: Some(domains),
        register: None,
        quit: false,
    };
    proof {
        let step = spec_handle_unblock(
            old(cfg)@,
            match domain {
                Some(d) => Some(d@),
                None => None,
            },
        );
        assert(cfg@ =~= step.0);
        assert(r@ =~~= step.1);
        if config_wf(old(cfg)@) {
            lemma_remove_domain_distinct(old(cfg)@.blocked_domains, lower_of(d@));
        }
    }
    r
}

/// Validates a registration request and hands the registration itself to
/// the caller.
pub fn handle_register_extension(
    cfg: &Config,
    extension_id: &Option<String>,
    manifest_path: &Option<String>,
) -> (r: HandleResult)
    ensures
        r@ == spec_handle_register(
            cfg@,
            match extension_id {
                Some(e) => Some(e@),
                None => None,
            },
            match manifest_path {
                Some(p) => Some(p@),
                None => None,
            },
        ).1,
{
    let e: &String = match extension_id {
        None => {
            return rejected(ErrorKind::MissingField(FieldName::ExtensionId));
        },
        Some(e) => e,
    };
    if e.as_str().is_empty() {
        return rejected(ErrorKind::MissingField(FieldName::ExtensionId));
    }
    let r = HandleResult {
        response: Response::Success,
        changed: false,
        hosts_domains: None,
        register: Some(
            RegisterAction {
                extension_id: e.clone(),
                manifest_path: clone_opt_string(manifest_path),
            },
        ),
        quit: false,
    };
    proof {
        assert(r@ =~~= spec_handle_register(
            cfg@,
            match extension_id {
                Some(e) => Some(e@),
                None => None,
            },
            match manifest_path {
                Some(p) => Some(p@),
                None => None,
            },
        ).1);
    }
    r
}

/// The credential-gated shutdown: the hosts file is cleaned whatever
/// happens; a stored verifier gates only whether the process quits.
pub fn handle_quit(cfg: &Config, credential: &Option<String>) -> (r: HandleResult)
    ensures
        r@ == spec_handle_quit(
            cfg@,
            match credential {
                Some(p) => Some(p@),
                None => None,
            },
        ).1,
{
    let pw: &str = match credential {
        Some(p) => p.as_str(),
        None => "",
    };
    proof {
        reveal_strlit("");
        assert(""@ =~= Seq::<char>::empty());
    }
    let kind: Option<ErrorKind> = match &cfg.password_hash {
        None => None,
        Some(h) => match check_credential(pw, h.as_str()) {
            Some(true) => None,
            Some(false) => Some(ErrorKind::InvalidPassword),
            None => Some(ErrorKind::UnusableStoredCredential),
        },
    };
    let quit = matches!(kind, None);
    let r = HandleResult {
        response: match kind {
            None => Response::Success,
            Some(k) => Response::Error { kind: k },
        },
        changed: false,
        hosts_domains: Some(Vec::new()),
        register: None,
        quit,
    };
    proof {
        assert(r@ =~~= spec_handle_quit(
            cfg@,
            match credential {
                Some(p) => Some(p@),
                None => None,
            },
        ).1);
    }
    r
}

/// The session transition guard: on a locked session, an end that is not a
/// natural expiry leaves the state unchanged and yields an error whenever
/// the credential is absent, empty, or does not verify against the stored
/// verifier; a verifying credential moves the session to `Off` and clears
/// the stored domain list.
pub proof fn lemma_session_transition_guard(c: ConfigView, credential: Option<Seq<char>>)
    requires
        c.session is Some,
        mode_is_active(c.session->0.mode),
        c.session->0.locked,
        c.password_hash is Some,
    ensures
        ({
            let step = spec_handle_end(c, Some(false), credential);
            match credential {
                None => step.0 == c && step.1.response == (ResponseView::Error {
                    kind: ErrorKind::PinRequired,
                }) && !step.1.changed,
                Some(p) => if p.len() == 0 {
                    step.0 == c && step.1.response == (ResponseView::Error {
                        kind: ErrorKind::PinRequired,
                    }) && !step.1.changed
                } else if credential_check(p, c.password_hash->0) == Some(true) {
                    step.0 == spec_clear_session(c) && step.0.session->0.mode == Mode::Off
                        && step.0.blocked_domains.len() == 0 && step.1.changed
                } else {
                    step.0 == c && step.1.response is Error && !step.1.changed
                },
            }
        }),
{
}

/// Dispatches one request: mutates the document in place and reports what
/// the caller must do next. The whole step is the pure function
/// [`spec_handle`] of the previous document, the request and the clock.
pub fn handle_message(cfg: &mut Config, req: &Request, now: u64) -> (r: HandleResult)
    requires
        now < 0x4000_0000_0000_0000u64,
    ensures
        final(cfg)@ == spec_handle(old(cfg)@, *req, now).0,
        r@ == spec_handle(old(cfg)@, *req, now).1,
        config_wf(old(cfg)@) ==> config_wf(final(cfg)@),
{
    match req {
        Request::Ping => {
            let r = HandleResult {
                response: Response::Success,
                changed: false,
                hosts_domains: None,
                register: None,
                quit: false,
            };
            proof {
                assert(r@ =~~= spec_handle(old(cfg)@, *req, now).1);
            }
            r
        },
        Request::GetState => handle_get_state(cfg),
        Request::StartSession { duration_minutes, scheduled_id, locked, mode } => {
            handle_start_session(cfg, *duration_minutes, scheduled_id, *locked, *mode, now)
        },
        Request::EndSession { natural, credential } => {
            handle_end_session(cfg, *natural, credential)
        },
        Request::SyncRules { youtube_rules, blocked_sites } => {
            handle_sync_rules(cfg, youtube_rules, blocked_sites)
        },
        Request::SyncSettings { settings } => handle_sync_settings(cfg, *settings),
        Request::BlockDomain { domain } => handle_block_domain(cfg, domain),
        Request::UnblockDomain { domain } => handle_unblock_domain(cfg, domain),
        Request::RegisterExtension { extension_id, manifest_path } => {
            handle_register_extension(cfg, extension_id, manifest_path)
        },
        Request::Quit { credential } => handle_quit(cfg, credential),
        Request::Unknown => rejected(ErrorKind::UnknownType),
    }
}

} // verus!
