//! The session lifecycle state machine and the effective domain set.
//!
//! Sessions move between `Off` and an active mode. The effective enforced
//! domain set is a pure function of the stored domains and the session
//! mode: under a strict session the fallback domain joins the set. The
//! background reconciliation decisions (restore polling, watchdog cycles)
//! are pure functions here; timers and file access live outside.

use crate::config::Config;
use crate::config::ConfigView;
use crate::config::Mode;
use crate::config::SessionState;
use crate::config::SessionView;
use crate::config::config_wf;
use crate::config::is_mode_active;
use crate::config::mode_is_active;
use crate::config::session_default;
use vstd::prelude::*;

verus! {

/// The domain enforced as a fallback whenever a strict session runs.
pub open spec fn strict_fallback_domain() -> Seq<char> {
    "youtube.com"@
}

/// The mode of the current session; `Off` when no session is stored.
pub open spec fn session_mode(c: ConfigView) -> Mode {
    match c.session {
        Some(s) => s.mode,
        None => Mode::Off,
    }
}

/// Whether a session is currently active.
pub open spec fn session_active(c: ConfigView) -> bool {
    mode_is_active(session_mode(c))
}

/// Whether a session is currently active.
pub fn is_session_active(cfg: &Config) -> (r: bool)
    ensures
        r == session_active(cfg@),
{
    match &cfg.session {
        Some(s) => is_mode_active(s.mode),
        None => false,
    }
}

/// The effective enforced domain set: the stored domains, with the strict
/// fallback appended under a strict session unless already present.
pub open spec fn spec_effective_domains(c: ConfigView) -> Seq<Seq<char>> {
    if session_mode(c) == Mode::Strict && !c.blocked_domains.contains(strict_fallback_domain()) {
        c.blocked_domains.push(strict_fallback_domain())
    } else {
        c.blocked_domains
    }
}

/// Copies a list of strings.
pub fn clone_string_vec(v: &Vec<String>) -> (out: Vec<String>)
    ensures
        out@ == v@,
{
    let mut out: Vec<String> = Vec::new();
    let n = v.len();
    let mut i: usize = 0;
    while i < n
        invariant
            0 <= i <= n == v@.len(),
            out@ == v@.take(i as int),
        decreases n - i,
    {
        out.push(v[i].clone());
        proof {
            assert(v@.take(i as int).push(v@[i as int]) =~= v@.take(i + 1));
        }
        i = i + 1;
    }
    proof {
        assert(v@.take(n as int) =~= v@);
    }
    out
}

/// Builds the full list of domains to enforce in the hosts file: the
/// stored domains, plus the strict fallback during a strict session.
pub fn collect_blocked_domains(cfg: &Config) -> (out: Vec<String>)
    ensures
        out.deep_view() == spec_effective_domains(cfg@),
{
    let mut out = clone_string_vec(&cfg.blocked_domains);
    let strict: bool = match &cfg.session {
        Some(s) => matches!(s.mode, Mode::Strict),
        None => false,
    };
    if !strict {
        return out;
    }
    let yt: String = "youtube.com".to_owned();
    let n = out.len();
    let mut i: usize = 0;
    let mut found = false;
    while i < n
        invariant
            0 <= i <= n == out@.len(),
            yt@ == strict_fallback_domain(),
            found ==> cfg@.blocked_domains.contains(strict_fallback_domain()),
            !found ==> forall|j: int| 0 <= j < i ==> out.deep_view()[j] != strict_fallback_domain(),
            out@ == cfg.blocked_domains@,
        decreases n - i,
    {
        if out[i].eq(&yt) {
            found = true;
            proof {
                assert(cfg@.blocked_domains[i as int] == out.deep_view()[i as int]);
            }
        }
        i = i + 1;
    }
    if found {
        out
    } else {
        proof {
            if cfg@.blocked_domains.contains(strict_fallback_domain()) {
                let j = choose|j: int|
                    0 <= j < cfg@.blocked_domains.len() && cfg@.blocked_domains[j]
                        == strict_fallback_domain();
                assert(out.deep_view()[j] == strict_fallback_domain());
            }
        }
        let ghost prev = out.deep_view();
        out.push(yt);
        proof {
            assert(out.deep_view() =~~= prev.push(strict_fallback_domain()));
        }
        out
    }
}

// =========================================================================
// Transitions
// =========================================================================

/// The state after any transition to `Off`: the session fields cleared and
/// the domain list emptied.
pub open spec fn spec_clear_session(c: ConfigView) -> ConfigView {
    ConfigView { session: Some(session_default()), blocked_domains: Seq::empty(), ..c }
}

/// Ends the session (clearing all its fields) and empties the stored
/// domain list, as every transition to `Off` does.
pub fn auto_end_session(cfg: &mut Config)
    ensures
        final(cfg)@ == spec_clear_session(old(cfg)@),
        config_wf(old(cfg)@) ==> config_wf(final(cfg)@),
{
    cfg.session = Some(SessionState::default());
    cfg.blocked_domains = Vec::new();
    proof {
        assert(cfg@ =~= spec_clear_session(old(cfg)@));
    }
}

/// The state after a session start: mode as resolved, both timestamps set,
/// the end a whole number of minutes after `now`.
pub open spec fn spec_start_session(
    c: ConfigView,
    now: u64,
    duration_minutes: u32,
    scheduled_id: Option<Seq<char>>,
    locked: bool,
    mode: Mode,
) -> ConfigView {
    ConfigView {
        session: Some(
            SessionView {
                mode,
                start_time: Some(now),
                end_time: Some((now + duration_minutes * 60000) as u64),
                locked,
                scheduled_id,
                active: None,
            },
        ),
        ..c
    }
}

/// Starts a session at `now` for a whole number of minutes.
pub fn start_session(
    cfg: &mut Config,
    now: u64,
    duration_minutes: u32,
    scheduled_id: Option<String>,
    locked: bool,
    mode: Mode,
)
    requires
        now < 0x4000_0000_0000_0000u64,
        duration_minutes >= 1,
    ensures
        final(cfg)@ == spec_start_session(
            old(cfg)@,
            now,
            duration_minutes,
            match scheduled_id {
                Some(ref s) => Some(s@),
                None => None,
            },
            locked,
            mode,
        ),
        config_wf(old(cfg)@) ==> config_wf(final(cfg)@),
{
    let end_time: u64 = now + (duration_minutes as u64) * 60000;
    cfg.session = Some(
        SessionState {
            mode,
            start_time: Some(now),
            end_time: Some(end_time),
            locked,
            scheduled_id,
            active: None,
        },
    );
    proof {
        assert(cfg@ =~= spec_start_session(
            old(cfg)@,
            now,
            duration_minutes,
            cfg@.session->0.scheduled_id,
            locked,
            mode,
        ));
    }
}

// =========================================================================
// Background reconciliation decisions
// =========================================================================

/// Whether the stored session has reached its end time.
pub open spec fn session_expired(c: ConfigView, now: u64) -> bool {
    match c.session {
        Some(s) => mode_is_active(s.mode) && match s.end_time {
            Some(e) => now >= e,
            None => false,
        },
        None => false,
    }
}

/// What one cycle of the restore poll loop should do.
#[derive(Clone, Debug, PartialEq)]
pub enum RestoreStep {
    /// The session has expired: end it naturally and clean the hosts file.
    ExpireSession,
    /// Nothing is enforced any more: clean the hosts file and stop polling.
    Cleanup,
    /// The enforced set changed: rewrite the hosts file and the snapshot.
    Reapply(Vec<String>),
    /// Nothing to do this cycle.
    Idle,
}

/// Spec-level image of [`RestoreStep`].
#[verifier::ext_equal]
pub enum RestoreStepView {
    ExpireSession,
    Cleanup,
    Reapply(Seq<Seq<char>>),
    Idle,
}

impl View for RestoreStep {
    type V = RestoreStepView;

    open spec fn view(&self) -> RestoreStepView {
        match self {
            RestoreStep::ExpireSession => RestoreStepView::ExpireSession,
            RestoreStep::Cleanup => RestoreStepView::Cleanup,
            RestoreStep::Reapply(d) => RestoreStepView::Reapply(d.deep_view()),
            RestoreStep::Idle => RestoreStepView::Idle,
        }
    }
}

/// The decision of one restore-poll cycle, as a pure function.
pub open spec fn spec_restore_step(c: ConfigView, now: u64, snapshot: Seq<Seq<char>>)
    -> RestoreStepView {
    if session_expired(c, now) {
        RestoreStepView::ExpireSession
    } else if spec_effective_domains(c).len() == 0 && !session_active(c) {
        RestoreStepView::Cleanup
    } else if snapshot != spec_effective_domains(c) {
        RestoreStepView::Reapply(spec_effective_domains(c))
    } else {
        RestoreStepView::Idle
    }
}

/// Compares two domain lists.
pub fn string_vecs_eq(a: &Vec<String>, b: &Vec<String>) -> (r: bool)
    ensures
        r == (a.deep_view() == b.deep_view()),
{
    if a.len() != b.len() {
        proof {
            assert(a.deep_view().len() != b.deep_view().len());
        }
        return false;
    }
    let n = a.len();
    let mut i: usize = 0;
    while i < n
        invariant
            0 <= i <= n == a@.len(),
            n == b@.len(),
            forall|j: int| 0 <= j < i ==> a.deep_view()[j] == b.deep_view()[j],
        decreases n - i,
    {
        if !a[i].eq(&b[i]) {
            proof {
                assert(a.deep_view()[i as int] != b.deep_view()[i as int]);
            }
            return false;
        }
        i = i + 1;
    }
    proof {
        assert(a.deep_view() =~= b.deep_view());
    }
    true
}

/// Decides one cycle of the restore poll loop from the stored document,
/// the clock, and the current in-memory snapshot.
pub fn restore_tick(cfg: &Config, now: u64, snapshot: &Vec<String>) -> (step: RestoreStep)
    ensures
        step@ == spec_restore_step(cfg@, now, snapshot.deep_view()),
{
    let expired: bool = match &cfg.session {
        Some(s) => is_mode_active(s.mode) && match s.end_time {
            Some(e) => now >= e,
            None => false,
        },
        None => false,
    };
    if expired {
        return RestoreStep::ExpireSession;
    }
    let domains = collect_blocked_domains(cfg);
    if domains.len() == 0 && !is_session_active(cfg) {
        proof {
            assert(spec_effective_domains(cfg@).len() == 0);
        }
        return RestoreStep::Cleanup;
    }
    if !string_vecs_eq(snapshot, &domains) {
        return RestoreStep::Reapply(domains);
    }
    RestoreStep::Idle
}

/// Whether a watchdog cycle has anything to check: an empty snapshot skips
/// the cycle entirely.
pub fn watchdog_should_check(snapshot: &Vec<String>) -> (r: bool)
    ensures
        r == (snapshot@.len() > 0),
{
    snapshot.len() > 0
}

} // verus!
