use focus_blocker::config::Config;
use focus_blocker::config::Mode;
use focus_blocker::config::SessionState;
use focus_blocker::session::RestoreStep;
use focus_blocker::session::auto_end_session;
use focus_blocker::session::collect_blocked_domains;
use focus_blocker::session::is_session_active;
use focus_blocker::session::restore_tick;
use focus_blocker::session::start_session;
use focus_blocker::session::watchdog_should_check;

fn with_session(mode: Mode, end_time: Option<u64>, domains: &[&str]) -> Config {
    Config {
        password_hash: None,
        blocked_domains: domains.iter().map(|d| d.to_string()).collect(),
        session: Some(SessionState {
            mode,
            start_time: Some(0),
            end_time,
            locked: false,
            scheduled_id: None,
            active: None,
        }),
        youtube_rules: None,
        global_settings: None,
    }
}

#[test]
fn effective_set_plain_in_precision_mode() {
    let cfg = with_session(Mode::Precision, Some(10), &["example.com"]);
    assert_eq!(collect_blocked_domains(&cfg), vec!["example.com".to_string()]);
}

#[test]
fn effective_set_gains_fallback_in_strict_mode() {
    let cfg = with_session(Mode::Strict, Some(10), &["example.com"]);
    assert_eq!(
        collect_blocked_domains(&cfg),
        vec!["example.com".to_string(), "youtube.com".to_string()]
    );
}

#[test]
fn effective_set_does_not_duplicate_fallback() {
    let cfg = with_session(Mode::Strict, Some(10), &["youtube.com", "example.com"]);
    assert_eq!(
        collect_blocked_domains(&cfg),
        vec!["youtube.com".to_string(), "example.com".to_string()]
    );
}

#[test]
fn effective_set_without_session_is_plain() {
    let mut cfg = with_session(Mode::Off, None, &["example.com"]);
    cfg.session = None;
    assert_eq!(collect_blocked_domains(&cfg), vec!["example.com".to_string()]);
}

#[test]
fn session_activity() {
    assert!(is_session_active(&with_session(Mode::Precision, Some(1), &[])));
    assert!(is_session_active(&with_session(Mode::Strict, Some(1), &[])));
    assert!(!is_session_active(&with_session(Mode::Off, None, &[])));
    assert!(!is_session_active(&Config::default()));
}

#[test]
fn start_session_sets_both_timestamps() {
    let mut cfg = Config::default();
    start_session(&mut cfg, 1_000, 30, Some("sched-7".to_string()), true, Mode::Strict);
    let s = cfg.session.as_ref().unwrap();
    assert_eq!(s.mode, Mode::Strict);
    assert_eq!(s.start_time, Some(1_000));
    assert_eq!(s.end_time, Some(1_000 + 30 * 60_000));
    assert!(s.locked);
    assert_eq!(s.scheduled_id, Some("sched-7".to_string()));
    assert!(s.active.is_none());
}

#[test]
fn auto_end_clears_session_and_domains() {
    let mut cfg = with_session(Mode::Strict, Some(10), &["example.com"]);
    auto_end_session(&mut cfg);
    let s = cfg.session.as_ref().unwrap();
    assert_eq!(s.mode, Mode::Off);
    assert_eq!(s.start_time, None);
    assert_eq!(s.end_time, None);
    assert!(!s.locked);
    assert_eq!(s.scheduled_id, None);
    assert!(cfg.blocked_domains.is_empty());
}

#[test]
fn restore_tick_expires_overdue_session() {
    let cfg = with_session(Mode::Precision, Some(5_000), &["example.com"]);
    let step = restore_tick(&cfg, 5_000, &vec!["example.com".to_string()]);
    assert!(matches!(step, RestoreStep::ExpireSession));
}

#[test]
fn restore_tick_cleans_up_when_nothing_is_enforced() {
    let mut cfg = Config::default();
    cfg.session = Some(SessionState::default());
    let step = restore_tick(&cfg, 1, &vec![]);
    assert!(matches!(step, RestoreStep::Cleanup));
}

#[test]
fn restore_tick_reapplies_on_snapshot_drift() {
    let cfg = with_session(Mode::Precision, Some(5_000), &["example.com"]);
    let step = restore_tick(&cfg, 100, &vec![]);
    match step {
        RestoreStep::Reapply(d) => assert_eq!(d, vec!["example.com".to_string()]),
        other => panic!("unexpected step: {:?}", other),
    }
}

#[test]
fn restore_tick_idles_when_snapshot_matches() {
    let cfg = with_session(Mode::Precision, Some(5_000), &["example.com"]);
    let step = restore_tick(&cfg, 100, &vec!["example.com".to_string()]);
    assert!(matches!(step, RestoreStep::Idle));
}

#[test]
fn watchdog_skips_empty_snapshot() {
    assert!(!watchdog_should_check(&vec![]));
    assert!(watchdog_should_check(&vec!["example.com".to_string()]));
}
