use focus_blocker::config::Config;
use focus_blocker::config::GlobalSettings;
use focus_blocker::config::Mode;
use focus_blocker::config::SessionState;
use focus_blocker::config::YoutubeRules;
use focus_blocker::config::default_mode_off;
use focus_blocker::config::default_mode_precision;
use focus_blocker::config::default_session_duration;
use focus_blocker::config::is_mode_active;
use focus_blocker::config::migrate;

fn legacy_config(active: Option<bool>, strict_mode: Option<bool>, fallback: Option<bool>) -> Config {
    Config {
        password_hash: None,
        blocked_domains: vec!["example.com".to_string()],
        session: Some(SessionState {
            mode: Mode::Off,
            start_time: None,
            end_time: None,
            locked: false,
            scheduled_id: None,
            active,
        }),
        youtube_rules: None,
        global_settings: Some(GlobalSettings {
            default_mode: Mode::Precision,
            block_all_channels: false,
            session_duration_minutes: 30,
            strict_mode,
            block_youtube_fallback: fallback,
        }),
    }
}

#[test]
fn mode_activity() {
    assert!(!is_mode_active(Mode::Off));
    assert!(is_mode_active(Mode::Precision));
    assert!(is_mode_active(Mode::Strict));
}

#[test]
fn defaults() {
    assert_eq!(default_mode_off(), Mode::Off);
    assert_eq!(default_mode_precision(), Mode::Precision);
    assert_eq!(default_session_duration(), 30);
    let c = Config::default();
    assert!(c.password_hash.is_none());
    assert!(c.blocked_domains.is_empty());
    assert!(c.session.is_none());
    assert!(c.youtube_rules.is_none());
    assert!(c.global_settings.is_none());
    let s = SessionState::default();
    assert_eq!(s.mode, Mode::Off);
    assert!(!s.locked);
    let g = GlobalSettings::default();
    assert_eq!(g.default_mode, Mode::Precision);
    assert_eq!(g.session_duration_minutes, 30);
    assert!(!g.block_all_channels);
    let r = YoutubeRules::default();
    assert!(r.blocked_channels.is_empty());
    assert!(r.allowed_channels.is_empty());
}

#[test]
fn migrate_active_strict_becomes_strict_session() {
    let mut c = legacy_config(Some(true), Some(true), None);
    migrate(&mut c);
    assert_eq!(c.session.as_ref().unwrap().mode, Mode::Strict);
    assert_eq!(c.global_settings.as_ref().unwrap().default_mode, Mode::Strict);
}

#[test]
fn migrate_active_without_strict_becomes_precision_session() {
    let mut c = legacy_config(Some(true), None, None);
    migrate(&mut c);
    assert_eq!(c.session.as_ref().unwrap().mode, Mode::Precision);
    assert_eq!(c.global_settings.as_ref().unwrap().default_mode, Mode::Precision);
}

#[test]
fn migrate_inactive_stays_off() {
    let mut c = legacy_config(Some(false), None, None);
    migrate(&mut c);
    assert_eq!(c.session.as_ref().unwrap().mode, Mode::Off);
}

#[test]
fn migrate_clears_every_legacy_field() {
    let mut c = legacy_config(Some(true), Some(true), Some(true));
    migrate(&mut c);
    assert!(c.session.as_ref().unwrap().active.is_none());
    let g = c.global_settings.as_ref().unwrap();
    assert!(g.strict_mode.is_none());
    assert!(g.block_youtube_fallback.is_none());
}

#[test]
fn migrate_discards_youtube_fallback_flag_only() {
    let mut c = legacy_config(None, None, Some(true));
    migrate(&mut c);
    let g = c.global_settings.as_ref().unwrap();
    assert!(g.block_youtube_fallback.is_none());
    assert_eq!(g.default_mode, Mode::Precision);
    assert_eq!(c.session.as_ref().unwrap().mode, Mode::Off);
}

#[test]
fn migrate_twice_equals_migrate_once() {
    let mut once = legacy_config(Some(true), Some(true), Some(false));
    migrate(&mut once);
    let mut twice = once.clone();
    migrate(&mut twice);
    assert_eq!(once, twice);
}

#[test]
fn migrate_keeps_current_schema_untouched() {
    let mut c = Config {
        password_hash: Some("hash".to_string()),
        blocked_domains: vec!["a.example".to_string()],
        session: Some(SessionState {
            mode: Mode::Precision,
            start_time: Some(1),
            end_time: Some(2),
            locked: true,
            scheduled_id: Some("sched".to_string()),
            active: None,
        }),
        youtube_rules: None,
        global_settings: Some(GlobalSettings {
            default_mode: Mode::Strict,
            block_all_channels: true,
            session_duration_minutes: 45,
            strict_mode: None,
            block_youtube_fallback: None,
        }),
    };
    let before = c.clone();
    migrate(&mut c);
    assert_eq!(c, before);
}

#[test]
fn migrate_does_not_downgrade_explicit_mode() {
    let mut c = legacy_config(Some(true), Some(false), None);
    c.session.as_mut().unwrap().mode = Mode::Strict;
    migrate(&mut c);
    assert_eq!(c.session.as_ref().unwrap().mode, Mode::Strict);
}
