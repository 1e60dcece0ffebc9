use argon2::Argon2;
use argon2::PasswordHasher;
use focus_blocker::commands::ActiveMode;
use focus_blocker::commands::ErrorKind;
use focus_blocker::commands::FieldName;
use focus_blocker::commands::Request;
use focus_blocker::commands::Response;
use focus_blocker::commands::SettingsPatch;
use focus_blocker::commands::handle_message;
use focus_blocker::config::Config;
use focus_blocker::config::GlobalSettings;
use focus_blocker::config::Mode;
use focus_blocker::config::SessionState;
use focus_blocker::config::YoutubeRules;
use focus_blocker::password::CredentialError;
use focus_blocker::password::verify;

const NOW: u64 = 1_700_000_000_000;

fn argon2_hash(password: &str) -> String {
    let hash: argon2::PasswordHash = Argon2::default().hash_password(password.as_bytes()).unwrap();
    hash.to_string()
}

fn locked_strict_config(hash: Option<String>) -> Config {
    Config {
        password_hash: hash,
        blocked_domains: vec!["example.com".to_string()],
        session: Some(SessionState {
            mode: Mode::Strict,
            start_time: Some(NOW),
            end_time: Some(NOW + 60_000),
            locked: true,
            scheduled_id: None,
            active: None,
        }),
        youtube_rules: None,
        global_settings: None,
    }
}

fn error_kind(resp: &Response) -> ErrorKind {
    match resp {
        Response::Error { kind } => *kind,
        other => panic!("expected an error response, got {:?}", other),
    }
}

#[test]
fn ping_answers_ok() {
    let mut cfg = Config::default();
    let r = handle_message(&mut cfg, &Request::Ping, NOW);
    assert!(matches!(r.response, Response::Success));
    assert!(!r.changed);
    assert!(r.hosts_domains.is_none());
    assert!(!r.quit);
}

#[test]
fn unknown_type_answers_error() {
    let mut cfg = Config::default();
    let r = handle_message(&mut cfg, &Request::Unknown, NOW);
    assert_eq!(error_kind(&r.response), ErrorKind::UnknownType);
}

#[test]
fn get_state_echoes_the_document() {
    let mut cfg = locked_strict_config(None);
    cfg.youtube_rules = Some(YoutubeRules {
        blocked_channels: vec!["chan".to_string()],
        allowed_channels: vec![],
    });
    let r = handle_message(&mut cfg.clone(), &Request::GetState, NOW);
    match r.response {
        Response::OkState { session, youtube_rules, blocked_domains, settings } => {
            assert_eq!(session, cfg.session);
            assert_eq!(youtube_rules, cfg.youtube_rules);
            assert_eq!(blocked_domains, cfg.blocked_domains);
            assert_eq!(settings, cfg.global_settings);
        }
        other => panic!("unexpected response: {:?}", other),
    }
    assert!(!r.changed);
}

#[test]
fn start_session_requires_duration() {
    let mut cfg = Config::default();
    let req = Request::StartSession {
        duration_minutes: None,
        scheduled_id: None,
        locked: None,
        mode: None,
    };
    let r = handle_message(&mut cfg, &req, NOW);
    assert_eq!(error_kind(&r.response), ErrorKind::MissingField(FieldName::DurationMinutes));
    assert!(cfg.session.is_none());
}

#[test]
fn start_session_rejects_zero_duration() {
    let mut cfg = Config::default();
    let req = Request::StartSession {
        duration_minutes: Some(0),
        scheduled_id: None,
        locked: None,
        mode: None,
    };
    let r = handle_message(&mut cfg, &req, NOW);
    assert_eq!(error_kind(&r.response), ErrorKind::InvalidDuration);
}

#[test]
fn start_session_sets_times_and_applies_hosts() {
    let mut cfg = Config::default();
    cfg.blocked_domains = vec!["example.com".to_string()];
    let req = Request::StartSession {
        duration_minutes: Some(30),
        scheduled_id: Some("sch-1".to_string()),
        locked: Some(true),
        mode: Some(ActiveMode::Strict),
    };
    let r = handle_message(&mut cfg, &req, NOW);
    let s = cfg.session.as_ref().unwrap();
    assert_eq!(s.mode, Mode::Strict);
    assert_eq!(s.start_time, Some(NOW));
    assert_eq!(s.end_time, Some(NOW + 30 * 60_000));
    assert!(s.locked);
    assert!(r.changed);
    assert_eq!(
        r.hosts_domains,
        Some(vec!["example.com".to_string(), "youtube.com".to_string()])
    );
    match r.response {
        Response::OkSession { session } => assert_eq!(session, *cfg.session.as_ref().unwrap()),
        other => panic!("unexpected response: {:?}", other),
    }
}

#[test]
fn start_session_mode_falls_back_to_stored_default() {
    let mut cfg = Config::default();
    cfg.global_settings = Some(GlobalSettings {
        default_mode: Mode::Strict,
        block_all_channels: false,
        session_duration_minutes: 30,
        strict_mode: None,
        block_youtube_fallback: None,
    });
    let req = Request::StartSession {
        duration_minutes: Some(5),
        scheduled_id: None,
        locked: None,
        mode: None,
    };
    handle_message(&mut cfg, &req, NOW);
    assert_eq!(cfg.session.as_ref().unwrap().mode, Mode::Strict);
}

#[test]
fn end_session_unlocked_needs_no_credential() {
    let mut cfg = locked_strict_config(None);
    cfg.session.as_mut().unwrap().locked = false;
    let req = Request::EndSession { natural: None, credential: None };
    let r = handle_message(&mut cfg, &req, NOW);
    assert!(matches!(r.response, Response::OkEnd { natural: false }));
    assert_eq!(cfg.session.as_ref().unwrap().mode, Mode::Off);
    assert!(cfg.blocked_domains.is_empty());
    assert_eq!(r.hosts_domains, Some(vec![]));
}

#[test]
fn end_session_natural_end_needs_no_credential() {
    let mut cfg = locked_strict_config(Some(argon2_hash("secret")));
    let req = Request::EndSession { natural: Some(true), credential: None };
    let r = handle_message(&mut cfg, &req, NOW);
    assert!(matches!(r.response, Response::OkEnd { natural: true }));
    assert_eq!(cfg.session.as_ref().unwrap().mode, Mode::Off);
}

#[test]
fn end_session_locked_without_credential_is_rejected() {
    let mut cfg = locked_strict_config(Some(argon2_hash("secret")));
    let req = Request::EndSession { natural: Some(false), credential: None };
    let r = handle_message(&mut cfg, &req, NOW);
    assert_eq!(error_kind(&r.response), ErrorKind::PinRequired);
    assert_eq!(cfg.session.as_ref().unwrap().mode, Mode::Strict);
    assert_eq!(cfg.blocked_domains, vec!["example.com".to_string()]);
}

#[test]
fn end_session_locked_with_empty_credential_is_rejected() {
    let mut cfg = locked_strict_config(Some(argon2_hash("secret")));
    let req = Request::EndSession { natural: Some(false), credential: Some("".to_string()) };
    let r = handle_message(&mut cfg, &req, NOW);
    assert_eq!(error_kind(&r.response), ErrorKind::PinRequired);
}

#[test]
fn end_session_locked_with_wrong_credential_is_rejected() {
    let mut cfg = locked_strict_config(Some(argon2_hash("secret")));
    let req = Request::EndSession { natural: Some(false), credential: Some("wrong".to_string()) };
    let r = handle_message(&mut cfg, &req, NOW);
    assert_eq!(error_kind(&r.response), ErrorKind::InvalidPin);
    assert_eq!(cfg.session.as_ref().unwrap().mode, Mode::Strict);
    assert!(!r.changed);
}

#[test]
fn end_session_locked_with_correct_credential_ends() {
    let mut cfg = locked_strict_config(Some(argon2_hash("secret")));
    let req = Request::EndSession { natural: Some(false), credential: Some("secret".to_string()) };
    let r = handle_message(&mut cfg, &req, NOW);
    assert!(matches!(r.response, Response::OkEnd { natural: false }));
    assert_eq!(cfg.session.as_ref().unwrap().mode, Mode::Off);
    assert!(cfg.blocked_domains.is_empty());
    assert_eq!(r.hosts_domains, Some(vec![]));
}

#[test]
fn end_session_locked_with_unusable_hash_is_rejected() {
    let mut cfg = locked_strict_config(Some("not a phc string".to_string()));
    let req = Request::EndSession { natural: Some(false), credential: Some("secret".to_string()) };
    let r = handle_message(&mut cfg, &req, NOW);
    assert_eq!(error_kind(&r.response), ErrorKind::UnusableStoredCredential);
}

#[test]
fn block_domain_lowercases_and_appends() {
    let mut cfg = Config::default();
    let req = Request::BlockDomain { domain: Some("EXample.COM".to_string()) };
    let r = handle_message(&mut cfg, &req, NOW);
    assert!(matches!(r.response, Response::Success));
    assert_eq!(cfg.blocked_domains, vec!["example.com".to_string()]);
    assert_eq!(r.hosts_domains, Some(vec!["example.com".to_string()]));
}

#[test]
fn block_domain_does_not_duplicate() {
    let mut cfg = Config::default();
    cfg.blocked_domains = vec!["example.com".to_string()];
    let req = Request::BlockDomain { domain: Some("example.com".to_string()) };
    handle_message(&mut cfg, &req, NOW);
    assert_eq!(cfg.blocked_domains, vec!["example.com".to_string()]);
}

#[test]
fn block_domain_requires_domain() {
    let mut cfg = Config::default();
    let req = Request::BlockDomain { domain: None };
    let r = handle_message(&mut cfg, &req, NOW);
    assert_eq!(error_kind(&r.response), ErrorKind::MissingField(FieldName::Domain));
}

#[test]
fn unblock_domain_removes_every_occurrence() {
    let mut cfg = Config::default();
    cfg.blocked_domains = vec![
        "example.com".to_string(),
        "other.example".to_string(),
        "example.com".to_string(),
    ];
    let req = Request::UnblockDomain { domain: Some("Example.Com".to_string()) };
    let r = handle_message(&mut cfg, &req, NOW);
    assert!(matches!(r.response, Response::Success));
    assert_eq!(cfg.blocked_domains, vec!["other.example".to_string()]);
}

#[test]
fn sync_rules_replaces_rules_and_sites() {
    let mut cfg = Config::default();
    let req = Request::SyncRules {
        youtube_rules: Some(YoutubeRules {
            blocked_channels: vec!["bad".to_string()],
            allowed_channels: vec!["good".to_string()],
        }),
        blocked_sites: Some(vec!["a.example".to_string(), "b.example".to_string()]),
    };
    let r = handle_message(&mut cfg, &req, NOW);
    assert!(matches!(r.response, Response::Success));
    assert_eq!(cfg.blocked_domains, vec!["a.example".to_string(), "b.example".to_string()]);
    let rules = cfg.youtube_rules.as_ref().unwrap();
    assert_eq!(rules.blocked_channels, vec!["bad".to_string()]);
    assert_eq!(rules.allowed_channels, vec!["good".to_string()]);
    assert_eq!(
        r.hosts_domains,
        Some(vec!["a.example".to_string(), "b.example".to_string()])
    );
}

#[test]
fn sync_rules_normalizes_and_deduplicates_sites() {
    let mut cfg = Config::default();
    let req = Request::SyncRules {
        youtube_rules: None,
        blocked_sites: Some(vec![
            "FOO.com".to_string(),
            "foo.com".to_string(),
            "Bar.example".to_string(),
            "BAR.EXAMPLE".to_string(),
            "foo.com".to_string(),
        ]),
    };
    let r = handle_message(&mut cfg, &req, NOW);
    assert!(matches!(r.response, Response::Success));
    assert_eq!(cfg.blocked_domains, vec!["foo.com".to_string(), "bar.example".to_string()]);
    assert_eq!(
        r.hosts_domains,
        Some(vec!["foo.com".to_string(), "bar.example".to_string()])
    );
}

#[test]
fn sync_rules_without_sites_keeps_domains() {
    let mut cfg = Config::default();
    cfg.blocked_domains = vec!["keep.example".to_string()];
    let req = Request::SyncRules { youtube_rules: None, blocked_sites: None };
    handle_message(&mut cfg, &req, NOW);
    assert_eq!(cfg.blocked_domains, vec!["keep.example".to_string()]);
}

#[test]
fn sync_settings_requires_settings_object() {
    let mut cfg = Config::default();
    let req = Request::SyncSettings { settings: None };
    let r = handle_message(&mut cfg, &req, NOW);
    assert_eq!(error_kind(&r.response), ErrorKind::MissingField(FieldName::Settings));
}

#[test]
fn sync_settings_patches_over_defaults() {
    let mut cfg = Config::default();
    let req = Request::SyncSettings {
        settings: Some(SettingsPatch {
            default_mode: Some(ActiveMode::Strict),
            block_all_channels: None,
            session_duration_minutes: Some(45),
        }),
    };
    let r = handle_message(&mut cfg, &req, NOW);
    assert!(matches!(r.response, Response::Success));
    let g = cfg.global_settings.as_ref().unwrap();
    assert_eq!(g.default_mode, Mode::Strict);
    assert!(!g.block_all_channels);
    assert_eq!(g.session_duration_minutes, 45);
}

#[test]
fn register_extension_requires_id() {
    let mut cfg = Config::default();
    let req = Request::RegisterExtension { extension_id: None, manifest_path: None };
    let r = handle_message(&mut cfg, &req, NOW);
    assert_eq!(error_kind(&r.response), ErrorKind::MissingField(FieldName::ExtensionId));
    let req2 = Request::RegisterExtension {
        extension_id: Some("".to_string()),
        manifest_path: None,
    };
    let r2 = handle_message(&mut cfg, &req2, NOW);
    assert_eq!(error_kind(&r2.response), ErrorKind::MissingField(FieldName::ExtensionId));
}

#[test]
fn register_extension_hands_out_the_action() {
    let mut cfg = Config::default();
    let req = Request::RegisterExtension {
        extension_id: Some("abcdef".to_string()),
        manifest_path: Some("C:/native-host.json".to_string()),
    };
    let r = handle_message(&mut cfg, &req, NOW);
    assert!(matches!(r.response, Response::Success));
    let action = r.register.unwrap();
    assert_eq!(action.extension_id, "abcdef".to_string());
    assert_eq!(action.manifest_path, Some("C:/native-host.json".to_string()));
    assert!(!r.changed);
}

#[test]
fn quit_without_stored_hash_always_quits_and_cleans() {
    let mut cfg = Config::default();
    let req = Request::Quit { credential: None };
    let r = handle_message(&mut cfg, &req, NOW);
    assert!(matches!(r.response, Response::Success));
    assert!(r.quit);
    assert_eq!(r.hosts_domains, Some(vec![]));
}

#[test]
fn quit_with_wrong_password_cleans_but_does_not_quit() {
    let mut cfg = Config::default();
    cfg.password_hash = Some(argon2_hash("secret"));
    let req = Request::Quit { credential: Some("wrong".to_string()) };
    let r = handle_message(&mut cfg, &req, NOW);
    assert_eq!(error_kind(&r.response), ErrorKind::InvalidPassword);
    assert!(!r.quit);
    assert_eq!(r.hosts_domains, Some(vec![]));
}

#[test]
fn quit_with_correct_password_quits() {
    let mut cfg = Config::default();
    cfg.password_hash = Some(argon2_hash("secret"));
    let req = Request::Quit { credential: Some("secret".to_string()) };
    let r = handle_message(&mut cfg, &req, NOW);
    assert!(matches!(r.response, Response::Success));
    assert!(r.quit);
}

#[test]
fn verify_matches_only_the_right_password() {
    let hash = argon2_hash("hunter2");
    assert_eq!(verify("hunter2", &hash), Ok(true));
    assert_eq!(verify("hunter3", &hash), Ok(false));
    assert_eq!(verify("hunter2", "garbage"), Err(CredentialError::UnusableHash));
}
