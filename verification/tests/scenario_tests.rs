use focus_blocker::commands::Request;
use focus_blocker::commands::handle_message;
use focus_blocker::config::Config;
use focus_blocker::config::Mode;
use focus_blocker::commands::ActiveMode;
use focus_blocker::hosts::apply;
use focus_blocker::hosts::domains_to_bytes;
use focus_blocker::password::SetupCheck;
use focus_blocker::password::check_new_password;
use focus_blocker::registry::force_install_slot;
use focus_blocker::session::RestoreStep;
use focus_blocker::session::auto_end_session;
use focus_blocker::session::collect_blocked_domains;
use focus_blocker::session::restore_tick;

fn contains_line(content: &[u8], line: &str) -> bool {
    String::from_utf8(content.to_vec()).unwrap().lines().any(|l| l == line)
}

#[test]
fn strict_session_end_to_end() {
    let now: u64 = 1_700_000_000_000;
    let mut cfg = Config::default();
    cfg.blocked_domains = vec!["example.com".to_string()];

    // Start a strict session of 30 minutes.
    let start = Request::StartSession {
        duration_minutes: Some(30),
        scheduled_id: None,
        locked: None,
        mode: Some(ActiveMode::Strict),
    };
    let r = handle_message(&mut cfg, &start, now);
    let effective = r.hosts_domains.unwrap();
    assert_eq!(effective, vec!["example.com".to_string(), "youtube.com".to_string()]);

    // The hosts file gains all four loopback lines.
    let hosts0 = b"127.0.0.1 localhost\n".to_vec();
    let hosts1 = apply(&hosts0, &domains_to_bytes(&effective));
    assert!(contains_line(&hosts1, "127.0.0.1 example.com"));
    assert!(contains_line(&hosts1, "127.0.0.1 www.example.com"));
    assert!(contains_line(&hosts1, "127.0.0.1 youtube.com"));
    assert!(contains_line(&hosts1, "127.0.0.1 www.youtube.com"));

    // Past the end time, a restore cycle expires the session.
    let later = now + 30 * 60_000;
    let step = restore_tick(&cfg, later, &effective);
    assert!(matches!(step, RestoreStep::ExpireSession));
    auto_end_session(&mut cfg);
    assert_eq!(cfg.session.as_ref().unwrap().mode, Mode::Off);
    assert!(cfg.blocked_domains.is_empty());

    // Reconciliation with the now-empty set removes the block entirely.
    let cleared = collect_blocked_domains(&cfg);
    assert!(cleared.is_empty());
    let hosts2 = apply(&hosts1, &domains_to_bytes(&cleared));
    assert_eq!(hosts2, hosts0);
}

#[test]
fn two_mutations_apply_in_order() {
    let now: u64 = 1_000;
    let mut cfg = Config::default();
    handle_message(&mut cfg, &Request::BlockDomain { domain: Some("a.example".to_string()) }, now);
    handle_message(&mut cfg, &Request::BlockDomain { domain: Some("b.example".to_string()) }, now);
    assert_eq!(cfg.blocked_domains, vec!["a.example".to_string(), "b.example".to_string()]);
}

#[test]
fn setup_password_checks() {
    assert_eq!(
        check_new_password(&"".to_string(), &"".to_string()),
        SetupCheck::EmptyPassword
    );
    assert_eq!(
        check_new_password(&"pw".to_string(), &"other".to_string()),
        SetupCheck::Mismatch
    );
    assert_eq!(
        check_new_password(&"pw".to_string(), &"pw".to_string()),
        SetupCheck::Acceptable
    );
}

#[test]
fn force_install_slot_skips_registered_extension() {
    let names = vec![Some(1), None];
    let values = vec!["abcdef".to_string(), "stray".to_string()];
    assert_eq!(force_install_slot(&names, &values, &"abcdef".to_string()), None);
}

#[test]
fn force_install_slot_recognizes_update_url_suffix() {
    let names = vec![Some(3)];
    let values = vec!["abcdef;https://example.invalid/update".to_string()];
    assert_eq!(force_install_slot(&names, &values, &"abcdef".to_string()), None);
}

#[test]
fn force_install_slot_picks_next_free_number() {
    let names = vec![Some(1), Some(4), None];
    let values = vec!["x".to_string(), "y".to_string(), "z".to_string()];
    assert_eq!(force_install_slot(&names, &values, &"abcdef".to_string()), Some(5));
}

#[test]
fn force_install_slot_starts_at_zero() {
    assert_eq!(force_install_slot(&vec![], &vec![], &"abcdef".to_string()), Some(0));
}

#[test]
fn force_install_slot_distinguishes_prefix_without_separator() {
    let names = vec![Some(0)];
    let values = vec!["abcdefextra".to_string()];
    assert_eq!(force_install_slot(&names, &values, &"abcdef".to_string()), Some(1));
}
