use focus_blocker::codec::decode_config;
use focus_blocker::codec::decode_config_or_default;
use focus_blocker::codec::encode_config;
use focus_blocker::codec::ConfigError;
use focus_blocker::config::Config;
use focus_blocker::config::GlobalSettings;
use focus_blocker::config::Mode;
use focus_blocker::config::SessionState;
use focus_blocker::config::YoutubeRules;

fn full_config() -> Config {
    Config {
        password_hash: Some("$argon2id$v=19$m=19456,t=2,p=1$abc$def".to_string()),
        blocked_domains: vec!["example.com".to_string(), "news.site".to_string()],
        session: Some(SessionState {
            mode: Mode::Strict,
            start_time: Some(1_700_000_000_000),
            end_time: Some(1_700_000_180_000),
            locked: true,
            scheduled_id: Some("sch-9".to_string()),
            active: None,
        }),
        youtube_rules: Some(YoutubeRules {
            blocked_channels: vec!["badchan".to_string()],
            allowed_channels: vec![],
        }),
        global_settings: Some(GlobalSettings {
            default_mode: Mode::Precision,
            block_all_channels: true,
            session_duration_minutes: 45,
            strict_mode: None,
            block_youtube_fallback: None,
        }),
    }
}

#[test]
fn encode_default_document() {
    let bytes = encode_config(&Config::default());
    let expected = "{\"password_hash\":null,\"blocked_domains\":[],\"session\":null,\
                    \"youtube_rules\":null,\"global_settings\":null}";
    assert_eq!(bytes, expected.as_bytes().to_vec());
}

#[test]
fn round_trip_full_document() {
    let c = full_config();
    let decoded = decode_config(&encode_config(&c)).unwrap();
    assert_eq!(decoded, c);
}

#[test]
fn round_trip_default_document() {
    let c = Config::default();
    assert_eq!(decode_config(&encode_config(&c)).unwrap(), c);
}

#[test]
fn round_trip_keeps_unusual_strings() {
    let mut c = Config::default();
    c.blocked_domains = vec![
        "quote\"back\\slash".to_string(),
        "tab\tnewline\n".to_string(),
        "unicode-\u{00e9}\u{4e16}".to_string(),
    ];
    assert_eq!(decode_config(&encode_config(&c)).unwrap(), c);
}

#[test]
fn decode_accepts_whitespace_and_reordering() {
    let text = "\n  {\n  \"session\" : { \"locked\" : true, \"mode\" : \"precision\",\n\
                \"start_time\" : 5, \"end_time\" : 9 },\n  \"blocked_domains\" : [ \"a.example\" ,\
                \"b.example\" ]\n  }  \n";
    let c = decode_config(&text.as_bytes().to_vec()).unwrap();
    assert_eq!(c.blocked_domains, vec!["a.example".to_string(), "b.example".to_string()]);
    let s = c.session.as_ref().unwrap();
    assert_eq!(s.mode, Mode::Precision);
    assert_eq!(s.start_time, Some(5));
    assert_eq!(s.end_time, Some(9));
    assert!(s.locked);
    assert!(c.password_hash.is_none());
}

#[test]
fn decode_ignores_unknown_members() {
    let text = "{\"future_field\":{\"deep\":[1,2,{\"x\":null}]},\"blocked_domains\":[\"a.example\"],\
                \"another\":-12.5e3}";
    let c = decode_config(&text.as_bytes().to_vec()).unwrap();
    assert_eq!(c.blocked_domains, vec!["a.example".to_string()]);
}

#[test]
fn decode_reads_legacy_fields_for_migration() {
    let text = "{\"session\":{\"active\":true},\"global_settings\":{\"strict_mode\":true,\
                \"block_youtube_fallback\":false}}";
    let mut c = decode_config(&text.as_bytes().to_vec()).unwrap();
    assert_eq!(c.session.as_ref().unwrap().active, Some(true));
    let g = c.global_settings.as_ref().unwrap();
    assert_eq!(g.strict_mode, Some(true));
    assert_eq!(g.block_youtube_fallback, Some(false));
    focus_blocker::config::migrate(&mut c);
    assert_eq!(c.session.as_ref().unwrap().mode, Mode::Strict);
    assert_eq!(c.global_settings.as_ref().unwrap().default_mode, Mode::Strict);
    assert!(c.session.as_ref().unwrap().active.is_none());
}

#[test]
fn decode_empty_object_yields_defaults() {
    let c = decode_config(&b"{}".to_vec()).unwrap();
    assert_eq!(c, Config::default());
}

#[test]
fn decode_handles_escapes() {
    let text = "{\"password_hash\":\"a\\\"b\\\\c\\/d\\n\\t\\u0041\"}";
    let c = decode_config(&text.as_bytes().to_vec()).unwrap();
    assert_eq!(c.password_hash, Some("a\"b\\c/d\n\tA".to_string()));
}

#[test]
fn decode_handles_basic_plane_unicode_escapes() {
    let text = "{\"password_hash\":\"caf\\u00e9-\\u4e16\"}";
    let c = decode_config(&text.as_bytes().to_vec()).unwrap();
    assert_eq!(c.password_hash, Some("caf\u{00e9}-\u{4e16}".to_string()));
}

#[test]
fn decode_rejects_surrogate_escape_halves() {
    let text = "{\"password_hash\":\"\\ud83d\\ude00\"}";
    assert_eq!(decode_config(&text.as_bytes().to_vec()), Err(ConfigError::Malformed));
}

#[test]
fn decode_rejects_malformed_documents() {
    let cases: Vec<&str> = vec![
        "",
        "{",
        "{\"blocked_domains\":[\"a\"",
        "{\"session\":{\"mode\":\"sideways\"}}",
        "{\"session\":{\"start_time\":\"soon\"}}",
        "{\"global_settings\":{\"default_mode\":\"off\"}}",
        "{\"global_settings\":{\"session_duration_minutes\":5000000000}}",
        "{} trailing",
        "[1,2,3]",
        "{\"blocked_domains\":[1,2]}",
    ];
    for case in cases {
        assert_eq!(
            decode_config(&case.as_bytes().to_vec()),
            Err(ConfigError::Malformed),
            "case: {case}"
        );
    }
}

#[test]
fn decode_or_default_recovers_from_corruption() {
    assert_eq!(decode_config_or_default(&b"not json at all".to_vec()), Config::default());
    assert_eq!(decode_config_or_default(&b"".to_vec()), Config::default());
    let c = full_config();
    assert_eq!(decode_config_or_default(&encode_config(&c)), c);
}

#[test]
fn decode_rejects_number_overflow() {
    let text = "{\"session\":{\"start_time\":99999999999999999999999999}}";
    assert_eq!(decode_config(&text.as_bytes().to_vec()), Err(ConfigError::Malformed));
}

#[test]
fn encode_never_writes_legacy_fields() {
    let mut c = full_config();
    c.session.as_mut().unwrap().active = Some(true);
    c.global_settings.as_mut().unwrap().strict_mode = Some(true);
    c.global_settings.as_mut().unwrap().block_youtube_fallback = Some(true);
    let bytes = encode_config(&c);
    let text = String::from_utf8(bytes).unwrap();
    assert!(!text.contains("active"));
    assert!(!text.contains("strict_mode"));
    assert!(!text.contains("block_youtube_fallback"));

    // One decode brings the current fields back and clears the legacy ones.
    let decoded = decode_config(&encode_config(&c)).unwrap();
    let mut expected = c.clone();
    expected.session.as_mut().unwrap().active = None;
    expected.global_settings.as_mut().unwrap().strict_mode = None;
    expected.global_settings.as_mut().unwrap().block_youtube_fallback = None;
    assert_eq!(decoded, expected);
}
