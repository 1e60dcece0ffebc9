use focus_blocker::hosts::apply;
use focus_blocker::hosts::build_block;
use focus_blocker::hosts::domains_to_bytes;
use focus_blocker::hosts::ensure_integrity;
use focus_blocker::hosts::strip_block;

fn bytes(s: &str) -> Vec<u8> {
    s.as_bytes().to_vec()
}

fn domains(ds: &[&str]) -> Vec<Vec<u8>> {
    ds.iter().map(|d| d.as_bytes().to_vec()).collect()
}

#[test]
fn apply_appends_block_to_plain_hosts() {
    let content = bytes("127.0.0.1 localhost\n");
    let out = apply(&content, &domains(&["example.com"]));
    let expected = "127.0.0.1 localhost\n\
                    # FocusBlocker Start\n\
                    127.0.0.1 example.com\n\
                    127.0.0.1 www.example.com\n\
                    # FocusBlocker End\n";
    assert_eq!(out, bytes(expected));
}

#[test]
fn apply_www_prefixed_domain_gets_single_line() {
    let content = bytes("");
    let out = apply(&content, &domains(&["www.example.com"]));
    let expected = "\n\
                    # FocusBlocker Start\n\
                    127.0.0.1 www.example.com\n\
                    # FocusBlocker End\n";
    assert_eq!(out, bytes(expected));
}

#[test]
fn apply_is_idempotent() {
    let content = bytes("# comment\n10.0.0.1 printer\n");
    let ds = domains(&["example.com", "news.site"]);
    let once = apply(&content, &ds);
    let twice = apply(&once, &ds);
    assert_eq!(once, twice);
}

#[test]
fn apply_preserves_unmanaged_lines_in_order() {
    let content = bytes(
        "127.0.0.1 localhost\n\
         # FocusBlocker Start\n\
         127.0.0.1 old.example\n\
         # FocusBlocker End\n\
         ::1 ip6-localhost\n",
    );
    let out = apply(&content, &domains(&["fresh.example"]));
    let expected = "127.0.0.1 localhost\n\
                    ::1 ip6-localhost\n\
                    # FocusBlocker Start\n\
                    127.0.0.1 fresh.example\n\
                    127.0.0.1 www.fresh.example\n\
                    # FocusBlocker End\n";
    assert_eq!(out, bytes(expected));
}

#[test]
fn apply_with_empty_domains_removes_all_markers() {
    let content = bytes(
        "127.0.0.1 localhost\n\
         # FocusBlocker Start\n\
         127.0.0.1 old.example\n\
         # FocusBlocker End\n",
    );
    let out = apply(&content, &domains(&[]));
    assert_eq!(out, bytes("127.0.0.1 localhost\n"));
}

#[test]
fn apply_removes_every_marker_block() {
    let content = bytes(
        "a\n\
         # FocusBlocker Start\n\
         127.0.0.1 one.example\n\
         # FocusBlocker End\n\
         b\n\
         # FocusBlocker Start\n\
         127.0.0.1 two.example\n\
         # FocusBlocker End\n\
         c\n",
    );
    let out = apply(&content, &domains(&[]));
    assert_eq!(out, bytes("a\nb\nc\n"));
}

#[test]
fn apply_recognizes_markers_with_surrounding_whitespace() {
    let content = bytes(
        "keep\n\
         \t # FocusBlocker Start \t\n\
         127.0.0.1 old.example\n\
         \t# FocusBlocker End\n",
    );
    let out = apply(&content, &domains(&[]));
    assert_eq!(out, bytes("keep\n"));
}

#[test]
fn apply_adds_missing_trailing_newline() {
    let content = bytes("no newline at end");
    let out = apply(&content, &domains(&["example.com"]));
    let expected = "no newline at end\n\
                    # FocusBlocker Start\n\
                    127.0.0.1 example.com\n\
                    127.0.0.1 www.example.com\n\
                    # FocusBlocker End\n";
    assert_eq!(out, bytes(expected));
}

#[test]
fn strip_block_keeps_only_unmanaged_lines() {
    let content = bytes(
        "one\n\
         # FocusBlocker Start\n\
         127.0.0.1 x.example\n\
         # FocusBlocker End\n\
         two\n",
    );
    assert_eq!(strip_block(&content), bytes("one\ntwo\n"));
}

#[test]
fn build_block_empty_domains_builds_nothing() {
    assert_eq!(build_block(&domains(&[])), bytes(""));
}

#[test]
fn build_block_has_no_trailing_separator() {
    let expected = "# FocusBlocker Start\n\
                    127.0.0.1 example.com\n\
                    127.0.0.1 www.example.com\n\
                    # FocusBlocker End";
    assert_eq!(build_block(&domains(&["example.com"])), bytes(expected));
}

#[test]
fn ensure_integrity_accepts_intact_file() {
    let ds = domains(&["example.com"]);
    let content = apply(&bytes("127.0.0.1 localhost\n"), &ds);
    assert_eq!(ensure_integrity(&content, &ds), None);
}

#[test]
fn ensure_integrity_rebuilds_tampered_file() {
    let ds = domains(&["example.com"]);
    let tampered = bytes("127.0.0.1 localhost\n");
    let rebuilt = ensure_integrity(&tampered, &ds);
    assert_eq!(rebuilt, Some(apply(&tampered, &ds)));
}

#[test]
fn ensure_integrity_skips_empty_domain_list() {
    let content = bytes("anything, even without markers\n");
    assert_eq!(ensure_integrity(&content, &domains(&[])), None);
}

#[test]
fn ensure_integrity_notices_missing_domain_line() {
    let ds_old = domains(&["example.com"]);
    let content = apply(&bytes(""), &ds_old);
    let ds_new = domains(&["example.com", "other.example"]);
    let rebuilt = ensure_integrity(&content, &ds_new);
    assert_eq!(rebuilt, Some(apply(&content, &ds_new)));
}

#[test]
fn domains_to_bytes_encodes_each_domain() {
    let ds = vec!["example.com".to_string(), "news.site".to_string()];
    assert_eq!(domains_to_bytes(&ds), domains(&["example.com", "news.site"]));
}
