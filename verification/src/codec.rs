//! The persistence format of the configuration document: one JSON object.
//!
//! The encoder writes the canonical form: every current-schema field, in a
//! fixed order, with `null` for an absent section and nothing for the
//! legacy fields. The decoder reads any JSON shape of the document:
//! whitespace anywhere between tokens, members in any order, unknown
//! members ignored, and the legacy fields (`active`, `strict_mode`,
//! `block_youtube_fallback`) accepted for migration. Reading and writing
//! the file itself happens outside the library.

use crate::config::Config;
use crate::config::ConfigView;
use crate::config::GlobalSettings;
use crate::config::Mode;
use crate::config::RulesView;
use crate::config::SessionState;
use crate::config::SessionView;
use crate::config::SettingsView;
use crate::config::YoutubeRules;
use crate::hosts::bytes_eq;
use crate::hosts::push_all;
use vstd::prelude::*;
use vstd::utf8::encode_utf8;

verus! {

pub const QUOTE: u8 = 34;
pub const COMMA: u8 = 44;
pub const COLON: u8 = 58;
pub const LBRACKET: u8 = 91;
pub const RBRACKET: u8 = 93;
pub const BACKSLASH: u8 = 92;
pub const LBRACE: u8 = 123;
pub const RBRACE: u8 = 125;

/// The bytes of `password_hash`.
pub open spec fn key_password_hash() -> Seq<u8> {
    seq![112, 97, 115, 115, 119, 111, 114, 100, 95, 104, 97, 115, 104]
}

/// The bytes of `blocked_domains`.
pub open spec fn key_blocked_domains() -> Seq<u8> {
    seq![98, 108, 111, 99, 107, 101, 100, 95, 100, 111, 109, 97, 105, 110, 115]
}

/// The bytes of `session`.
pub open spec fn key_session() -> Seq<u8> {
    seq![115, 101, 115, 115, 105, 111, 110]
}

/// The bytes of `youtube_rules`.
pub open spec fn key_youtube_rules() -> Seq<u8> {
    seq![121, 111, 117, 116, 117, 98, 101, 95, 114, 117, 108, 101, 115]
}

/// The bytes of `global_settings`.
pub open spec fn key_global_settings() -> Seq<u8> {
    seq![103, 108, 111, 98, 97, 108, 95, 115, 101, 116, 116, 105, 110, 103, 115]
}

/// The bytes of `mode`.
pub open spec fn key_mode() -> Seq<u8> {
    seq![109, 111, 100, 101]
}

/// The bytes of `start_time`.
pub open spec fn key_start_time() -> Seq<u8> {
    seq![115, 116, 97, 114, 116, 95, 116, 105, 109, 101]
}

/// The bytes of `end_time`.
pub open spec fn key_end_time() -> Seq<u8> {
    seq![101, 110, 100, 95, 116, 105, 109, 101]
}

/// The bytes of `locked`.
pub open spec fn key_locked() -> Seq<u8> {
    seq![108, 111, 99, 107, 101, 100]
}

/// The bytes of `scheduled_id`.
pub open spec fn key_scheduled_id() -> Seq<u8> {
    seq![115, 99, 104, 101, 100, 117, 108, 101, 100, 95, 105, 100]
}

/// The bytes of `active`.
pub open spec fn key_active() -> Seq<u8> {
    seq![97, 99, 116, 105, 118, 101]
}

/// The bytes of `blocked_channels`.
pub open spec fn key_blocked_channels() -> Seq<u8> {
    seq![98, 108, 111, 99, 107, 101, 100, 95, 99, 104, 97, 110, 110, 101, 108, 115]
}

/// The bytes of `allowed_channels`.
pub open spec fn key_allowed_channels() -> Seq<u8> {
    seq![97, 108, 108, 111, 119, 101, 100, 95, 99, 104, 97, 110, 110, 101, 108, 115]
}

/// The bytes of `default_mode`.
pub open spec fn key_default_mode() -> Seq<u8> {
    seq![100, 101, 102, 97, 117, 108, 116, 95, 109, 111, 100, 101]
}

/// The bytes of `block_all_channels`.
pub open spec fn key_block_all_channels() -> Seq<u8> {
    seq![98, 108, 111, 99, 107, 95, 97, 108, 108, 95, 99, 104, 97, 110, 110, 101, 108, 115]
}

/// The bytes of `session_duration_minutes`.
pub open spec fn key_session_duration_minutes() -> Seq<u8> {
    seq![115, 101, 115, 115, 105, 111, 110, 95, 100, 117, 114, 97, 116, 105, 111, 110, 95, 109, 105, 110, 117, 116, 101, 115]
}

/// The bytes of `strict_mode`.
pub open spec fn key_strict_mode() -> Seq<u8> {
    seq![115, 116, 114, 105, 99, 116, 95, 109, 111, 100, 101]
}

/// The bytes of `block_youtube_fallback`.
pub open spec fn key_block_youtube_fallback() -> Seq<u8> {
    seq![98, 108, 111, 99, 107, 95, 121, 111, 117, 116, 117, 98, 101, 95, 102, 97, 108, 108, 98, 97, 99, 107]
}

/// The bytes of `off`.
pub open spec fn word_off() -> Seq<u8> {
    seq![111, 102, 102]
}

/// The bytes of `precision`.
pub open spec fn word_precision() -> Seq<u8> {
    seq![112, 114, 101, 99, 105, 115, 105, 111, 110]
}

/// The bytes of `strict`.
pub open spec fn word_strict() -> Seq<u8> {
    seq![115, 116, 114, 105, 99, 116]
}

/// The bytes of `true`.
pub open spec fn word_true() -> Seq<u8> {
    seq![116, 114, 117, 101]
}

/// The bytes of `false`.
pub open spec fn word_false() -> Seq<u8> {
    seq![102, 97, 108, 115, 101]
}

/// The bytes of `null`.
pub open spec fn word_null() -> Seq<u8> {
    seq![110, 117, 108, 108]
}

// =========================================================================
// The canonical encoding
// =========================================================================

/// A hexadecimal digit, lower case.
pub open spec fn hex_digit(n: int) -> u8 {
    if n < 10 {
        (48 + n) as u8
    } else {
        (87 + n) as u8
    }
}

/// The escape of one byte inside a JSON string: quote and backslash get a
/// backslash, control bytes the `\u00XX` form, every other byte (UTF-8
/// continuation bytes included) passes through.
pub open spec fn esc_byte(b: u8) -> Seq<u8> {
    if b == QUOTE {
        seq![BACKSLASH, QUOTE]
    } else if b == BACKSLASH {
        seq![BACKSLASH, BACKSLASH]
    } else if b < 32 {
        seq![BACKSLASH, 117, 48, 48, hex_digit(b as int / 16), hex_digit(b as int % 16)]
    } else {
        seq![b]
    }
}

/// A byte run escaped for a JSON string.
pub open spec fn escape_bytes(s: Seq<u8>) -> Seq<u8>
    decreases s.len(),
{
    if s.len() == 0 {
        Seq::empty()
    } else {
        esc_byte(s[0]) + escape_bytes(s.drop_first())
    }
}

/// A JSON string: the quoted, escaped UTF-8 bytes of the characters.
pub open spec fn enc_str(s: Seq<char>) -> Seq<u8> {
    seq![QUOTE] + escape_bytes(encode_utf8(s)) + seq![QUOTE]
}

/// The decimal digits of a number.
pub open spec fn dec_digits(n: u64) -> Seq<u8>
    decreases n,
{
    if n < 10 {
        seq![(48 + n) as u8]
    } else {
        dec_digits(n / 10).push((48 + (n % 10)) as u8)
    }
}

pub open spec fn enc_bool(b: bool) -> Seq<u8> {
    if b {
        word_true()
    } else {
        word_false()
    }
}

pub open spec fn enc_opt_str(o: Option<Seq<char>>) -> Seq<u8> {
    match o {
        Some(s) => enc_str(s),
        None => word_null(),
    }
}

pub open spec fn enc_opt_u64(o: Option<u64>) -> Seq<u8> {
    match o {
        Some(n) => dec_digits(n),
        None => word_null(),
    }
}

/// The comma-separated items of a string list.
pub open spec fn enc_items(ds: Seq<Seq<char>>) -> Seq<u8>
    decreases ds.len(),
{
    if ds.len() == 0 {
        Seq::empty()
    } else if ds.len() == 1 {
        enc_str(ds[0])
    } else {
        enc_str(ds[0]) + seq![COMMA] + enc_items(ds.drop_first())
    }
}

/// A JSON array of strings.
pub open spec fn enc_list(ds: Seq<Seq<char>>) -> Seq<u8> {
    seq![LBRACKET] + enc_items(ds) + seq![RBRACKET]
}

/// The word a mode is stored as.
pub open spec fn mode_word(m: Mode) -> Seq<u8> {
    match m {
        Mode::Off => word_off(),
        Mode::Precision => word_precision(),
        Mode::Strict => word_strict(),
    }
}

/// One object member: the quoted key, a colon, the value.
pub open spec fn enc_member(key: Seq<u8>, val: Seq<u8>) -> Seq<u8> {
    seq![QUOTE] + key + seq![QUOTE, COLON] + val
}

/// The session section; the legacy `active` field is never written.
pub open spec fn enc_session(s: SessionView) -> Seq<u8> {
    seq![LBRACE] + enc_member(key_mode(), seq![QUOTE] + mode_word(s.mode) + seq![QUOTE])
        + seq![COMMA] + enc_member(key_start_time(), enc_opt_u64(s.start_time)) + seq![COMMA]
        + enc_member(key_end_time(), enc_opt_u64(s.end_time)) + seq![COMMA] + enc_member(
        key_locked(),
        enc_bool(s.locked),
    ) + seq![COMMA] + enc_member(key_scheduled_id(), enc_opt_str(s.scheduled_id)) + seq![RBRACE]
}

/// The advisory rules section.
pub open spec fn enc_rules(r: RulesView) -> Seq<u8> {
    seq![LBRACE] + enc_member(key_blocked_channels(), enc_list(r.blocked_channels)) + seq![COMMA]
        + enc_member(key_allowed_channels(), enc_list(r.allowed_channels)) + seq![RBRACE]
}

/// The settings section; the legacy fields are never written.
pub open spec fn enc_settings(g: SettingsView) -> Seq<u8> {
    seq![LBRACE] + enc_member(
        key_default_mode(),
        seq![QUOTE] + mode_word(g.default_mode) + seq![QUOTE],
    ) + seq![COMMA] + enc_member(key_block_all_channels(), enc_bool(g.block_all_channels))
        + seq![COMMA] + enc_member(
        key_session_duration_minutes(),
        dec_digits(g.session_duration_minutes as u64),
    ) + seq![RBRACE]
}

/// The canonical document encoding: every current-schema field in a fixed
/// order, `null` for an absent section, no legacy fields.
pub open spec fn spec_encode(c: ConfigView) -> Seq<u8> {
    seq![LBRACE] + enc_member(key_password_hash(), enc_opt_str(c.password_hash)) + seq![COMMA]
        + enc_member(key_blocked_domains(), enc_list(c.blocked_domains)) + seq![COMMA]
        + enc_member(
        key_session(),
        match c.session {
            Some(s) => enc_session(s),
            None => word_null(),
        },
    ) + seq![COMMA] + enc_member(
        key_youtube_rules(),
        match c.youtube_rules {
            Some(r) => enc_rules(r),
            None => word_null(),
        },
    ) + seq![COMMA] + enc_member(
        key_global_settings(),
        match c.global_settings {
            Some(g) => enc_settings(g),
            None => word_null(),
        },
    ) + seq![RBRACE]
}

/// The bytes of `password_hash`, as a vector.
fn key_password_hash_vec() -> (v: Vec<u8>)
    ensures
        v@ == key_password_hash(),
{
    let mut v: Vec<u8> = Vec::new();
    v.push(112);
    v.push(97);
    v.push(115);
    v.push(115);
    v.push(119);
    v.push(111);
    v.push(114);
    v.push(100);
    v.push(95);
    v.push(104);
    v.push(97);
    v.push(115);
    v.push(104);
    proof {
        assert(v@ =~= key_password_hash());
    }
    v
}

/// The bytes of `blocked_domains`, as a vector.
fn key_blocked_domains_vec() -> (v: Vec<u8>)
    ensures
        v@ == key_blocked_domains(),
{
    let mut v: Vec<u8> = Vec::new();
    v.push(98);
    v.push(108);
    v.push(111);
    v.push(99);
    v.push(107);
    v.push(101);
    v.push(100);
    v.push(95);
    v.push(100);
    v.push(111);
    v.push(109);
    v.push(97);
    v.push(105);
    v.push(110);
    v.push(115);
    proof {
        assert(v@ =~= key_blocked_domains());
    }
    v
}

/// The bytes of `session`, as a vector.
fn key_session_vec() -> (v: Vec<u8>)
    ensures
        v@ == key_session(),
{
    let mut v: Vec<u8> = Vec::new();
    v.push(115);
    v.push(101);
    v.push(115);
    v.push(115);
    v.push(105);
    v.push(111);
    v.push(110);
    proof {
        assert(v@ =~= key_session());
    }
    v
}

/// The bytes of `youtube_rules`, as a vector.
fn key_youtube_rules_vec() -> (v: Vec<u8>)
    ensures
        v@ == key_youtube_rules(),
{
    let mut v: Vec<u8> = Vec::new();
    v.push(121);
    v.push(111);
    v.push(117);
    v.push(116);
    v.push(117);
    v.push(98);
    v.push(101);
    v.push(95);
    v.push(114);
    v.push(117);
    v.push(108);
    v.push(101);
    v.push(115);
    proof {
        assert(v@ =~= key_youtube_rules());
    }
    v
}

/// The bytes of `global_settings`, as a vector.
fn key_global_settings_vec() -> (v: Vec<u8>)
    ensures
        v@ == key_global_settings(),
{
    let mut v: Vec<u8> = Vec::new();
    v.push(103);
    v.push(108);
    v.push(111);
    v.push(98);
    v.push(97);
    v.push(108);
    v.push(95);
    v.push(115);
    v.push(101);
    v.push(116);
    v.push(116);
    v.push(105);
    v.push(110);
    v.push(103);
    v.push(115);
    proof {
        assert(v@ =~= key_global_settings());
    }
    v
}

/// The bytes of `mode`, as a vector.
fn key_mode_vec() -> (v: Vec<u8>)
    ensures
        v@ == key_mode(),
{
    let mut v: Vec<u8> = Vec::new();
    v.push(109);
    v.push(111);
    v.push(100);
    v.push(101);
    proof {
        assert(v@ =~= key_mode());
    }
    v
}

/// The bytes of `start_time`, as a vector.
fn key_start_time_vec() -> (v: Vec<u8>)
    ensures
        v@ == key_start_time(),
{
    let mut v: Vec<u8> = Vec::new();
    v.push(115);
    v.push(116);
    v.push(97);
    v.push(114);
    v.push(116);
    v.push(95);
    v.push(116);
    v.push(105);
    v.push(109);
    v.push(101);
    proof {
        assert(v@ =~= key_start_time());
    }
    v
}

/// The bytes of `end_time`, as a vector.
fn key_end_time_vec() -> (v: Vec<u8>)
    ensures
        v@ == key_end_time(),
{
    let mut v: Vec<u8> = Vec::new();
    v.push(101);
    v.push(110);
    v.push(100);
    v.push(95);
    v.push(116);
    v.push(105);
    v.push(109);
    v.push(101);
    proof {
        assert(v@ =~= key_end_time());
    }
    v
}

/// The bytes of `locked`, as a vector.
fn key_locked_vec() -> (v: Vec<u8>)
    ensures
        v@ == key_locked(),
{
    let mut v: Vec<u8> = Vec::new();
    v.push(108);
    v.push(111);
    v.push(99);
    v.push(107);
    v.push(101);
    v.push(100);
    proof {
        assert(v@ =~= key_locked());
    }
    v
}

/// The bytes of `scheduled_id`, as a vector.
fn key_scheduled_id_vec() -> (v: Vec<u8>)
    ensures
        v@ == key_scheduled_id(),
{
    let mut v: Vec<u8> = Vec::new();
    v.push(115);
    v.push(99);
    v.push(104);
    v.push(101);
    v.push(100);
    v.push(117);
    v.push(108);
    v.push(101);
    v.push(100);
    v.push(95);
    v.push(105);
    v.push(100);
    proof {
        assert(v@ =~= key_scheduled_id());
    }
    v
}

/// The bytes of `active`, as a vector.
fn key_active_vec() -> (v: Vec<u8>)
    ensures
        v@ == key_active(),
{
    let mut v: Vec<u8> = Vec::new();
    v.push(97);
    v.push(99);
    v.push(116);
    v.push(105);
    v.push(118);
    v.push(101);
    proof {
        assert(v@ =~= key_active());
    }
    v
}

/// The bytes of `blocked_channels`, as a vector.
fn key_blocked_channels_vec() -> (v: Vec<u8>)
    ensures
        v@ == key_blocked_channels(),
{
    let mut v: Vec<u8> = Vec::new();
    v.push(98);
    v.push(108);
    v.push(111);
    v.push(99);
    v.push(107);
    v.push(101);
    v.push(100);
    v.push(95);
    v.push(99);
    v.push(104);
    v.push(97);
    v.push(110);
    v.push(110);
    v.push(101);
    v.push(108);
    v.push(115);
    proof {
        assert(v@ =~= key_blocked_channels());
    }
    v
}

/// The bytes of `allowed_channels`, as a vector.
fn key_allowed_channels_vec() -> (v: Vec<u8>)
    ensures
        v@ == key_allowed_channels(),
{
    let mut v: Vec<u8> = Vec::new();
    v.push(97);
    v.push(108);
    v.push(108);
    v.push(111);
    v.push(119);
    v.push(101);
    v.push(100);
    v.push(95);
    v.push(99);
    v.push(104);
    v.push(97);
    v.push(110);
    v.push(110);
    v.push(101);
    v.push(108);
    v.push(115);
    proof {
        assert(v@ =~= key_allowed_channels());
    }
    v
}

/// The bytes of `default_mode`, as a vector.
fn key_default_mode_vec() -> (v: Vec<u8>)
    ensures
        v@ == key_default_mode(),
{
    let mut v: Vec<u8> = Vec::new();
    v.push(100);
    v.push(101);
    v.push(102);
    v.push(97);
    v.push(117);
    v.push(108);
    v.push(116);
    v.push(95);
    v.push(109);
    v.push(111);
    v.push(100);
    v.push(101);
    proof {
        assert(v@ =~= key_default_mode());
    }
    v
}

/// The bytes of `block_all_channels`, as a vector.
fn key_block_all_channels_vec() -> (v: Vec<u8>)
    ensures
        v@ == key_block_all_channels(),
{
    let mut v: Vec<u8> = Vec::new();
    v.push(98);
    v.push(108);
    v.push(111);
    v.push(99);
    v.push(107);
    v.push(95);
    v.push(97);
    v.push(108);
    v.push(108);
    v.push(95);
    v.push(99);
    v.push(104);
    v.push(97);
    v.push(110);
    v.push(110);
    v.push(101);
    v.push(108);
    v.push(115);
    proof {
        assert(v@ =~= key_block_all_channels());
    }
    v
}

/// The bytes of `session_duration_minutes`, as a vector.
fn key_session_duration_minutes_vec() -> (v: Vec<u8>)
    ensures
        v@ == key_session_duration_minutes(),
{
    let mut v: Vec<u8> = Vec::new();
    v.push(115);
    v.push(101);
    v.push(115);
    v.push(115);
    v.push(105);
    v.push(111);
    v.push(110);
    v.push(95);
    v.push(100);
    v.push(117);
    v.push(114);
    v.push(97);
    v.push(116);
    v.push(105);
    v.push(111);
    v.push(110);
    v.push(95);
    v.push(109);
    v.push(105);
    v.push(110);
    v.push(117);
    v.push(116);
    v.push(101);
    v.push(115);
    proof {
        assert(v@ =~= key_session_duration_minutes());
    }
    v
}

/// The bytes of `strict_mode`, as a vector.
fn key_strict_mode_vec() -> (v: Vec<u8>)
    ensures
        v@ == key_strict_mode(),
{
    let mut v: Vec<u8> = Vec::new();
    v.push(115);
    v.push(116);
    v.push(114);
    v.push(105);
    v.push(99);
    v.push(116);
    v.push(95);
    v.push(109);
    v.push(111);
    v.push(100);
    v.push(101);
    proof {
        assert(v@ =~= key_strict_mode());
    }
    v
}

/// The bytes of `block_youtube_fallback`, as a vector.
fn key_block_youtube_fallback_vec() -> (v: Vec<u8>)
    ensures
        v@ == key_block_youtube_fallback(),
{
    let mut v: Vec<u8> = Vec::new();
    v.push(98);
    v.push(108);
    v.push(111);
    v.push(99);
    v.push(107);
    v.push(95);
    v.push(121);
    v.push(111);
    v.push(117);
    v.push(116);
    v.push(117);
    v.push(98);
    v.push(101);
    v.push(95);
    v.push(102);
    v.push(97);
    v.push(108);
    v.push(108);
    v.push(98);
    v.push(97);
    v.push(99);
    v.push(107);
    proof {
        assert(v@ =~= key_block_youtube_fallback());
    }
    v
}

/// The bytes of `off`, as a vector.
fn word_off_vec() -> (v: Vec<u8>)
    ensures
        v@ == word_off(),
{
    let mut v: Vec<u8> = Vec::new();
    v.push(111);
    v.push(102);
    v.push(102);
    proof {
        assert(v@ =~= word_off());
    }
    v
}

/// The bytes of `precision`, as a vector.
fn word_precision_vec() -> (v: Vec<u8>)
    ensures
        v@ == word_precision(),
{
    let mut v: Vec<u8> = Vec::new();
    v.push(112);
    v.push(114);
    v.push(101);
    v.push(99);
    v.push(105);
    v.push(115);
    v.push(105);
    v.push(111);
    v.push(110);
    proof {
        assert(v@ =~= word_precision());
    }
    v
}

/// The bytes of `strict`, as a vector.
fn word_strict_vec() -> (v: Vec<u8>)
    ensures
        v@ == word_strict(),
{
    let mut v: Vec<u8> = Vec::new();
    v.push(115);
    v.push(116);
    v.push(114);
    v.push(105);
    v.push(99);
    v.push(116);
    proof {
        assert(v@ =~= word_strict());
    }
    v
}

/// The bytes of `true`, as a vector.
fn word_true_vec() -> (v: Vec<u8>)
    ensures
        v@ == word_true(),
{
    let mut v: Vec<u8> = Vec::new();
    v.push(116);
    v.push(114);
    v.push(117);
    v.push(101);
    proof {
        assert(v@ =~= word_true());
    }
    v
}

/// The bytes of `false`, as a vector.
fn word_false_vec() -> (v: Vec<u8>)
    ensures
        v@ == word_false(),
{
    let mut v: Vec<u8> = Vec::new();
    v.push(102);
    v.push(97);
    v.push(108);
    v.push(115);
    v.push(101);
    proof {
        assert(v@ =~= word_false());
    }
    v
}

/// The bytes of `null`, as a vector.
fn word_null_vec() -> (v: Vec<u8>)
    ensures
        v@ == word_null(),
{
    let mut v: Vec<u8> = Vec::new();
    v.push(110);
    v.push(117);
    v.push(108);
    v.push(108);
    proof {
        assert(v@ =~= word_null());
    }
    v
}

// =========================================================================
// The executable encoder
// =========================================================================

proof fn lemma_escape_push(s: Seq<u8>, b: u8)
    ensures
        escape_bytes(s.push(b)) == escape_bytes(s) + esc_byte(b),
    decreases s.len(),
{
    if s.len() == 0 {
        assert(s.push(b)[0] == b);
        assert(s.push(b).drop_first() =~= Seq::<u8>::empty());
        assert(escape_bytes(s.push(b)) == esc_byte(b) + escape_bytes(Seq::<u8>::empty()));
        assert(esc_byte(b) + Seq::<u8>::empty() =~= esc_byte(b));
        assert(escape_bytes(s) + esc_byte(b) =~= esc_byte(b));
    } else {
        lemma_escape_push(s.drop_first(), b);
        assert(s.push(b)[0] == s[0]);
        assert(s.push(b).drop_first() =~= s.drop_first().push(b));
        assert(esc_byte(s[0]) + (escape_bytes(s.drop_first()) + esc_byte(b)) =~= escape_bytes(s)
            + esc_byte(b));
    }
}

/// A hexadecimal digit, lower case.
fn hex_digit_byte(n: u8) -> (r: u8)
    requires
        n < 16,
    ensures
        r == hex_digit(n as int),
{
    if n < 10 {
        48 + n
    } else {
        87 + n
    }
}

/// Appends one JSON string: quoted, escaped UTF-8.
fn push_json_string(out: &mut Vec<u8>, s: &String)
    ensures
        final(out)@ == old(out)@ + enc_str(s@),
{
    out.push(QUOTE);
    let bs = vstd::slice::slice_to_vec(s.as_str().as_bytes());
    let n = bs.len();
    let mut i: usize = 0;
    proof {
        assert(bs@.take(0) =~= Seq::<u8>::empty());
        assert(old(out)@.push(QUOTE) =~= old(out)@ + seq![QUOTE] + escape_bytes(bs@.take(0)));
    }
    while i < n
        invariant
            0 <= i <= n == bs@.len(),
            out@ == old(out)@ + seq![QUOTE] + escape_bytes(bs@.take(i as int)),
        decreases n - i,
    {
        let ghost done = bs@.take(i as int);
        let b = bs[i];
        if b == QUOTE {
            out.push(BACKSLASH);
            out.push(QUOTE);
        } else if b == BACKSLASH {
            out.push(BACKSLASH);
            out.push(BACKSLASH);
        } else if b < 32 {
            out.push(BACKSLASH);
            out.push(117);
            out.push(48);
            out.push(48);
            out.push(hex_digit_byte(b / 16));
            out.push(hex_digit_byte(b % 16));
        } else {
            out.push(b);
        }
        proof {
            lemma_escape_push(done, b);
            assert(done.push(b) =~= bs@.take(i + 1));
            assert(out@ =~= old(out)@ + seq![QUOTE] + escape_bytes(bs@.take(i + 1)));
        }
        i = i + 1;
    }
    out.push(QUOTE);
    proof {
        assert(bs@.take(n as int) =~= bs@);
        assert(out@ =~= old(out)@ + enc_str(s@));
    }
}

/// Appends the decimal digits of a number.
fn push_u64(out: &mut Vec<u8>, n: u64)
    ensures
        final(out)@ == old(out)@ + dec_digits(n),
    decreases n,
{
    if n < 10 {
        out.push(48 + n as u8);
        proof {
            assert(out@ =~= old(out)@ + dec_digits(n));
        }
    } else {
        push_u64(out, n / 10);
        out.push(48 + (n % 10) as u8);
        proof {
            assert(out@ =~= old(out)@ + dec_digits(n));
        }
    }
}

/// Appends `null`.
fn push_null(out: &mut Vec<u8>)
    ensures
        final(out)@ == old(out)@ + word_null(),
{
    let w = word_null_vec();
    push_all(out, &w);
}

/// Appends `true` or `false`.
fn push_bool(out: &mut Vec<u8>, b: bool)
    ensures
        final(out)@ == old(out)@ + enc_bool(b),
{
    let w = if b {
        word_true_vec()
    } else {
        word_false_vec()
    };
    push_all(out, &w);
}

/// Appends a quoted key and its colon.
fn push_key(out: &mut Vec<u8>, key: &Vec<u8>)
    ensures
        final(out)@ == old(out)@ + seq![QUOTE] + key@ + seq![QUOTE, COLON],
{
    out.push(QUOTE);
    push_all(out, key);
    out.push(QUOTE);
    out.push(COLON);
    proof {
        assert(out@ =~= old(out)@ + seq![QUOTE] + key@ + seq![QUOTE, COLON]);
    }
}

proof fn lemma_enc_items_push(ds: Seq<Seq<char>>, d: Seq<char>)
    ensures
        enc_items(ds.push(d)) == if ds.len() == 0 {
            enc_str(d)
        } else {
            enc_items(ds) + seq![COMMA] + enc_str(d)
        },
    decreases ds.len(),
{
    if ds.len() == 0 {
        assert(ds.push(d)[0] == d);
        assert(ds.push(d).len() == 1);
    } else {
        lemma_enc_items_push(ds.drop_first(), d);
        assert(ds.push(d)[0] == ds[0]);
        assert(ds.push(d).drop_first() =~= ds.drop_first().push(d));
        if ds.len() == 1 {
            assert(enc_items(ds.push(d)) == enc_str(ds[0]) + seq![COMMA] + enc_items(
                ds.drop_first().push(d),
            ));
            assert(enc_items(ds.drop_first().push(d)) == enc_str(d));
            assert(enc_str(ds[0]) + seq![COMMA] + enc_str(d) =~= enc_items(ds) + seq![COMMA]
                + enc_str(d));
        } else {
            assert(enc_str(ds[0]) + seq![COMMA] + (enc_items(ds.drop_first()) + seq![COMMA]
                + enc_str(d)) =~= enc_items(ds) + seq![COMMA] + enc_str(d));
        }
    }
}

/// Appends a JSON array of strings.
fn push_list(out: &mut Vec<u8>, ds: &Vec<String>)
    ensures
        final(out)@ == old(out)@ + enc_list(ds.deep_view()),
{
    out.push(LBRACKET);
    let n = ds.len();
    let mut i: usize = 0;
    proof {
        assert(ds.deep_view().take(0) =~= Seq::<Seq<char>>::empty());
        assert(out@ =~= old(out)@ + seq![LBRACKET] + enc_items(ds.deep_view().take(0)));
    }
    while i < n
        invariant
            0 <= i <= n == ds@.len(),
            out@ == old(out)@ + seq![LBRACKET] + enc_items(ds.deep_view().take(i as int)),
        decreases n - i,
    {
        let ghost done = ds.deep_view().take(i as int);
        if i > 0 {
            out.push(COMMA);
        }
        push_json_string(out, &ds[i]);
        proof {
            assert(ds.deep_view()[i as int] == ds@[i as int]@);
            lemma_enc_items_push(done, ds.deep_view()[i as int]);
            assert(done.push(ds.deep_view()[i as int]) =~= ds.deep_view().take(i + 1));
            assert(out@ =~= old(out)@ + seq![LBRACKET] + enc_items(ds.deep_view().take(i + 1)));
        }
        i = i + 1;
    }
    out.push(RBRACKET);
    proof {
        assert(ds.deep_view().take(n as int) =~= ds.deep_view());
        assert(out@ =~= old(out)@ + enc_list(ds.deep_view()));
    }
}

/// Appends an optional string value.
fn push_opt_str(out: &mut Vec<u8>, o: &Option<String>)
    ensures
        final(out)@ == old(out)@ + enc_opt_str(
            match o {
                Some(s) => Some(s@),
                None => None,
            },
        ),
{
    match o {
        Some(s) => push_json_string(out, s),
        None => push_null(out),
    }
}

/// Appends an optional number value.
fn push_opt_u64(out: &mut Vec<u8>, o: Option<u64>)
    ensures
        final(out)@ == old(out)@ + enc_opt_u64(o),
{
    match o {
        Some(n) => push_u64(out, n),
        None => push_null(out),
    }
}

/// Appends a quoted mode word.
fn push_mode(out: &mut Vec<u8>, m: Mode)
    ensures
        final(out)@ == old(out)@ + seq![QUOTE] + mode_word(m) + seq![QUOTE],
{
    out.push(QUOTE);
    let w = match m {
        Mode::Off => word_off_vec(),
        Mode::Precision => word_precision_vec(),
        Mode::Strict => word_strict_vec(),
    };
    push_all(out, &w);
    out.push(QUOTE);
    proof {
        assert(out@ =~= old(out)@ + seq![QUOTE] + mode_word(m) + seq![QUOTE]);
    }
}

/// Appends the session section.
#[verifier::rlimit(100)]
fn push_session(out: &mut Vec<u8>, s: &SessionState)
    ensures
        final(out)@ == old(out)@ + enc_session(s@),
{
    out.push(LBRACE);
    let k_mode = key_mode_vec();
    push_key(out, &k_mode);
    push_mode(out, s.mode);
    out.push(COMMA);
    let k_start = key_start_time_vec();
    push_key(out, &k_start);
    push_opt_u64(out, s.start_time);
    out.push(COMMA);
    let k_end = key_end_time_vec();
    push_key(out, &k_end);
    push_opt_u64(out, s.end_time);
    out.push(COMMA);
    let k_locked = key_locked_vec();
    push_key(out, &k_locked);
    push_bool(out, s.locked);
    out.push(COMMA);
    let k_sched = key_scheduled_id_vec();
    push_key(out, &k_sched);
    push_opt_str(out, &s.scheduled_id);
    out.push(RBRACE);
    proof {
        let m1 = enc_member(key_mode(), seq![QUOTE] + mode_word(s.mode) + seq![QUOTE]);
        let m2 = enc_member(key_start_time(), enc_opt_u64(s.start_time));
        let m3 = enc_member(key_end_time(), enc_opt_u64(s.end_time));
        let m4 = enc_member(key_locked(), enc_bool(s.locked));
        let m5 = enc_member(key_scheduled_id(), enc_opt_str(s@.scheduled_id));
        assert(enc_session(s@) == seq![LBRACE] + m1 + seq![COMMA] + m2 + seq![COMMA] + m3
            + seq![COMMA] + m4 + seq![COMMA] + m5 + seq![RBRACE]);
        assert(out@ =~= old(out)@ + (seq![LBRACE] + m1 + seq![COMMA] + m2 + seq![COMMA] + m3
            + seq![COMMA] + m4 + seq![COMMA] + m5 + seq![RBRACE]));
    }
}

/// Appends the advisory rules section.
#[verifier::rlimit(60)]
fn push_rules(out: &mut Vec<u8>, r: &YoutubeRules)
    ensures
        final(out)@ == old(out)@ + enc_rules(r@),
{
    out.push(LBRACE);
    let k_blocked = key_blocked_channels_vec();
    push_key(out, &k_blocked);
    push_list(out, &r.blocked_channels);
    out.push(COMMA);
    let k_allowed = key_allowed_channels_vec();
    push_key(out, &k_allowed);
    push_list(out, &r.allowed_channels);
    out.push(RBRACE);
    proof {
        assert(out@ =~= old(out)@ + enc_rules(r@));
    }
}

/// Appends the settings section.
#[verifier::rlimit(60)]
fn push_settings(out: &mut Vec<u8>, g: &GlobalSettings)
    ensures
        final(out)@ == old(out)@ + enc_settings(g@),
{
    out.push(LBRACE);
    let k_mode = key_default_mode_vec();
    push_key(out, &k_mode);
    push_mode(out, g.default_mode);
    out.push(COMMA);
    let k_all = key_block_all_channels_vec();
    push_key(out, &k_all);
    push_bool(out, g.block_all_channels);
    out.push(COMMA);
    let k_dur = key_session_duration_minutes_vec();
    push_key(out, &k_dur);
    push_u64(out, g.session_duration_minutes as u64);
    out.push(RBRACE);
    proof {
        assert(out@ =~= old(out)@ + enc_settings(g@));
    }
}

/// Serializes the document into its canonical JSON bytes.
#[verifier::rlimit(100)]
pub fn encode_config(c: &Config) -> (out: Vec<u8>)
    ensures
        out@ == spec_encode(c@),
{
    let mut m1: Vec<u8> = Vec::new();
    let k_hash = key_password_hash_vec();
    push_key(&mut m1, &k_hash);
    push_opt_str(&mut m1, &c.password_hash);
    proof {
        assert(m1@ =~= enc_member(
            key_password_hash(),
            enc_opt_str(
                match c.password_hash {
                    Some(ref s) => Some(s@),
                    None => None,
                },
            ),
        ));
    }
    let mut m2: Vec<u8> = Vec::new();
    let k_domains = key_blocked_domains_vec();
    push_key(&mut m2, &k_domains);
    push_list(&mut m2, &c.blocked_domains);
    proof {
        assert(m2@ =~= enc_member(key_blocked_domains(), enc_list(c@.blocked_domains)));
    }
    let mut m3: Vec<u8> = Vec::new();
    let k_session = key_session_vec();
    push_key(&mut m3, &k_session);
    match &c.session {
        Some(v) => push_session(&mut m3, v),
        None => push_null(&mut m3),
    }
    proof {
        assert(m3@ =~= enc_member(
            key_session(),
            match c@.session {
                Some(v) => enc_session(v),
                None => word_null(),
            },
        ));
    }
    let mut m4: Vec<u8> = Vec::new();
    let k_rules = key_youtube_rules_vec();
    push_key(&mut m4, &k_rules);
    match &c.youtube_rules {
        Some(r) => push_rules(&mut m4, r),
        None => push_null(&mut m4),
    }
    proof {
        assert(m4@ =~= enc_member(
            key_youtube_rules(),
            match c@.youtube_rules {
                Some(r) => enc_rules(r),
                None => word_null(),
            },
        ));
    }
    let mut m5: Vec<u8> = Vec::new();
    let k_settings = key_global_settings_vec();
    push_key(&mut m5, &k_settings);
    match &c.global_settings {
        Some(g) => push_settings(&mut m5, g),
        None => push_null(&mut m5),
    }
    proof {
        assert(m5@ =~= enc_member(
            key_global_settings(),
            match c@.global_settings {
                Some(g) => enc_settings(g),
                None => word_null(),
            },
        ));
    }
    let mut out: Vec<u8> = Vec::new();
    out.push(LBRACE);
    proof {
        assert(out@ =~= seq![LBRACE]);
    }
    push_all(&mut out, &m1);
    out.push(COMMA);
    proof {
        assert(out@ =~= seq![LBRACE] + m1@ + seq![COMMA]);
    }
    push_all(&mut out, &m2);
    out.push(COMMA);
    proof {
        assert(out@ =~= seq![LBRACE] + m1@ + seq![COMMA] + m2@ + seq![COMMA]);
    }
    push_all(&mut out, &m3);
    out.push(COMMA);
    proof {
        assert(out@ =~= seq![LBRACE] + m1@ + seq![COMMA] + m2@ + seq![COMMA] + m3@ + seq![COMMA]);
    }
    push_all(&mut out, &m4);
    out.push(COMMA);
    proof {
        assert(out@ =~= seq![LBRACE] + m1@ + seq![COMMA] + m2@ + seq![COMMA] + m3@ + seq![COMMA]
            + m4@ + seq![COMMA]);
    }
    push_all(&mut out, &m5);
    out.push(RBRACE);
    proof {
        assert(out@ =~= seq![LBRACE] + m1@ + seq![COMMA] + m2@ + seq![COMMA] + m3@ + seq![COMMA]
            + m4@ + seq![COMMA] + m5@ + seq![RBRACE]);
        assert(out@ == spec_encode(c@));
    }
    out
}

// =========================================================================
// The parser, at the specification level
// =========================================================================

/// JSON whitespace.
pub open spec fn is_json_ws(b: u8) -> bool {
    b == 32 || b == 9 || b == 10 || b == 13
}

/// The first position at or after `pos` that holds no whitespace.
pub open spec fn skip_ws(s: Seq<u8>, pos: int) -> int
    decreases s.len() - pos,
{
    if pos < 0 || pos >= s.len() {
        pos
    } else if is_json_ws(s[pos]) {
        skip_ws(s, pos + 1)
    } else {
        pos
    }
}

/// Whether the bytes at `pos` are exactly `lit`.
pub open spec fn has_lit(s: Seq<u8>, pos: int, lit: Seq<u8>) -> bool {
    0 <= pos && pos + lit.len() <= s.len() && s.subrange(pos, pos + lit.len() as int) == lit
}

pub open spec fn is_digit(b: u8) -> bool {
    48 <= b <= 57
}

/// The end of the digit run starting at `pos`.
pub open spec fn digits_end(s: Seq<u8>, pos: int) -> int
    decreases s.len() - pos,
{
    if pos < 0 || pos >= s.len() {
        pos
    } else if is_digit(s[pos]) {
        digits_end(s, pos + 1)
    } else {
        pos
    }
}

/// The value of the digit run `s[pos..end]`.
pub open spec fn digits_value(s: Seq<u8>, pos: int, end: int) -> int
    decreases end - pos,
{
    if pos >= end {
        0
    } else {
        digits_value(s, pos, end - 1) * 10 + (s[end - 1] - 48)
    }
}

/// A JSON number restricted to the document's shape: a plain digit run
/// that fits the type.
pub open spec fn parse_u64(s: Seq<u8>, pos: int) -> Option<(u64, int)> {
    let end = digits_end(s, pos);
    if end == pos {
        None
    } else if digits_value(s, pos, end) > u64::MAX {
        None
    } else {
        Some((digits_value(s, pos, end) as u64, end))
    }
}

/// The value of a hexadecimal digit, or a negative number.
pub open spec fn hex_val(b: u8) -> int {
    if 48 <= b <= 57 {
        b - 48
    } else if 97 <= b <= 102 {
        b - 87
    } else if 65 <= b <= 70 {
        b - 55
    } else {
        -1
    }
}

/// The UTF-8 bytes of a scalar value below 0x10000.
pub open spec fn utf8_of_scalar16(v: int) -> Seq<u8> {
    if v < 0x80 {
        seq![v as u8]
    } else if v < 0x800 {
        seq![(0xC0 + v / 64) as u8, (0x80 + v % 64) as u8]
    } else {
        seq![(0xE0 + v / 4096) as u8, (0x80 + (v / 64) % 64) as u8, (0x80 + v % 64) as u8]
    }
}

/// The body of a JSON string from just after the opening quote: the
/// unescaped payload bytes and the position after the closing quote.
/// Escapes cover the two mandatory ones, the solidus, the control-byte
/// shorthands, and `\uXXXX` for any scalar of the basic plane; surrogate
/// halves are refused, so characters outside that plane must stand raw.
pub open spec fn str_body(s: Seq<u8>, pos: int) -> Option<(Seq<u8>, int)>
    decreases s.len() - pos,
{
    if pos < 0 || pos >= s.len() {
        None
    } else if s[pos] == QUOTE {
        Some((Seq::empty(), pos + 1))
    } else if s[pos] == BACKSLASH {
        if pos + 1 >= s.len() {
            None
        } else {
            let e = s[pos + 1];
            if e == QUOTE || e == BACKSLASH || e == 47 {
                match str_body(s, pos + 2) {
                    Some(rest) => Some((seq![e] + rest.0, rest.1)),
                    None => None,
                }
            } else if e == 110 || e == 116 || e == 114 || e == 98 || e == 102 {
                let c: u8 = if e == 110 {
                    10
                } else if e == 116 {
                    9
                } else if e == 114 {
                    13
                } else if e == 98 {
                    8
                } else {
                    12
                };
                match str_body(s, pos + 2) {
                    Some(rest) => Some((seq![c] + rest.0, rest.1)),
                    None => None,
                }
            } else if e == 117 {
                if pos + 6 > s.len() {
                    None
                } else {
                    let v = hex_val(s[pos + 2]) * 4096 + hex_val(s[pos + 3]) * 256 + hex_val(
                        s[pos + 4],
                    ) * 16 + hex_val(s[pos + 5]);
                    if hex_val(s[pos + 2]) < 0 || hex_val(s[pos + 3]) < 0 || hex_val(s[pos + 4])
                        < 0 || hex_val(s[pos + 5]) < 0 || (0xD800 <= v < 0xE000) {
                        None
                    } else {
                        match str_body(s, pos + 6) {
                            Some(rest) => Some((utf8_of_scalar16(v) + rest.0, rest.1)),
                            None => None,
                        }
                    }
                }
            } else {
                None
            }
        }
    } else {
        match str_body(s, pos + 1) {
            Some(rest) => Some((seq![s[pos]] + rest.0, rest.1)),
            None => None,
        }
    }
}

/// A JSON string as characters: quoted, escaped, valid UTF-8.
pub open spec fn parse_string(s: Seq<u8>, pos: int) -> Option<(Seq<char>, int)> {
    if 0 <= pos < s.len() && s[pos] == QUOTE {
        match str_body(s, pos + 1) {
            Some(body) => if vstd::utf8::valid_utf8(body.0) {
                Some((vstd::utf8::decode_utf8(body.0), body.1))
            } else {
                None
            },
            None => None,
        }
    } else {
        None
    }
}

/// `null` or a string.
pub open spec fn parse_opt_string(s: Seq<u8>, pos: int) -> Option<(Option<Seq<char>>, int)> {
    if has_lit(s, pos, word_null()) {
        Some((None, pos + word_null().len()))
    } else {
        match parse_string(s, pos) {
            Some(r) => Some((Some(r.0), r.1)),
            None => None,
        }
    }
}

/// `null` or a number.
pub open spec fn parse_opt_u64(s: Seq<u8>, pos: int) -> Option<(Option<u64>, int)> {
    if has_lit(s, pos, word_null()) {
        Some((None, pos + word_null().len()))
    } else {
        match parse_u64(s, pos) {
            Some(r) => Some((Some(r.0), r.1)),
            None => None,
        }
    }
}

/// `true` or `false`.
pub open spec fn parse_bool(s: Seq<u8>, pos: int) -> Option<(bool, int)> {
    if has_lit(s, pos, word_true()) {
        Some((true, pos + word_true().len()))
    } else if has_lit(s, pos, word_false()) {
        Some((false, pos + word_false().len()))
    } else {
        None
    }
}

/// `null`, `true` or `false`.
pub open spec fn parse_opt_bool(s: Seq<u8>, pos: int) -> Option<(Option<bool>, int)> {
    if has_lit(s, pos, word_null()) {
        Some((None, pos + word_null().len()))
    } else {
        match parse_bool(s, pos) {
            Some(r) => Some((Some(r.0), r.1)),
            None => None,
        }
    }
}

/// A quoted mode word.
pub open spec fn parse_mode(s: Seq<u8>, pos: int) -> Option<(Mode, int)> {
    match parse_string(s, pos) {
        Some(r) => {
            let w = encode_utf8(r.0);
            if w == word_off() {
                Some((Mode::Off, r.1))
            } else if w == word_precision() {
                Some((Mode::Precision, r.1))
            } else if w == word_strict() {
                Some((Mode::Strict, r.1))
            } else {
                None
            }
        },
        None => None,
    }
}

/// A quoted active mode word: `off` is refused where a default is stored.
pub open spec fn parse_default_mode(s: Seq<u8>, pos: int) -> Option<(Mode, int)> {
    match parse_mode(s, pos) {
        Some(r) => if r.0 == Mode::Off {
            None
        } else {
            Some(r)
        },
        None => None,
    }
}

/// The items of a string array after the opening bracket and first item's
/// leading whitespace.
pub open spec fn parse_items(s: Seq<u8>, pos: int, acc: Seq<Seq<char>>, fuel: nat) -> Option<
    (Seq<Seq<char>>, int),
>
    decreases fuel,
{
    if fuel == 0 {
        None
    } else {
        match parse_string(s, pos) {
            None => None,
            Some(item) => {
                let p = skip_ws(s, item.1);
                if 0 <= p < s.len() && s[p] == COMMA {
                    parse_items(s, skip_ws(s, p + 1), acc.push(item.0), (fuel - 1) as nat)
                } else if 0 <= p < s.len() && s[p] == RBRACKET {
                    Some((acc.push(item.0), p + 1))
                } else {
                    None
                }
            },
        }
    }
}

/// A JSON array of strings.
pub open spec fn parse_str_list(s: Seq<u8>, pos: int, fuel: nat) -> Option<(Seq<Seq<char>>, int)> {
    if 0 <= pos < s.len() && s[pos] == LBRACKET {
        let p = skip_ws(s, pos + 1);
        if 0 <= p < s.len() && s[p] == RBRACKET {
            Some((Seq::empty(), p + 1))
        } else {
            parse_items(s, p, Seq::empty(), fuel)
        }
    } else {
        None
    }
}

/// Skips over one JSON value of any shape.
pub open spec fn skip_value(s: Seq<u8>, pos: int, fuel: nat) -> Option<int>
    decreases fuel, 0int,
{
    if fuel == 0 {
        None
    } else if has_lit(s, pos, word_null()) {
        Some(pos + word_null().len())
    } else if has_lit(s, pos, word_true()) {
        Some(pos + word_true().len())
    } else if has_lit(s, pos, word_false()) {
        Some(pos + word_false().len())
    } else if 0 <= pos < s.len() && s[pos] == QUOTE {
        match str_body(s, pos + 1) {
            Some(body) => Some(body.1),
            None => None,
        }
    } else if 0 <= pos < s.len() && (is_digit(s[pos]) || s[pos] == 45) {
        Some(number_end(s, pos + 1))
    } else if 0 <= pos < s.len() && s[pos] == LBRACKET {
        let p = skip_ws(s, pos + 1);
        if 0 <= p < s.len() && s[p] == RBRACKET {
            Some(p + 1)
        } else {
            skip_elements(s, p, (fuel - 1) as nat)
        }
    } else if 0 <= pos < s.len() && s[pos] == LBRACE {
        let p = skip_ws(s, pos + 1);
        if 0 <= p < s.len() && s[p] == RBRACE {
            Some(p + 1)
        } else {
            skip_members(s, p, (fuel - 1) as nat)
        }
    } else {
        None
    }
}

/// The end of a number token: digits, sign, point and exponent bytes.
pub open spec fn number_end(s: Seq<u8>, pos: int) -> int
    decreases s.len() - pos,
{
    if pos < 0 || pos >= s.len() {
        pos
    } else if is_digit(s[pos]) || s[pos] == 45 || s[pos] == 43 || s[pos] == 46 || s[pos] == 101
        || s[pos] == 69 {
        number_end(s, pos + 1)
    } else {
        pos
    }
}

/// Skips the remaining elements of an array.
pub open spec fn skip_elements(s: Seq<u8>, pos: int, fuel: nat) -> Option<int>
    decreases fuel, 1int,
{
    if fuel == 0 {
        None
    } else {
        match skip_value(s, pos, fuel) {
            None => None,
            Some(p0) => {
                let p = skip_ws(s, p0);
                if 0 <= p < s.len() && s[p] == COMMA {
                    skip_elements(s, skip_ws(s, p + 1), (fuel - 1) as nat)
                } else if 0 <= p < s.len() && s[p] == RBRACKET {
                    Some(p + 1)
                } else {
                    None
                }
            },
        }
    }
}

/// Skips the remaining members of an object.
pub open spec fn skip_members(s: Seq<u8>, pos: int, fuel: nat) -> Option<int>
    decreases fuel, 1int,
{
    if fuel == 0 {
        None
    } else if 0 <= pos < s.len() && s[pos] == QUOTE {
        match str_body(s, pos + 1) {
            None => None,
            Some(key) => {
                let p = skip_ws(s, key.1);
                if 0 <= p < s.len() && s[p] == COLON {
                    match skip_value(s, skip_ws(s, p + 1), fuel) {
                        None => None,
                        Some(p2) => {
                            let p3 = skip_ws(s, p2);
                            if 0 <= p3 < s.len() && s[p3] == COMMA {
                                skip_members(s, skip_ws(s, p3 + 1), (fuel - 1) as nat)
                            } else if 0 <= p3 < s.len() && s[p3] == RBRACE {
                                Some(p3 + 1)
                            } else {
                                None
                            }
                        },
                    }
                } else {
                    None
                }
            },
        }
    } else {
        None
    }
}

/// The members of a session object, from the first key, folded into `acc`.
pub open spec fn parse_session_members(s: Seq<u8>, pos: int, acc: SessionView, fuel: nat) -> Option<
    (SessionView, int),
>
    decreases fuel,
{
    if fuel == 0 {
        None
    } else if !(0 <= pos < s.len() && s[pos] == QUOTE) {
        None
    } else {
        match str_body(s, pos + 1) {
            None => None,
            Some(key) => {
                let p = skip_ws(s, key.1);
                if !(0 <= p < s.len() && s[p] == COLON) {
                    None
                } else {
                    let p2 = skip_ws(s, p + 1);
                    let step: Option<(SessionView, int)> = if key.0 == key_mode() {
                        match parse_mode(s, p2) {
                            Some(r) => Some((SessionView { mode: r.0, ..acc }, r.1)),
                            None => None,
                        }
                    } else if key.0 == key_start_time() {
                        match parse_opt_u64(s, p2) {
                            Some(r) => Some((SessionView { start_time: r.0, ..acc }, r.1)),
                            None => None,
                        }
                    } else if key.0 == key_end_time() {
                        match parse_opt_u64(s, p2) {
                            Some(r) => Some((SessionView { end_time: r.0, ..acc }, r.1)),
                            None => None,
                        }
                    } else if key.0 == key_locked() {
                        match parse_bool(s, p2) {
                            Some(r) => Some((SessionView { locked: r.0, ..acc }, r.1)),
                            None => None,
                        }
                    } else if key.0 == key_scheduled_id() {
                        match parse_opt_string(s, p2) {
                            Some(r) => Some((SessionView { scheduled_id: r.0, ..acc }, r.1)),
                            None => None,
                        }
                    } else if key.0 == key_active() {
                        match parse_opt_bool(s, p2) {
                            Some(r) => Some((SessionView { active: r.0, ..acc }, r.1)),
                            None => None,
                        }
                    } else {
                        match skip_value(s, p2, fuel) {
                            Some(p3) => Some((acc, p3)),
                            None => None,
                        }
                    };
                    match step {
                        None => None,
                        Some(st) => {
                            let p4 = skip_ws(s, st.1);
                            if 0 <= p4 < s.len() && s[p4] == COMMA {
                                parse_session_members(
                                    s,
                                    skip_ws(s, p4 + 1),
                                    st.0,
                                    (fuel - 1) as nat,
                                )
                            } else if 0 <= p4 < s.len() && s[p4] == RBRACE {
                                Some((st.0, p4 + 1))
                            } else {
                                None
                            }
                        },
                    }
                }
            },
        }
    }
}

/// A session object; missing members keep their defaults.
pub open spec fn parse_session(s: Seq<u8>, pos: int, fuel: nat) -> Option<(SessionView, int)> {
    if 0 <= pos < s.len() && s[pos] == LBRACE {
        let p = skip_ws(s, pos + 1);
        if 0 <= p < s.len() && s[p] == RBRACE {
            Some((crate::config::session_default(), p + 1))
        } else {
            parse_session_members(s, p, crate::config::session_default(), fuel)
        }
    } else {
        None
    }
}

/// The members of a rules object, from the first key.
pub open spec fn parse_rules_members(s: Seq<u8>, pos: int, acc: RulesView, fuel: nat) -> Option<
    (RulesView, int),
>
    decreases fuel,
{
    if fuel == 0 {
        None
    } else if !(0 <= pos < s.len() && s[pos] == QUOTE) {
        None
    } else {
        match str_body(s, pos + 1) {
            None => None,
            Some(key) => {
                let p = skip_ws(s, key.1);
                if !(0 <= p < s.len() && s[p] == COLON) {
                    None
                } else {
                    let p2 = skip_ws(s, p + 1);
                    let step: Option<(RulesView, int)> = if key.0 == key_blocked_channels() {
                        match parse_str_list(s, p2, fuel) {
                            Some(r) => Some((RulesView { blocked_channels: r.0, ..acc }, r.1)),
                            None => None,
                        }
                    } else if key.0 == key_allowed_channels() {
                        match parse_str_list(s, p2, fuel) {
                            Some(r) => Some((RulesView { allowed_channels: r.0, ..acc }, r.1)),
                            None => None,
                        }
                    } else {
                        match skip_value(s, p2, fuel) {
                            Some(p3) => Some((acc, p3)),
                            None => None,
                        }
                    };
                    match step {
                        None => None,
                        Some(st) => {
                            let p4 = skip_ws(s, st.1);
                            if 0 <= p4 < s.len() && s[p4] == COMMA {
                                parse_rules_members(s, skip_ws(s, p4 + 1), st.0, (fuel - 1) as nat)
                            } else if 0 <= p4 < s.len() && s[p4] == RBRACE {
                                Some((st.0, p4 + 1))
                            } else {
                                None
                            }
                        },
                    }
                }
            },
        }
    }
}

/// A rules object; missing members keep their defaults.
pub open spec fn parse_rules(s: Seq<u8>, pos: int, fuel: nat) -> Option<(RulesView, int)> {
    if 0 <= pos < s.len() && s[pos] == LBRACE {
        let p = skip_ws(s, pos + 1);
        if 0 <= p < s.len() && s[p] == RBRACE {
            Some((crate::config::rules_default(), p + 1))
        } else {
            parse_rules_members(s, p, crate::config::rules_default(), fuel)
        }
    } else {
        None
    }
}

/// The members of a settings object, from the first key. The legacy
/// members are read so migration can translate them.
pub open spec fn parse_settings_members(s: Seq<u8>, pos: int, acc: SettingsView, fuel: nat)
    -> Option<(SettingsView, int)>
    decreases fuel,
{
    if fuel == 0 {
        None
    } else if !(0 <= pos < s.len() && s[pos] == QUOTE) {
        None
    } else {
        match str_body(s, pos + 1) {
            None => None,
            Some(key) => {
                let p = skip_ws(s, key.1);
                if !(0 <= p < s.len() && s[p] == COLON) {
                    None
                } else {
                    let p2 = skip_ws(s, p + 1);
                    let step: Option<(SettingsView, int)> = if key.0 == key_default_mode() {
                        match parse_default_mode(s, p2) {
                            Some(r) => Some((SettingsView { default_mode: r.0, ..acc }, r.1)),
                            None => None,
                        }
                    } else if key.0 == key_block_all_channels() {
                        match parse_bool(s, p2) {
                            Some(r) => Some((SettingsView { block_all_channels: r.0, ..acc }, r.1)),
                            None => None,
                        }
                    } else if key.0 == key_session_duration_minutes() {
                        match parse_u64(s, p2) {
                            Some(r) => if r.0 <= u32::MAX {
                                Some(
                                    (
                                        SettingsView {
                                            session_duration_minutes: r.0 as u32,
                                            ..acc
                                        },
                                        r.1,
                                    ),
                                )
                            } else {
                                None
                            },
                            None => None,
                        }
                    } else if key.0 == key_strict_mode() {
                        match parse_opt_bool(s, p2) {
                            Some(r) => Some((SettingsView { strict_mode: r.0, ..acc }, r.1)),
                            None => None,
                        }
                    } else if key.0 == key_block_youtube_fallback() {
                        match parse_opt_bool(s, p2) {
                            Some(r) => Some(
                                (SettingsView { block_youtube_fallback: r.0, ..acc }, r.1),
                            ),
                            None => None,
                        }
                    } else {
                        match skip_value(s, p2, fuel) {
                            Some(p3) => Some((acc, p3)),
                            None => None,
                        }
                    };
                    match step {
                        None => None,
                        Some(st) => {
                            let p4 = skip_ws(s, st.1);
                            if 0 <= p4 < s.len() && s[p4] == COMMA {
                                parse_settings_members(
                                    s,
                                    skip_ws(s, p4 + 1),
                                    st.0,
                                    (fuel - 1) as nat,
                                )
                            } else if 0 <= p4 < s.len() && s[p4] == RBRACE {
                                Some((st.0, p4 + 1))
                            } else {
                                None
                            }
                        },
                    }
                }
            },
        }
    }
}

/// A settings object; missing members keep their defaults.
pub open spec fn parse_settings(s: Seq<u8>, pos: int, fuel: nat) -> Option<(SettingsView, int)> {
    if 0 <= pos < s.len() && s[pos] == LBRACE {
        let p = skip_ws(s, pos + 1);
        if 0 <= p < s.len() && s[p] == RBRACE {
            Some((crate::config::settings_default(), p + 1))
        } else {
            parse_settings_members(s, p, crate::config::settings_default(), fuel)
        }
    } else {
        None
    }
}

/// The members of the document object, from the first key.
pub open spec fn parse_config_members(s: Seq<u8>, pos: int, acc: ConfigView, fuel: nat) -> Option<
    (ConfigView, int),
>
    decreases fuel,
{
    if fuel == 0 {
        None
    } else if !(0 <= pos < s.len() && s[pos] == QUOTE) {
        None
    } else {
        match str_body(s, pos + 1) {
            None => None,
            Some(key) => {
                let p = skip_ws(s, key.1);
                if !(0 <= p < s.len() && s[p] == COLON) {
                    None
                } else {
                    let p2 = skip_ws(s, p + 1);
                    let step: Option<(ConfigView, int)> = if key.0 == key_password_hash() {
                        match parse_opt_string(s, p2) {
                            Some(r) => Some((ConfigView { password_hash: r.0, ..acc }, r.1)),
                            None => None,
                        }
                    } else if key.0 == key_blocked_domains() {
                        match parse_str_list(s, p2, fuel) {
                            Some(r) => Some((ConfigView { blocked_domains: r.0, ..acc }, r.1)),
                            None => None,
                        }
                    } else if key.0 == key_session() {
                        if has_lit(s, p2, word_null()) {
                            Some((ConfigView { session: None, ..acc }, p2 + word_null().len()))
                        } else {
                            match parse_session(s, p2, fuel) {
                                Some(r) => Some((ConfigView { session: Some(r.0), ..acc }, r.1)),
                                None => None,
                            }
                        }
                    } else if key.0 == key_youtube_rules() {
                        if has_lit(s, p2, word_null()) {
                            Some(
                                (ConfigView { youtube_rules: None, ..acc }, p2 + word_null().len()),
                            )
                        } else {
                            match parse_rules(s, p2, fuel) {
                                Some(r) => Some(
                                    (ConfigView { youtube_rules: Some(r.0), ..acc }, r.1),
                                ),
                                None => None,
                            }
                        }
                    } else if key.0 == key_global_settings() {
                        if has_lit(s, p2, word_null()) {
                            Some(
                                (
                                    ConfigView { global_settings: None, ..acc },
                                    p2 + word_null().len(),
                                ),
                            )
                        } else {
                            match parse_settings(s, p2, fuel) {
                                Some(r) => Some(
                                    (ConfigView { global_settings: Some(r.0), ..acc }, r.1),
                                ),
                                None => None,
                            }
                        }
                    } else {
                        match skip_value(s, p2, fuel) {
                            Some(p3) => Some((acc, p3)),
                            None => None,
                        }
                    };
                    match step {
                        None => None,
                        Some(st) => {
                            let p4 = skip_ws(s, st.1);
                            if 0 <= p4 < s.len() && s[p4] == COMMA {
                                parse_config_members(s, skip_ws(s, p4 + 1), st.0, (fuel - 1) as nat)
                            } else if 0 <= p4 < s.len() && s[p4] == RBRACE {
                                Some((st.0, p4 + 1))
                            } else {
                                None
                            }
                        },
                    }
                }
            },
        }
    }
}

/// The document object; missing members keep their defaults.
pub open spec fn parse_config(s: Seq<u8>, pos: int, fuel: nat) -> Option<(ConfigView, int)> {
    if 0 <= pos < s.len() && s[pos] == LBRACE {
        let p = skip_ws(s, pos + 1);
        if 0 <= p < s.len() && s[p] == RBRACE {
            Some((crate::config::config_default(), p + 1))
        } else {
            parse_config_members(s, p, crate::config::config_default(), fuel)
        }
    } else {
        None
    }
}

/// The parsing fuel: every recursion step consumes at least one input
/// byte, so this never runs out on input a vector can hold.
pub open spec fn decode_fuel() -> nat {
    usize::MAX as nat
}

/// What decoding a document yields: the parsed document when the bytes
/// hold one JSON value of the document's shape (with nothing but
/// whitespace around it), nothing otherwise.
pub open spec fn spec_decode(s: Seq<u8>) -> Option<ConfigView> {
    let p = skip_ws(s, 0);
    match parse_config(s, p, decode_fuel()) {
        Some(r) => if skip_ws(s, r.1) == s.len() {
            Some(r.0)
        } else {
            None
        },
        None => None,
    }
}

// =========================================================================
// The executable parser
// =========================================================================

/// Failure to read a persisted document.
#[derive(Clone, Copy, PartialEq, Eq, Structural, Debug)]
pub enum ConfigError {
    /// The bytes do not hold one JSON document of the expected shape.
    Malformed,
}

fn is_ws_b(b: u8) -> (r: bool)
    ensures
        r == is_json_ws(b),
{
    b == 32 || b == 9 || b == 10 || b == 13
}

fn ws_skip(s: &Vec<u8>, pos: usize) -> (r: usize)
    requires
        pos <= s@.len(),
    ensures
        r as int == skip_ws(s@, pos as int),
        pos <= r <= s@.len(),
    decreases s@.len() - pos,
{
    if pos < s.len() && is_ws_b(s[pos]) {
        ws_skip(s, pos + 1)
    } else {
        pos
    }
}

/// The position just after a literal that is known to sit at `pos`.
fn lit_end(s: &Vec<u8>, pos: usize, lit: &Vec<u8>) -> (r: usize)
    requires
        has_lit(s@, pos as int, lit@),
    ensures
        r as int == pos + lit@.len(),
        r <= s@.len(),
{
    let n = s.len();
    proof {
        assert(pos + lit@.len() <= n);
    }
    pos + lit.len()
}

fn match_lit(s: &Vec<u8>, pos: usize, lit: &Vec<u8>) -> (r: bool)
    requires
        pos <= s@.len(),
    ensures
        r == has_lit(s@, pos as int, lit@),
{
    let m = lit.len();
    let n = s.len();
    if m > n - pos {
        return false;
    }
    let mut j: usize = 0;
    while j < m
        invariant
            0 <= j <= m == lit@.len(),
            pos + m <= n == s@.len(),
            forall|k: int| 0 <= k < j ==> s@[pos + k] == lit@[k],
        decreases m - j,
    {
        if s[pos + j] != lit[j] {
            proof {
                assert(s@.subrange(pos as int, pos + lit@.len() as int)[j as int] != lit@[j as int]);
            }
            return false;
        }
        j = j + 1;
    }
    proof {
        assert(s@.subrange(pos as int, pos + lit@.len() as int) =~= lit@);
    }
    true
}

fn digits_scan(s: &Vec<u8>, pos: usize) -> (r: usize)
    requires
        pos <= s@.len(),
    ensures
        r as int == digits_end(s@, pos as int),
        pos <= r <= s@.len(),
    decreases s@.len() - pos,
{
    if pos < s.len() && 48 <= s[pos] && s[pos] <= 57 {
        digits_scan(s, pos + 1)
    } else {
        pos
    }
}

proof fn lemma_digits_end_digits(s: Seq<u8>, pos: int)
    requires
        0 <= pos <= s.len(),
    ensures
        forall|j: int| pos <= j < digits_end(s, pos) ==> is_digit(#[trigger] s[j]),
    decreases s.len() - pos,
{
    if pos < s.len() && is_digit(s[pos]) {
        lemma_digits_end_digits(s, pos + 1);
    }
}

proof fn lemma_digits_val_nonneg(s: Seq<u8>, pos: int, end: int)
    requires
        forall|j: int| pos <= j < end ==> is_digit(#[trigger] s[j]),
    ensures
        digits_value(s, pos, end) >= 0,
    decreases end - pos,
{
    if pos < end {
        lemma_digits_val_nonneg(s, pos, end - 1);
    }
}

fn u64_parse(s: &Vec<u8>, pos: usize) -> (r: Option<(u64, usize)>)
    requires
        pos <= s@.len(),
    ensures
        (r is Some) == (parse_u64(s@, pos as int) is Some),
        r matches Some(a) ==> ((a.0 == (parse_u64(s@, pos as int)->0).0) && (a.1 as int == (
        parse_u64(s@, pos as int)->0).1) && pos < a.1 <= s@.len()),
{
    let end = digits_scan(s, pos);
    if end == pos {
        return None;
    }
    proof {
        lemma_digits_end_digits(s@, pos as int);
    }
    let mut acc: u64 = 0;
    let mut i: usize = pos;
    let mut over = false;
    while i < end
        invariant
            pos <= i <= end <= s@.len(),
            end as int == digits_end(s@, pos as int),
            forall|j: int| pos <= j < end ==> is_digit(#[trigger] s@[j]),
            !over ==> acc as int == digits_value(s@, pos as int, i as int),
            over ==> digits_value(s@, pos as int, i as int) > u64::MAX,
        decreases end - i,
    {
        let d = s[i] - 48;
        proof {
            lemma_digits_val_nonneg(s@, pos as int, i as int);
            assert(digits_value(s@, pos as int, i + 1) == digits_value(s@, pos as int, i as int)
                * 10 + (s@[i as int] - 48));
        }
        if over {
        } else if acc > (u64::MAX - d as u64) / 10 {
            over = true;
        } else {
            acc = acc * 10 + d as u64;
        }
        i = i + 1;
    }
    if over {
        None
    } else {
        Some((acc, end))
    }
}

/// Relies on String::from_utf8: it accepts exactly valid UTF-8, and the
/// accepted characters are the decoding of the bytes.
#[verifier::external_body]
fn bytes_to_string(b: Vec<u8>) -> (r: Option<String>)
    ensures
        (r is Some) == vstd::utf8::valid_utf8(b@),
        r matches Some(s) ==> s@ == vstd::utf8::decode_utf8(b@),
{
    match String::from_utf8(b) {
        Ok(s) => Some(s),
        Err(_) => None,
    }
}

fn body_parse(s: &Vec<u8>, pos: usize) -> (r: Option<(Vec<u8>, usize)>)
    requires
        pos <= s@.len(),
    ensures
        (r is Some) == (str_body(s@, pos as int) is Some),
        r matches Some(a) ==> ((a.0@ == (str_body(s@, pos as int)->0).0) && (a.1 as int == (str_body(
            s@,
            pos as int,
        )->0).1) && pos < a.1 <= s@.len()),
    decreases s@.len() - pos,
{
    if pos >= s.len() {
        return None;
    }
    let b = s[pos];
    if b == QUOTE {
        return Some((Vec::new(), pos + 1));
    }
    if b == BACKSLASH {
        if pos + 1 >= s.len() {
            return None;
        }
        let e = s[pos + 1];
        if e == QUOTE || e == BACKSLASH || e == 47 {
            match body_parse(s, pos + 2) {
                Some(rest) => {
                    let mut v: Vec<u8> = Vec::new();
                    v.push(e);
                    push_all(&mut v, &rest.0);
                    proof {
                        assert(v@ =~= seq![e] + rest.0@);
                    }
                    Some((v, rest.1))
                },
                None => None,
            }
        } else if e == 110 || e == 116 || e == 114 || e == 98 || e == 102 {
            let c: u8 = if e == 110 {
                10
            } else if e == 116 {
                9
            } else if e == 114 {
                13
            } else if e == 98 {
                8
            } else {
                12
            };
            match body_parse(s, pos + 2) {
                Some(rest) => {
                    let mut v: Vec<u8> = Vec::new();
                    v.push(c);
                    push_all(&mut v, &rest.0);
                    proof {
                        assert(v@ =~= seq![c] + rest.0@);
                    }
                    Some((v, rest.1))
                },
                None => None,
            }
        } else if e == 117 {
            if s.len() - pos < 6 {
                return None;
            }
            let h1 = hex_val_b(s[pos + 2]);
            let h2 = hex_val_b(s[pos + 3]);
            let h3 = hex_val_b(s[pos + 4]);
            let h4 = hex_val_b(s[pos + 5]);
            match (h1, h2, h3, h4) {
                (Some(a1), Some(a2), Some(a3), Some(a4)) => {
                    let v32: u32 = (a1 as u32) * 4096 + (a2 as u32) * 256 + (a3 as u32) * 16
                        + (a4 as u32);
                    if 0xD800 <= v32 && v32 < 0xE000 {
                        return None;
                    }
                    match body_parse(s, pos + 6) {
                        Some(rest) => {
                            let mut v: Vec<u8> = Vec::new();
                            if v32 < 0x80 {
                                v.push(v32 as u8);
                            } else if v32 < 0x800 {
                                v.push((0xC0 + v32 / 64) as u8);
                                v.push((0x80 + v32 % 64) as u8);
                            } else {
                                v.push((0xE0 + v32 / 4096) as u8);
                                v.push((0x80 + (v32 / 64) % 64) as u8);
                                v.push((0x80 + v32 % 64) as u8);
                            }
                            proof {
                                assert(v@ =~= utf8_of_scalar16(v32 as int));
                            }
                            push_all(&mut v, &rest.0);
                            proof {
                                assert(v@ =~= utf8_of_scalar16(v32 as int) + rest.0@);
                            }
                            Some((v, rest.1))
                        },
                        None => None,
                    }
                },
                _ => None,
            }
        } else {
            None
        }
    } else {
        match body_parse(s, pos + 1) {
            Some(rest) => {
                let mut v: Vec<u8> = Vec::new();
                v.push(b);
                push_all(&mut v, &rest.0);
                proof {
                    assert(v@ =~= seq![b] + rest.0@);
                }
                Some((v, rest.1))
            },
            None => None,
        }
    }
}

fn hex_val_b(b: u8) -> (r: Option<u8>)
    ensures
        (r is Some) == (hex_val(b) >= 0),
        r matches Some(v) ==> v as int == hex_val(b),
{
    if 48 <= b && b <= 57 {
        Some(b - 48)
    } else if 97 <= b && b <= 102 {
        Some(b - 87)
    } else if 65 <= b && b <= 70 {
        Some(b - 55)
    } else {
        None
    }
}

fn string_parse(s: &Vec<u8>, pos: usize) -> (r: Option<(String, usize)>)
    requires
        pos <= s@.len(),
    ensures
        (r is Some) == (parse_string(s@, pos as int) is Some),
        r matches Some(a) ==> ((a.0@ == (parse_string(s@, pos as int)->0).0) && (a.1 as int == (
        parse_string(s@, pos as int)->0).1) && pos < a.1 <= s@.len()),
{
    if pos < s.len() && s[pos] == QUOTE {
        match body_parse(s, pos + 1) {
            Some(body) => {
                let p2 = body.1;
                match bytes_to_string(body.0) {
                    Some(text) => Some((text, p2)),
                    None => None,
                }
            },
            None => None,
        }
    } else {
        None
    }
}

fn opt_string_parse(s: &Vec<u8>, pos: usize) -> (r: Option<(Option<String>, usize)>)
    requires
        pos <= s@.len(),
    ensures
        (r is Some) == (parse_opt_string(s@, pos as int) is Some),
        r matches Some(a) ==> ((match a.0 {
            Some(ref t) => Some(t@),
            None => None,
        } == (parse_opt_string(s@, pos as int)->0).0) && (a.1 as int == (parse_opt_string(
            s@,
            pos as int,
        )->0).1) && pos < a.1 <= s@.len()),
{
    let null_w = word_null_vec();
    if match_lit(s, pos, &null_w) {
        Some((None, lit_end(s, pos, &null_w)))
    } else {
        match string_parse(s, pos) {
            Some(a) => Some((Some(a.0), a.1)),
            None => None,
        }
    }
}

fn opt_u64_parse(s: &Vec<u8>, pos: usize) -> (r: Option<(Option<u64>, usize)>)
    requires
        pos <= s@.len(),
    ensures
        (r is Some) == (parse_opt_u64(s@, pos as int) is Some),
        r matches Some(a) ==> ((a.0 == (parse_opt_u64(s@, pos as int)->0).0) && (a.1 as int == (
        parse_opt_u64(s@, pos as int)->0).1) && pos < a.1 <= s@.len()),
{
    let null_w = word_null_vec();
    if match_lit(s, pos, &null_w) {
        Some((None, lit_end(s, pos, &null_w)))
    } else {
        match u64_parse(s, pos) {
            Some(a) => Some((Some(a.0), a.1)),
            None => None,
        }
    }
}

fn bool_parse(s: &Vec<u8>, pos: usize) -> (r: Option<(bool, usize)>)
    requires
        pos <= s@.len(),
    ensures
        (r is Some) == (parse_bool(s@, pos as int) is Some),
        r matches Some(a) ==> ((a.0 == (parse_bool(s@, pos as int)->0).0) && (a.1 as int == (
        parse_bool(s@, pos as int)->0).1) && pos < a.1 <= s@.len()),
{
    let true_w = word_true_vec();
    let false_w = word_false_vec();
    if match_lit(s, pos, &true_w) {
        Some((true, lit_end(s, pos, &true_w)))
    } else if match_lit(s, pos, &false_w) {
        Some((false, lit_end(s, pos, &false_w)))
    } else {
        None
    }
}

fn opt_bool_parse(s: &Vec<u8>, pos: usize) -> (r: Option<(Option<bool>, usize)>)
    requires
        pos <= s@.len(),
    ensures
        (r is Some) == (parse_opt_bool(s@, pos as int) is Some),
        r matches Some(a) ==> ((a.0 == (parse_opt_bool(s@, pos as int)->0).0) && (a.1 as int == (
        parse_opt_bool(s@, pos as int)->0).1) && pos < a.1 <= s@.len()),
{
    let null_w = word_null_vec();
    if match_lit(s, pos, &null_w) {
        Some((None, lit_end(s, pos, &null_w)))
    } else {
        match bool_parse(s, pos) {
            Some(a) => Some((Some(a.0), a.1)),
            None => None,
        }
    }
}

fn mode_parse(s: &Vec<u8>, pos: usize) -> (r: Option<(Mode, usize)>)
    requires
        pos <= s@.len(),
    ensures
        (r is Some) == (parse_mode(s@, pos as int) is Some),
        r matches Some(a) ==> ((a.0 == (parse_mode(s@, pos as int)->0).0) && (a.1 as int == (
        parse_mode(s@, pos as int)->0).1) && pos < a.1 <= s@.len()),
{
    match string_parse(s, pos) {
        None => None,
        Some(a) => {
            let w = vstd::slice::slice_to_vec(a.0.as_str().as_bytes());
            proof {
                vstd::utf8::encode_utf8_valid_utf8(a.0@);
            }
            let off_w = word_off_vec();
            let precision_w = word_precision_vec();
            let strict_w = word_strict_vec();
            if bytes_eq(&w, &off_w) {
                Some((Mode::Off, a.1))
            } else if bytes_eq(&w, &precision_w) {
                Some((Mode::Precision, a.1))
            } else if bytes_eq(&w, &strict_w) {
                Some((Mode::Strict, a.1))
            } else {
                None
            }
        },
    }
}

fn default_mode_parse(s: &Vec<u8>, pos: usize) -> (r: Option<(Mode, usize)>)
    requires
        pos <= s@.len(),
    ensures
        (r is Some) == (parse_default_mode(s@, pos as int) is Some),
        r matches Some(a) ==> ((a.0 == (parse_default_mode(s@, pos as int)->0).0) && (a.1 as int
            == (parse_default_mode(s@, pos as int)->0).1) && pos < a.1 <= s@.len()),
{
    match mode_parse(s, pos) {
        Some(a) => if matches!(a.0, Mode::Off) {
            None
        } else {
            Some(a)
        },
        None => None,
    }
}

fn items_parse(s: &Vec<u8>, pos: usize, acc: Vec<String>, fuel: usize) -> (r: Option<
    (Vec<String>, usize),
>)
    requires
        pos <= s@.len(),
    ensures
        (r is Some) == (parse_items(s@, pos as int, acc.deep_view(), fuel as nat) is Some),
        r matches Some(a) ==> ((a.0.deep_view() == (parse_items(
            s@,
            pos as int,
            acc.deep_view(),
            fuel as nat,
        )->0).0) && (a.1 as int == (parse_items(s@, pos as int, acc.deep_view(), fuel as nat)->0).1)
            && a.1 <= s@.len()),
    decreases fuel,
{
    if fuel == 0 {
        return None;
    }
    match string_parse(s, pos) {
        None => None,
        Some(item) => {
            let p = ws_skip(s, item.1);
            let ghost prev = acc.deep_view();
            let mut acc2 = acc;
            acc2.push(item.0);
            proof {
                assert(acc2.deep_view() =~~= prev.push((parse_string(s@, pos as int)->0).0));
            }
            if p < s.len() && s[p] == COMMA {
                let p2 = ws_skip(s, p + 1);
                items_parse(s, p2, acc2, fuel - 1)
            } else if p < s.len() && s[p] == RBRACKET {
                Some((acc2, p + 1))
            } else {
                None
            }
        },
    }
}

fn str_list_parse(s: &Vec<u8>, pos: usize, fuel: usize) -> (r: Option<(Vec<String>, usize)>)
    requires
        pos <= s@.len(),
    ensures
        (r is Some) == (parse_str_list(s@, pos as int, fuel as nat) is Some),
        r matches Some(a) ==> ((a.0.deep_view() == (parse_str_list(s@, pos as int, fuel as nat)->0).0)
            && (a.1 as int == (parse_str_list(s@, pos as int, fuel as nat)->0).1) && a.1
            <= s@.len()),
{
    if pos < s.len() && s[pos] == LBRACKET {
        let p = ws_skip(s, pos + 1);
        if p < s.len() && s[p] == RBRACKET {
            let empty: Vec<String> = Vec::new();
            proof {
                assert(empty.deep_view() =~= Seq::<Seq<char>>::empty());
            }
            Some((empty, p + 1))
        } else {
            let empty: Vec<String> = Vec::new();
            proof {
                assert(empty.deep_view() =~= Seq::<Seq<char>>::empty());
            }
            items_parse(s, p, empty, fuel)
        }
    } else {
        None
    }
}

fn number_scan(s: &Vec<u8>, pos: usize) -> (r: usize)
    requires
        pos <= s@.len(),
    ensures
        r as int == number_end(s@, pos as int),
        pos <= r <= s@.len(),
    decreases s@.len() - pos,
{
    if pos < s.len() {
        let b = s[pos];
        if (48 <= b && b <= 57) || b == 45 || b == 43 || b == 46 || b == 101 || b == 69 {
            return number_scan(s, pos + 1);
        }
    }
    pos
}

fn value_skip(s: &Vec<u8>, pos: usize, fuel: usize) -> (r: Option<usize>)
    requires
        pos <= s@.len(),
    ensures
        (r is Some) == (skip_value(s@, pos as int, fuel as nat) is Some),
        r matches Some(p) ==> (p as int == skip_value(s@, pos as int, fuel as nat)->0 && p
            <= s@.len()),
    decreases fuel, 0int,
{
    if fuel == 0 {
        return None;
    }
    let null_w = word_null_vec();
    let true_w = word_true_vec();
    let false_w = word_false_vec();
    if match_lit(s, pos, &null_w) {
        Some(lit_end(s, pos, &null_w))
    } else if match_lit(s, pos, &true_w) {
        Some(lit_end(s, pos, &true_w))
    } else if match_lit(s, pos, &false_w) {
        Some(lit_end(s, pos, &false_w))
    } else if pos < s.len() && s[pos] == QUOTE {
        match body_parse(s, pos + 1) {
            Some(body) => Some(body.1),
            None => None,
        }
    } else if pos < s.len() && ((48 <= s[pos] && s[pos] <= 57) || s[pos] == 45) {
        Some(number_scan(s, pos + 1))
    } else if pos < s.len() && s[pos] == LBRACKET {
        let p = ws_skip(s, pos + 1);
        if p < s.len() && s[p] == RBRACKET {
            Some(p + 1)
        } else {
            elements_skip(s, p, fuel - 1)
        }
    } else if pos < s.len() && s[pos] == LBRACE {
        let p = ws_skip(s, pos + 1);
        if p < s.len() && s[p] == RBRACE {
            Some(p + 1)
        } else {
            members_skip(s, p, fuel - 1)
        }
    } else {
        None
    }
}

fn elements_skip(s: &Vec<u8>, pos: usize, fuel: usize) -> (r: Option<usize>)
    requires
        pos <= s@.len(),
    ensures
        (r is Some) == (skip_elements(s@, pos as int, fuel as nat) is Some),
        r matches Some(p) ==> (p as int == skip_elements(s@, pos as int, fuel as nat)->0 && p
            <= s@.len()),
    decreases fuel, 1int,
{
    if fuel == 0 {
        return None;
    }
    match value_skip(s, pos, fuel) {
        None => None,
        Some(p0) => {
            let p = ws_skip(s, p0);
            if p < s.len() && s[p] == COMMA {
                let p2 = ws_skip(s, p + 1);
                elements_skip(s, p2, fuel - 1)
            } else if p < s.len() && s[p] == RBRACKET {
                Some(p + 1)
            } else {
                None
            }
        },
    }
}

fn members_skip(s: &Vec<u8>, pos: usize, fuel: usize) -> (r: Option<usize>)
    requires
        pos <= s@.len(),
    ensures
        (r is Some) == (skip_members(s@, pos as int, fuel as nat) is Some),
        r matches Some(p) ==> (p as int == skip_members(s@, pos as int, fuel as nat)->0 && p
            <= s@.len()),
    decreases fuel, 1int,
{
    if fuel == 0 {
        return None;
    }
    if pos < s.len() && s[pos] == QUOTE {
        match body_parse(s, pos + 1) {
            None => None,
            Some(key) => {
                let p = ws_skip(s, key.1);
                if p < s.len() && s[p] == COLON {
                    let pv = ws_skip(s, p + 1);
                    match value_skip(s, pv, fuel) {
                        None => None,
                        Some(p2) => {
                            let p3 = ws_skip(s, p2);
                            if p3 < s.len() && s[p3] == COMMA {
                                let p4 = ws_skip(s, p3 + 1);
                                members_skip(s, p4, fuel - 1)
                            } else if p3 < s.len() && s[p3] == RBRACE {
                                Some(p3 + 1)
                            } else {
                                None
                            }
                        },
                    }
                } else {
                    None
                }
            },
        }
    } else {
        None
    }
}

fn session_members_parse(s: &Vec<u8>, pos: usize, acc: SessionState, fuel: usize) -> (r: Option<
    (SessionState, usize),
>)
    requires
        pos <= s@.len(),
    ensures
        (r is Some) == (parse_session_members(s@, pos as int, acc@, fuel as nat) is Some),
        r matches Some(a) ==> ((a.0@ == (parse_session_members(s@, pos as int, acc@, fuel as nat)
            ->0).0) && (a.1 as int == (parse_session_members(s@, pos as int, acc@, fuel as nat)
            ->0).1) && a.1 <= s@.len()),
    decreases fuel,
{
    if fuel == 0 {
        return None;
    }
    if !(pos < s.len() && s[pos] == QUOTE) {
        return None;
    }
    match body_parse(s, pos + 1) {
        None => None,
        Some(key) => {
            let p = ws_skip(s, key.1);
            if !(p < s.len() && s[p] == COLON) {
                return None;
            }
            let p2 = ws_skip(s, p + 1);
            let step: Option<(SessionState, usize)> = if bytes_eq(&key.0, &key_mode_vec()) {
                match mode_parse(s, p2) {
                    Some(v) => {
                        let mut a2 = acc;
                        a2.mode = v.0;
                        Some((a2, v.1))
                    },
                    None => None,
                }
            } else if bytes_eq(&key.0, &key_start_time_vec()) {
                match opt_u64_parse(s, p2) {
                    Some(v) => {
                        let mut a2 = acc;
                        a2.start_time = v.0;
                        Some((a2, v.1))
                    },
                    None => None,
                }
            } else if bytes_eq(&key.0, &key_end_time_vec()) {
                match opt_u64_parse(s, p2) {
                    Some(v) => {
                        let mut a2 = acc;
                        a2.end_time = v.0;
                        Some((a2, v.1))
                    },
                    None => None,
                }
            } else if bytes_eq(&key.0, &key_locked_vec()) {
                match bool_parse(s, p2) {
                    Some(v) => {
                        let mut a2 = acc;
                        a2.locked = v.0;
                        Some((a2, v.1))
                    },
                    None => None,
                }
            } else if bytes_eq(&key.0, &key_scheduled_id_vec()) {
                match opt_string_parse(s, p2) {
                    Some(v) => {
                        let mut a2 = acc;
                        a2.scheduled_id = v.0;
                        Some((a2, v.1))
                    },
                    None => None,
                }
            } else if bytes_eq(&key.0, &key_active_vec()) {
                match opt_bool_parse(s, p2) {
                    Some(v) => {
                        let mut a2 = acc;
                        a2.active = v.0;
                        Some((a2, v.1))
                    },
                    None => None,
                }
            } else {
                match value_skip(s, p2, fuel) {
                    Some(p3) => Some((acc, p3)),
                    None => None,
                }
            };
            match step {
                None => None,
                Some(st) => {
                    let p4 = ws_skip(s, st.1);
                    if p4 < s.len() && s[p4] == COMMA {
                        let p5 = ws_skip(s, p4 + 1);
                        session_members_parse(s, p5, st.0, fuel - 1)
                    } else if p4 < s.len() && s[p4] == RBRACE {
                        Some((st.0, p4 + 1))
                    } else {
                        None
                    }
                },
            }
        },
    }
}

fn session_parse(s: &Vec<u8>, pos: usize, fuel: usize) -> (r: Option<(SessionState, usize)>)
    requires
        pos <= s@.len(),
    ensures
        (r is Some) == (parse_session(s@, pos as int, fuel as nat) is Some),
        r matches Some(a) ==> ((a.0@ == (parse_session(s@, pos as int, fuel as nat)->0).0) && (a.1
            as int == (parse_session(s@, pos as int, fuel as nat)->0).1) && a.1 <= s@.len()),
{
    if pos < s.len() && s[pos] == LBRACE {
        let p = ws_skip(s, pos + 1);
        if p < s.len() && s[p] == RBRACE {
            Some((SessionState::default(), p + 1))
        } else {
            session_members_parse(s, p, SessionState::default(), fuel)
        }
    } else {
        None
    }
}

fn rules_members_parse(s: &Vec<u8>, pos: usize, acc: YoutubeRules, fuel: usize) -> (r: Option<
    (YoutubeRules, usize),
>)
    requires
        pos <= s@.len(),
    ensures
        (r is Some) == (parse_rules_members(s@, pos as int, acc@, fuel as nat) is Some),
        r matches Some(a) ==> ((a.0@ == (parse_rules_members(s@, pos as int, acc@, fuel as nat)
            ->0).0) && (a.1 as int == (parse_rules_members(s@, pos as int, acc@, fuel as nat)
            ->0).1) && a.1 <= s@.len()),
    decreases fuel,
{
    if fuel == 0 {
        return None;
    }
    if !(pos < s.len() && s[pos] == QUOTE) {
        return None;
    }
    match body_parse(s, pos + 1) {
        None => None,
        Some(key) => {
            let p = ws_skip(s, key.1);
            if !(p < s.len() && s[p] == COLON) {
                return None;
            }
            let p2 = ws_skip(s, p + 1);
            let step: Option<(YoutubeRules, usize)> = if bytes_eq(
                &key.0,
                &key_blocked_channels_vec(),
            ) {
                match str_list_parse(s, p2, fuel) {
                    Some(v) => {
                        let mut a2 = acc;
                        a2.blocked_channels = v.0;
                        Some((a2, v.1))
                    },
                    None => None,
                }
            } else if bytes_eq(&key.0, &key_allowed_channels_vec()) {
                match str_list_parse(s, p2, fuel) {
                    Some(v) => {
                        let mut a2 = acc;
                        a2.allowed_channels = v.0;
                        Some((a2, v.1))
                    },
                    None => None,
                }
            } else {
                match value_skip(s, p2, fuel) {
                    Some(p3) => Some((acc, p3)),
                    None => None,
                }
            };
            match step {
                None => None,
                Some(st) => {
                    let p4 = ws_skip(s, st.1);
                    if p4 < s.len() && s[p4] == COMMA {
                        let p5 = ws_skip(s, p4 + 1);
                        rules_members_parse(s, p5, st.0, fuel - 1)
                    } else if p4 < s.len() && s[p4] == RBRACE {
                        Some((st.0, p4 + 1))
                    } else {
                        None
                    }
                },
            }
        },
    }
}

fn rules_parse(s: &Vec<u8>, pos: usize, fuel: usize) -> (r: Option<(YoutubeRules, usize)>)
    requires
        pos <= s@.len(),
    ensures
        (r is Some) == (parse_rules(s@, pos as int, fuel as nat) is Some),
        r matches Some(a) ==> ((a.0@ == (parse_rules(s@, pos as int, fuel as nat)->0).0) && (a.1
            as int == (parse_rules(s@, pos as int, fuel as nat)->0).1) && a.1 <= s@.len()),
{
    if pos < s.len() && s[pos] == LBRACE {
        let p = ws_skip(s, pos + 1);
        if p < s.len() && s[p] == RBRACE {
            let d = YoutubeRules::default();
            Some((d, p + 1))
        } else {
            rules_members_parse(s, p, YoutubeRules::default(), fuel)
        }
    } else {
        None
    }
}

fn settings_members_parse(s: &Vec<u8>, pos: usize, acc: GlobalSettings, fuel: usize) -> (r: Option<
    (GlobalSettings, usize),
>)
    requires
        pos <= s@.len(),
    ensures
        (r is Some) == (parse_settings_members(s@, pos as int, acc@, fuel as nat) is Some),
        r matches Some(a) ==> ((a.0@ == (parse_settings_members(s@, pos as int, acc@, fuel as nat)
            ->0).0) && (a.1 as int == (parse_settings_members(s@, pos as int, acc@, fuel as nat)
            ->0).1) && a.1 <= s@.len()),
    decreases fuel,
{
    if fuel == 0 {
        return None;
    }
    if !(pos < s.len() && s[pos] == QUOTE) {
        return None;
    }
    match body_parse(s, pos + 1) {
        None => None,
        Some(key) => {
            let p = ws_skip(s, key.1);
            if !(p < s.len() && s[p] == COLON) {
                return None;
            }
            let p2 = ws_skip(s, p + 1);
            let step: Option<(GlobalSettings, usize)> = if bytes_eq(
                &key.0,
                &key_default_mode_vec(),
            ) {
                match default_mode_parse(s, p2) {
                    Some(v) => {
                        let mut a2 = acc;
                        a2.default_mode = v.0;
                        Some((a2, v.1))
                    },
                    None => None,
                }
            } else if bytes_eq(&key.0, &key_block_all_channels_vec()) {
                match bool_parse(s, p2) {
                    Some(v) => {
                        let mut a2 = acc;
                        a2.block_all_channels = v.0;
                        Some((a2, v.1))
                    },
                    None => None,
                }
            } else if bytes_eq(&key.0, &key_session_duration_minutes_vec()) {
                match u64_parse(s, p2) {
                    Some(v) => if v.0 <= 0xFFFF_FFFFu64 {
                        let mut a2 = acc;
                        a2.session_duration_minutes = v.0 as u32;
                        Some((a2, v.1))
                    } else {
                        None
                    },
                    None => None,
                }
            } else if bytes_eq(&key.0, &key_strict_mode_vec()) {
                match opt_bool_parse(s, p2) {
                    Some(v) => {
                        let mut a2 = acc;
                        a2.strict_mode = v.0;
                        Some((a2, v.1))
                    },
                    None => None,
                }
            } else if bytes_eq(&key.0, &key_block_youtube_fallback_vec()) {
                match opt_bool_parse(s, p2) {
                    Some(v) => {
                        let mut a2 = acc;
                        a2.block_youtube_fallback = v.0;
                        Some((a2, v.1))
                    },
                    None => None,
                }
            } else {
                match value_skip(s, p2, fuel) {
                    Some(p3) => Some((acc, p3)),
                    None => None,
                }
            };
            match step {
                None => None,
                Some(st) => {
                    let p4 = ws_skip(s, st.1);
                    if p4 < s.len() && s[p4] == COMMA {
                        let p5 = ws_skip(s, p4 + 1);
                        settings_members_parse(s, p5, st.0, fuel - 1)
                    } else if p4 < s.len() && s[p4] == RBRACE {
                        Some((st.0, p4 + 1))
                    } else {
                        None
                    }
                },
            }
        },
    }
}

fn settings_parse(s: &Vec<u8>, pos: usize, fuel: usize) -> (r: Option<(GlobalSettings, usize)>)
    requires
        pos <= s@.len(),
    ensures
        (r is Some) == (parse_settings(s@, pos as int, fuel as nat) is Some),
        r matches Some(a) ==> ((a.0@ == (parse_settings(s@, pos as int, fuel as nat)->0).0) && (a.1
            as int == (parse_settings(s@, pos as int, fuel as nat)->0).1) && a.1 <= s@.len()),
{
    if pos < s.len() && s[pos] == LBRACE {
        let p = ws_skip(s, pos + 1);
        if p < s.len() && s[p] == RBRACE {
            Some((GlobalSettings::default(), p + 1))
        } else {
            settings_members_parse(s, p, GlobalSettings::default(), fuel)
        }
    } else {
        None
    }
}

fn config_members_parse(s: &Vec<u8>, pos: usize, acc: Config, fuel: usize) -> (r: Option<
    (Config, usize),
>)
    requires
        pos <= s@.len(),
    ensures
        (r is Some) == (parse_config_members(s@, pos as int, acc@, fuel as nat) is Some),
        r matches Some(a) ==> ((a.0@ == (parse_config_members(s@, pos as int, acc@, fuel as nat)
            ->0).0) && (a.1 as int == (parse_config_members(s@, pos as int, acc@, fuel as nat)
            ->0).1) && a.1 <= s@.len()),
    decreases fuel,
{
    if fuel == 0 {
        return None;
    }
    if !(pos < s.len() && s[pos] == QUOTE) {
        return None;
    }
    match body_parse(s, pos + 1) {
        None => None,
        Some(key) => {
            let p = ws_skip(s, key.1);
            if !(p < s.len() && s[p] == COLON) {
                return None;
            }
            let p2 = ws_skip(s, p + 1);
            let null_w = word_null_vec();
            let step: Option<(Config, usize)> = if bytes_eq(&key.0, &key_password_hash_vec()) {
                match opt_string_parse(s, p2) {
                    Some(v) => {
                        let mut a2 = acc;
                        a2.password_hash = v.0;
                        Some((a2, v.1))
                    },
                    None => None,
                }
            } else if bytes_eq(&key.0, &key_blocked_domains_vec()) {
                match str_list_parse(s, p2, fuel) {
                    Some(v) => {
                        let mut a2 = acc;
                        a2.blocked_domains = v.0;
                        Some((a2, v.1))
                    },
                    None => None,
                }
            } else if bytes_eq(&key.0, &key_session_vec()) {
                if match_lit(s, p2, &null_w) {
                    let mut a2 = acc;
                    a2.session = None;
                    Some((a2, lit_end(s, p2, &null_w)))
                } else {
                    match session_parse(s, p2, fuel) {
                        Some(v) => {
                            let mut a2 = acc;
                            a2.session = Some(v.0);
                            Some((a2, v.1))
                        },
                        None => None,
                    }
                }
            } else if bytes_eq(&key.0, &key_youtube_rules_vec()) {
                if match_lit(s, p2, &null_w) {
                    let mut a2 = acc;
                    a2.youtube_rules = None;
                    Some((a2, lit_end(s, p2, &null_w)))
                } else {
                    match rules_parse(s, p2, fuel) {
                        Some(v) => {
                            let mut a2 = acc;
                            a2.youtube_rules = Some(v.0);
                            Some((a2, v.1))
                        },
                        None => None,
                    }
                }
            } else if bytes_eq(&key.0, &key_global_settings_vec()) {
                if match_lit(s, p2, &null_w) {
                    let mut a2 = acc;
                    a2.global_settings = None;
                    Some((a2, lit_end(s, p2, &null_w)))
                } else {
                    match settings_parse(s, p2, fuel) {
                        Some(v) => {
                            let mut a2 = acc;
                            a2.global_settings = Some(v.0);
                            Some((a2, v.1))
                        },
                        None => None,
                    }
                }
            } else {
                match value_skip(s, p2, fuel) {
                    Some(p3) => Some((acc, p3)),
                    None => None,
                }
            };
            match step {
                None => None,
                Some(st) => {
                    let p4 = ws_skip(s, st.1);
                    if p4 < s.len() && s[p4] == COMMA {
                        let p5 = ws_skip(s, p4 + 1);
                        config_members_parse(s, p5, st.0, fuel - 1)
                    } else if p4 < s.len() && s[p4] == RBRACE {
                        Some((st.0, p4 + 1))
                    } else {
                        None
                    }
                },
            }
        },
    }
}

fn config_parse(s: &Vec<u8>, pos: usize, fuel: usize) -> (r: Option<(Config, usize)>)
    requires
        pos <= s@.len(),
    ensures
        (r is Some) == (parse_config(s@, pos as int, fuel as nat) is Some),
        r matches Some(a) ==> ((a.0@ == (parse_config(s@, pos as int, fuel as nat)->0).0) && (a.1
            as int == (parse_config(s@, pos as int, fuel as nat)->0).1) && a.1 <= s@.len()),
{
    if pos < s.len() && s[pos] == LBRACE {
        let p = ws_skip(s, pos + 1);
        if p < s.len() && s[p] == RBRACE {
            Some((Config::default(), p + 1))
        } else {
            config_members_parse(s, p, Config::default(), fuel)
        }
    } else {
        None
    }
}

/// Parses the persisted document from its bytes. Whitespace may stand
/// anywhere between tokens, members may come in any order, unknown members
/// are ignored, and the legacy fields are read so [`crate::config::migrate`]
/// can translate them. String escapes cover the basic plane only:
/// surrogate pairs are refused, so characters outside that plane must
/// stand raw. Fails exactly when the bytes do not hold one JSON document
/// of the expected shape.
pub fn decode_config(bytes: &Vec<u8>) -> (r: Result<Config, ConfigError>)
    ensures
        (r is Ok) == (spec_decode(bytes@) is Some),
        r matches Ok(c) ==> c@ == spec_decode(bytes@)->0,
{
    let fuel: usize = usize::MAX;
    let p = ws_skip(bytes, 0);
    match config_parse(bytes, p, fuel) {
        Some(a) => {
            let p2 = ws_skip(bytes, a.1);
            if p2 == bytes.len() {
                Ok(a.0)
            } else {
                Err(ConfigError::Malformed)
            }
        },
        None => Err(ConfigError::Malformed),
    }
}

/// Parses the persisted document, substituting the default document for
/// anything unreadable: the recovery the read-modify-write path uses, so
/// a corrupt file never blocks a mutation.
pub fn decode_config_or_default(bytes: &Vec<u8>) -> (c: Config)
    ensures
        c@ == (match spec_decode(bytes@) {
            Some(v) => v,
            None => crate::config::config_default(),
        }),
{
    match decode_config(bytes) {
        Ok(c) => c,
        Err(_) => Config::default(),
    }
}

// =========================================================================
// Round trip: parsing inverts the canonical encoding
// =========================================================================

/// A part of a matched region matches its own subrange.
proof fn lemma_sub_at(s: Seq<u8>, pos: int, whole: Seq<u8>, lo: int, hi: int)
    requires
        0 <= pos,
        pos + whole.len() <= s.len(),
        s.subrange(pos, pos + whole.len() as int) == whole,
        0 <= lo <= hi <= whole.len(),
    ensures
        s.subrange(pos + lo, pos + hi) == whole.subrange(lo, hi),
{
    assert(s.subrange(pos + lo, pos + hi) =~= whole.subrange(lo, hi));
}

/// A byte of a matched region.
proof fn lemma_byte_at(s: Seq<u8>, pos: int, whole: Seq<u8>, k: int)
    requires
        0 <= pos,
        pos + whole.len() <= s.len(),
        s.subrange(pos, pos + whole.len() as int) == whole,
        0 <= k < whole.len(),
    ensures
        s[pos + k] == whole[k],
{
    assert(s.subrange(pos, pos + whole.len() as int)[k] == s[pos + k]);
}

proof fn lemma_escape_plain(b: Seq<u8>)
    requires
        forall|j: int| 0 <= j < b.len() ==> (#[trigger] b[j] != QUOTE && b[j] != BACKSLASH && b[j] >= 32),
    ensures
        escape_bytes(b) == b,
    decreases b.len(),
{
    if b.len() > 0 {
        lemma_escape_plain(b.drop_first());
        assert(esc_byte(b[0]) =~= seq![b[0]]);
        assert(seq![b[0]] + b.drop_first() =~= b);
    }
}

proof fn lemma_hex_digit_val(n: int)
    requires
        0 <= n < 16,
    ensures
        hex_val(hex_digit(n)) == n,
{
}

/// Parsing a string body from its escaped bytes and a closing quote.
proof fn lemma_body_roundtrip(s: Seq<u8>, pos: int, b: Seq<u8>)
    requires
        0 <= pos,
        pos + escape_bytes(b).len() + 1 <= s.len(),
        s.subrange(pos, pos + escape_bytes(b).len() + 1) == escape_bytes(b) + seq![QUOTE],
    ensures
        str_body(s, pos) == Some((b, pos + escape_bytes(b).len() + 1)),
    decreases b.len(),
{
    let eb = escape_bytes(b);
    let whole = eb + seq![QUOTE];
    if b.len() == 0 {
        assert(eb =~= Seq::<u8>::empty());
        lemma_byte_at(s, pos, whole, 0);
        assert(s[pos] == QUOTE);
        assert(str_body(s, pos) == Some((Seq::<u8>::empty(), pos + 1)));
        assert(b =~= Seq::<u8>::empty());
    } else {
        let b0 = b[0];
        let e0 = esc_byte(b0);
        let rest = b.drop_first();
        let ebr = escape_bytes(rest);
        assert(eb == e0 + ebr);
        let posr = pos + e0.len();
        assert(s.subrange(posr, posr + ebr.len() + 1) =~= ebr + seq![QUOTE]) by {
            lemma_sub_at(s, pos, whole, e0.len() as int, whole.len() as int);
            assert(whole.subrange(e0.len() as int, whole.len() as int) =~= ebr + seq![QUOTE]);
        }
        lemma_body_roundtrip(s, posr, rest);
        assert(seq![b0] + rest =~= b);
        if b0 == QUOTE {
            lemma_byte_at(s, pos, whole, 0);
            lemma_byte_at(s, pos, whole, 1);
            assert(s[pos] == BACKSLASH && s[pos + 1] == QUOTE);
            assert(str_body(s, pos) == Some((b, pos + eb.len() + 1)));
        } else if b0 == BACKSLASH {
            lemma_byte_at(s, pos, whole, 0);
            lemma_byte_at(s, pos, whole, 1);
            assert(s[pos] == BACKSLASH && s[pos + 1] == BACKSLASH);
            assert(str_body(s, pos) == Some((b, pos + eb.len() + 1)));
        } else if b0 < 32 {
            lemma_byte_at(s, pos, whole, 0);
            lemma_byte_at(s, pos, whole, 1);
            lemma_byte_at(s, pos, whole, 2);
            lemma_byte_at(s, pos, whole, 3);
            lemma_byte_at(s, pos, whole, 4);
            lemma_byte_at(s, pos, whole, 5);
            assert(s[pos] == BACKSLASH && s[pos + 1] == 117);
            assert(s[pos + 2] == 48 && s[pos + 3] == 48);
            assert(s[pos + 4] == hex_digit(b0 as int / 16));
            assert(s[pos + 5] == hex_digit(b0 as int % 16));
            lemma_hex_digit_val(b0 as int / 16);
            lemma_hex_digit_val(b0 as int % 16);
            assert(hex_val(48) == 0);
            let v = hex_val(s[pos + 2]) * 4096 + hex_val(s[pos + 3]) * 256 + hex_val(s[pos + 4])
                * 16 + hex_val(s[pos + 5]);
            assert(v == (b0 as int / 16) * 16 + (b0 as int % 16));
            assert(v == b0 as int);
            assert(str_body(s, pos) == Some((b, pos + eb.len() + 1)));
        } else {
            lemma_byte_at(s, pos, whole, 0);
            assert(s[pos] == b0);
            assert(str_body(s, pos) == Some((b, pos + eb.len() + 1)));
        }
    }
}

/// Parsing a string from its canonical encoding.
proof fn lemma_string_roundtrip(s: Seq<u8>, pos: int, t: Seq<char>)
    requires
        0 <= pos,
        pos + enc_str(t).len() <= s.len(),
        s.subrange(pos, pos + enc_str(t).len() as int) == enc_str(t),
    ensures
        parse_string(s, pos) == Some((t, pos + enc_str(t).len())),
{
    broadcast use vstd::utf8::encode_utf8_valid_utf8, vstd::utf8::encode_utf8_decode_utf8;

    let eb = escape_bytes(encode_utf8(t));
    let whole = enc_str(t);
    lemma_byte_at(s, pos, whole, 0);
    assert(s[pos] == QUOTE);
    assert(s.subrange(pos + 1, pos + 1 + eb.len() + 1) =~= eb + seq![QUOTE]) by {
        lemma_sub_at(s, pos, whole, 1, whole.len() as int);
        assert(whole.subrange(1, whole.len() as int) =~= eb + seq![QUOTE]);
    }
    lemma_body_roundtrip(s, pos + 1, encode_utf8(t));
}

/// Parsing a word string (no escapes, valid UTF-8 on its own).
proof fn lemma_word_roundtrip(s: Seq<u8>, pos: int, w: Seq<u8>)
    requires
        0 <= pos,
        pos + w.len() + 2 <= s.len(),
        s.subrange(pos, pos + w.len() + 2) == seq![QUOTE] + w + seq![QUOTE],
        forall|j: int| 0 <= j < w.len() ==> (#[trigger] w[j] != QUOTE && w[j] != BACKSLASH && w[j] >= 32),
        vstd::utf8::valid_utf8(w),
    ensures
        parse_string(s, pos) == Some((vstd::utf8::decode_utf8(w), pos + w.len() + 2)),
        encode_utf8((parse_string(s, pos)->0).0) == w,
{
    broadcast use vstd::utf8::decode_utf8_encode_utf8;

    lemma_escape_plain(w);
    let whole = seq![QUOTE] + w + seq![QUOTE];
    lemma_byte_at(s, pos, whole, 0);
    assert(s[pos] == QUOTE);
    assert(s.subrange(pos + 1, pos + 1 + w.len() + 1) =~= w + seq![QUOTE]) by {
        lemma_sub_at(s, pos, whole, 1, whole.len() as int);
        assert(whole.subrange(1, whole.len() as int) =~= w + seq![QUOTE]);
    }
    lemma_body_roundtrip(s, pos + 1, w);
}

proof fn lemma_dec_digits_digits(n: u64)
    ensures
        dec_digits(n).len() >= 1,
        forall|j: int| 0 <= j < dec_digits(n).len() ==> is_digit(#[trigger] dec_digits(n)[j]),
    decreases n,
{
    if n >= 10 {
        lemma_dec_digits_digits(n / 10);
        let d = dec_digits(n);
        let prev = dec_digits(n / 10);
        assert forall|j: int| 0 <= j < d.len() implies is_digit(#[trigger] d[j]) by {
            if j < prev.len() {
                assert(d[j] == prev[j]);
            }
        }
    }
}

proof fn lemma_digits_end_at(s: Seq<u8>, pos: int, end: int)
    requires
        0 <= pos <= end <= s.len(),
        forall|j: int| pos <= j < end ==> is_digit(#[trigger] s[j]),
        end == s.len() || !is_digit(s[end]),
    ensures
        digits_end(s, pos) == end,
    decreases end - pos,
{
    if pos < end {
        lemma_digits_end_at(s, pos + 1, end);
    }
}

proof fn lemma_digits_value_of(s: Seq<u8>, pos: int, n: u64)
    requires
        0 <= pos,
        pos + dec_digits(n).len() <= s.len(),
        s.subrange(pos, pos + dec_digits(n).len() as int) == dec_digits(n),
    ensures
        digits_value(s, pos, pos + dec_digits(n).len()) == n,
    decreases n,
{
    let d = dec_digits(n);
    let end = pos + d.len();
    if n < 10 {
        lemma_byte_at(s, pos, d, 0);
        assert(digits_value(s, pos, end) == digits_value(s, pos, pos) * 10 + (s[pos] - 48));
    } else {
        let prev = dec_digits(n / 10);
        assert(d == prev.push((48 + (n % 10)) as u8));
        assert(s.subrange(pos, pos + prev.len() as int) =~= prev) by {
            lemma_sub_at(s, pos, d, 0, prev.len() as int);
            assert(d.subrange(0, prev.len() as int) =~= prev);
        }
        lemma_digits_value_of(s, pos, n / 10);
        lemma_byte_at(s, pos, d, d.len() - 1);
        assert(s[end - 1] == 48 + (n % 10));
        assert(digits_value(s, pos, end) == digits_value(s, pos, end - 1) * 10 + (s[end - 1] - 48));
    }
}

/// Parsing a number from its decimal digits, when no digit follows.
proof fn lemma_u64_roundtrip(s: Seq<u8>, pos: int, n: u64)
    requires
        0 <= pos,
        pos + dec_digits(n).len() <= s.len(),
        s.subrange(pos, pos + dec_digits(n).len() as int) == dec_digits(n),
        pos + dec_digits(n).len() == s.len() || !is_digit(s[pos + dec_digits(n).len()]),
    ensures
        parse_u64(s, pos) == Some((n, pos + dec_digits(n).len())),
{
    let d = dec_digits(n);
    let end = pos + d.len();
    lemma_dec_digits_digits(n);
    assert forall|j: int| pos <= j < end implies is_digit(#[trigger] s[j]) by {
        lemma_byte_at(s, pos, d, j - pos);
    }
    lemma_digits_end_at(s, pos, end);
    lemma_digits_value_of(s, pos, n);
}

/// A byte run of visible ASCII: no quote, no backslash, nothing below
/// space.
pub open spec fn plain_bytes(b: Seq<u8>) -> bool {
    forall|j: int| 0 <= j < b.len() ==> (#[trigger] b[j] != QUOTE && b[j] != BACKSLASH && b[j] >= 32)
}

proof fn lemma_mode_words()
    ensures
        word_off() == encode_utf8("off"@),
        word_precision() == encode_utf8("precision"@),
        word_strict() == encode_utf8("strict"@),
        vstd::utf8::valid_utf8(word_off()),
        vstd::utf8::valid_utf8(word_precision()),
        vstd::utf8::valid_utf8(word_strict()),
        plain_bytes(word_off()),
        plain_bytes(word_precision()),
        plain_bytes(word_strict()),
{
    broadcast use vstd::utf8::is_ascii_chars_encode_utf8, vstd::utf8::encode_utf8_valid_utf8;

    reveal_strlit("off");
    reveal_strlit("precision");
    reveal_strlit("strict");
    assert(vstd::utf8::is_ascii_chars("off"@));
    assert(vstd::utf8::is_ascii_chars("precision"@));
    assert(vstd::utf8::is_ascii_chars("strict"@));
    assert(word_off() =~= encode_utf8("off"@));
    assert(word_precision() =~= encode_utf8("precision"@));
    assert(word_strict() =~= encode_utf8("strict"@));
}

/// Parsing a quoted mode word from its encoding.
proof fn lemma_mode_roundtrip(s: Seq<u8>, pos: int, m: Mode)
    requires
        0 <= pos,
        pos + mode_word(m).len() + 2 <= s.len(),
        s.subrange(pos, pos + mode_word(m).len() + 2) == seq![QUOTE] + mode_word(m) + seq![QUOTE],
    ensures
        parse_mode(s, pos) == Some((m, pos + mode_word(m).len() + 2)),
{
    lemma_mode_words();
    lemma_word_roundtrip(s, pos, mode_word(m));
    broadcast use vstd::utf8::decode_utf8_encode_utf8;

    assert(word_off().len() != word_precision().len());
    assert(word_off().len() != word_strict().len());
    assert(word_precision().len() != word_strict().len());
}

/// Parsing an active mode word from its encoding.
proof fn lemma_default_mode_roundtrip(s: Seq<u8>, pos: int, m: Mode)
    requires
        0 <= pos,
        pos + mode_word(m).len() + 2 <= s.len(),
        s.subrange(pos, pos + mode_word(m).len() + 2) == seq![QUOTE] + mode_word(m) + seq![QUOTE],
        m != Mode::Off,
    ensures
        parse_default_mode(s, pos) == Some((m, pos + mode_word(m).len() + 2)),
{
    lemma_mode_roundtrip(s, pos, m);
}

/// Parsing an optional string from its encoding.
proof fn lemma_opt_str_roundtrip(s: Seq<u8>, pos: int, o: Option<Seq<char>>)
    requires
        0 <= pos,
        pos + enc_opt_str(o).len() <= s.len(),
        s.subrange(pos, pos + enc_opt_str(o).len() as int) == enc_opt_str(o),
    ensures
        parse_opt_string(s, pos) == Some((o, pos + enc_opt_str(o).len())),
{
    match o {
        None => {
            assert(s.subrange(pos, pos + word_null().len() as int) =~= word_null());
        },
        Some(t) => {
            lemma_byte_at(s, pos, enc_str(t), 0);
            assert(s[pos] == QUOTE);
            if has_lit(s, pos, word_null()) {
                assert(s.subrange(pos, pos + word_null().len() as int)[0] == s[pos]);
                assert(false);
            }
            lemma_string_roundtrip(s, pos, t);
        },
    }
}

/// Parsing an optional number from its encoding, when no digit follows.
proof fn lemma_opt_u64_roundtrip(s: Seq<u8>, pos: int, o: Option<u64>)
    requires
        0 <= pos,
        pos + enc_opt_u64(o).len() <= s.len(),
        s.subrange(pos, pos + enc_opt_u64(o).len() as int) == enc_opt_u64(o),
        pos + enc_opt_u64(o).len() == s.len() || !is_digit(s[pos + enc_opt_u64(o).len()]),
    ensures
        parse_opt_u64(s, pos) == Some((o, pos + enc_opt_u64(o).len())),
{
    match o {
        None => {
            assert(s.subrange(pos, pos + word_null().len() as int) =~= word_null());
        },
        Some(n) => {
            lemma_dec_digits_digits(n);
            lemma_byte_at(s, pos, dec_digits(n), 0);
            assert(is_digit(s[pos]));
            if has_lit(s, pos, word_null()) {
                assert(s.subrange(pos, pos + word_null().len() as int)[0] == s[pos]);
                assert(false);
            }
            lemma_u64_roundtrip(s, pos, n);
        },
    }
}

/// Parsing a boolean from its encoding.
proof fn lemma_bool_roundtrip(s: Seq<u8>, pos: int, b: bool)
    requires
        0 <= pos,
        pos + enc_bool(b).len() <= s.len(),
        s.subrange(pos, pos + enc_bool(b).len() as int) == enc_bool(b),
    ensures
        parse_bool(s, pos) == Some((b, pos + enc_bool(b).len())),
{
    if b {
        assert(s.subrange(pos, pos + word_true().len() as int) =~= word_true());
    } else {
        assert(s.subrange(pos, pos + word_false().len() as int) =~= word_false());
        lemma_byte_at(s, pos, word_false(), 0);
        if has_lit(s, pos, word_true()) {
            assert(s.subrange(pos, pos + word_true().len() as int)[0] == s[pos]);
            assert(false);
        }
    }
}

/// The frame of one encoded object member: the quoted key, the colon, and
/// the value region, with no whitespace anywhere.
proof fn lemma_member_frame(s: Seq<u8>, q: int, key: Seq<u8>, val: Seq<u8>)
    requires
        0 <= q,
        q + enc_member(key, val).len() <= s.len(),
        s.subrange(q, q + enc_member(key, val).len() as int) == enc_member(key, val),
        plain_bytes(key),
        val.len() > 0,
        !is_json_ws(val[0]),
    ensures
        s[q] == QUOTE,
        str_body(s, q + 1) == Some((key, q + 2 + key.len())),
        s[q + 2 + key.len()] == COLON,
        skip_ws(s, q + 2 + key.len()) == q + 2 + key.len(),
        skip_ws(s, q + 3 + key.len()) == q + 3 + key.len(),
        s.subrange(q + 3 + key.len(), q + 3 + key.len() + val.len()) == val,
{
    let whole = enc_member(key, val);
    let kl = key.len() as int;
    lemma_byte_at(s, q, whole, 0);
    lemma_byte_at(s, q, whole, kl + 2);
    lemma_escape_plain(key);
    assert(s.subrange(q + 1, q + 1 + kl + 1) =~= key + seq![QUOTE]) by {
        lemma_sub_at(s, q, whole, 1, kl + 2);
        assert(whole.subrange(1, kl + 2) =~= key + seq![QUOTE]);
    }
    lemma_body_roundtrip(s, q + 1, key);
    assert(s.subrange(q + 3 + kl, q + 3 + kl + val.len()) =~= val) by {
        lemma_sub_at(s, q, whole, kl + 3, whole.len() as int);
        assert(whole.subrange(kl + 3, whole.len() as int) =~= val);
    }
    lemma_byte_at(s, q, whole, kl + 3);
    assert(s[q + 3 + kl] == val[0]);
}

proof fn lemma_items_roundtrip(s: Seq<u8>, pos: int, ds: Seq<Seq<char>>, acc: Seq<Seq<char>>, fuel: nat)
    requires
        0 <= pos,
        ds.len() >= 1,
        fuel >= ds.len(),
        pos + enc_items(ds).len() + 1 <= s.len(),
        s.subrange(pos, pos + enc_items(ds).len() + 1) == enc_items(ds) + seq![RBRACKET],
    ensures
        parse_items(s, pos, acc, fuel) == Some((acc + ds, pos + enc_items(ds).len() + 1)),
    decreases ds.len(),
{
    let whole = enc_items(ds) + seq![RBRACKET];
    let e0 = enc_str(ds[0]);
    if ds.len() == 1 {
        assert(enc_items(ds) == e0);
        assert(s.subrange(pos, pos + e0.len() as int) =~= e0) by {
            lemma_sub_at(s, pos, whole, 0, e0.len() as int);
            assert(whole.subrange(0, e0.len() as int) =~= e0);
        }
        lemma_string_roundtrip(s, pos, ds[0]);
        lemma_byte_at(s, pos, whole, e0.len() as int);
        assert(s[pos + e0.len()] == RBRACKET);
        assert(acc.push(ds[0]) =~= acc + ds);
    } else {
        let rest = enc_items(ds.drop_first());
        assert(enc_items(ds) == e0 + seq![COMMA] + rest);
        assert(s.subrange(pos, pos + e0.len() as int) =~= e0) by {
            lemma_sub_at(s, pos, whole, 0, e0.len() as int);
            assert(whole.subrange(0, e0.len() as int) =~= e0);
        }
        lemma_string_roundtrip(s, pos, ds[0]);
        lemma_byte_at(s, pos, whole, e0.len() as int);
        assert(s[pos + e0.len()] == COMMA);
        let p2 = pos + e0.len() + 1;
        assert(s.subrange(p2, p2 + rest.len() + 1) =~= rest + seq![RBRACKET]) by {
            lemma_sub_at(s, pos, whole, e0.len() as int + 1, whole.len() as int);
            assert(whole.subrange(e0.len() as int + 1, whole.len() as int) =~= rest
                + seq![RBRACKET]);
        }
        lemma_items_roundtrip(s, p2, ds.drop_first(), acc.push(ds[0]), (fuel - 1) as nat);
        assert(rest == enc_str(ds.drop_first()[0]) + seq![COMMA] + enc_items(
            ds.drop_first().drop_first(),
        ) || rest == enc_str(ds.drop_first()[0]));
        lemma_byte_at(s, p2, rest + seq![RBRACKET], 0);
        assert(rest[0] == enc_str(ds.drop_first()[0])[0]);
        assert(enc_str(ds.drop_first()[0])[0] == QUOTE);
        assert(s[p2] == QUOTE);
        assert(skip_ws(s, p2) == p2);
        assert(acc.push(ds[0]) + ds.drop_first() =~= acc + ds);
    }
}

proof fn lemma_list_roundtrip(s: Seq<u8>, pos: int, ds: Seq<Seq<char>>, fuel: nat)
    requires
        0 <= pos,
        fuel >= ds.len(),
        pos + enc_list(ds).len() <= s.len(),
        s.subrange(pos, pos + enc_list(ds).len() as int) == enc_list(ds),
    ensures
        parse_str_list(s, pos, fuel) == Some((ds, pos + enc_list(ds).len())),
{
    let whole = enc_list(ds);
    lemma_byte_at(s, pos, whole, 0);
    assert(s[pos] == LBRACKET);
    if ds.len() == 0 {
        assert(enc_items(ds) =~= Seq::<u8>::empty());
        lemma_byte_at(s, pos, whole, 1);
        assert(s[pos + 1] == RBRACKET);
        assert(Seq::<Seq<char>>::empty() =~= ds);
    } else {
        let items = enc_items(ds);
        lemma_byte_at(s, pos, whole, 1);
        assert(whole[1] == items[0]);
        assert(items == enc_str(ds[0]) + seq![COMMA] + enc_items(ds.drop_first()) || items
            == enc_str(ds[0]));
        assert(items[0] == enc_str(ds[0])[0]);
        assert(enc_str(ds[0])[0] == QUOTE);
        assert(s[pos + 1] == QUOTE);
        assert(skip_ws(s, pos + 1) == pos + 1);
        assert(s.subrange(pos + 1, pos + 1 + items.len() + 1) =~= items + seq![RBRACKET]) by {
            lemma_sub_at(s, pos, whole, 1, whole.len() as int);
            assert(whole.subrange(1, whole.len() as int) =~= items + seq![RBRACKET]);
        }
        lemma_items_roundtrip(s, pos + 1, ds, Seq::empty(), fuel);
        assert(Seq::<Seq<char>>::empty() + ds =~= ds);
    }
}

/// The members and member offsets of an encoded session section.
pub open spec fn sess_m1(v: SessionView) -> Seq<u8> {
    enc_member(key_mode(), seq![QUOTE] + mode_word(v.mode) + seq![QUOTE])
}

pub open spec fn sess_m2(v: SessionView) -> Seq<u8> {
    enc_member(key_start_time(), enc_opt_u64(v.start_time))
}

pub open spec fn sess_m3(v: SessionView) -> Seq<u8> {
    enc_member(key_end_time(), enc_opt_u64(v.end_time))
}

pub open spec fn sess_m4(v: SessionView) -> Seq<u8> {
    enc_member(key_locked(), enc_bool(v.locked))
}

pub open spec fn sess_m5(v: SessionView) -> Seq<u8> {
    enc_member(key_scheduled_id(), enc_opt_str(v.scheduled_id))
}

pub open spec fn sess_q(pos: int, v: SessionView, k: int) -> int {
    if k == 1 {
        pos + 1
    } else if k == 2 {
        pos + 1 + sess_m1(v).len() + 1
    } else if k == 3 {
        pos + 1 + sess_m1(v).len() + 1 + sess_m2(v).len() + 1
    } else if k == 4 {
        pos + 1 + sess_m1(v).len() + 1 + sess_m2(v).len() + 1 + sess_m3(v).len() + 1
    } else {
        pos + 1 + sess_m1(v).len() + 1 + sess_m2(v).len() + 1 + sess_m3(v).len() + 1 + sess_m4(
            v,
        ).len() + 1
    }
}

pub open spec fn sess_acc(v: SessionView, k: int) -> SessionView {
    let a0 = crate::config::session_default();
    if k == 0 {
        a0
    } else if k == 1 {
        SessionView { mode: v.mode, ..a0 }
    } else if k == 2 {
        SessionView { mode: v.mode, start_time: v.start_time, ..a0 }
    } else if k == 3 {
        SessionView { mode: v.mode, start_time: v.start_time, end_time: v.end_time, ..a0 }
    } else if k == 4 {
        SessionView {
            mode: v.mode,
            start_time: v.start_time,
            end_time: v.end_time,
            locked: v.locked,
            ..a0
        }
    } else {
        SessionView { active: None, ..v }
    }
}

pub open spec fn sess_whole(v: SessionView) -> Seq<u8> {
    seq![LBRACE] + sess_m1(v) + seq![COMMA] + sess_m2(v) + seq![COMMA] + sess_m3(v) + seq![COMMA]
        + sess_m4(v) + seq![COMMA] + sess_m5(v) + seq![RBRACE]
}
#[verifier::rlimit(100)]
proof fn lemma_sess_step1(s: Seq<u8>, pos: int, v: SessionView, fuel: nat)
    requires
        0 <= pos,
        pos + enc_session(v).len() <= s.len(),
        s.subrange(pos, pos + enc_session(v).len() as int) == enc_session(v),
        fuel >= 1,
    ensures
        ({
            parse_session_members(s, sess_q(pos, v, 1), sess_acc(v, 0), fuel)
                == parse_session_members(
                s,
                sess_q(pos, v, 2),
                sess_acc(v, 1),
                (fuel - 1) as nat,
            )
        }),
{
    let whole = enc_session(v);
    assert(whole == sess_whole(v));
    let mk = sess_m1(v);
    let q = sess_q(pos, v, 1);
    let qn = sess_q(pos, v, 2);
    let qe = q + mk.len();
    let kb = key_mode();
    let vb = seq![QUOTE] + mode_word(v.mode) + seq![QUOTE];
    assert(plain_bytes(kb));
    assert(s.subrange(q, q + mk.len() as int) =~= mk) by {
        lemma_sub_at(s, pos, whole, q - pos, q - pos + mk.len());
        assert(whole.subrange(q - pos, q - pos + mk.len()) =~= mk);
    }
    lemma_member_frame(s, q, kb, vb);
    let qv = q + 3 + kb.len();
    lemma_mode_roundtrip(s, qv, v.mode);
    lemma_byte_at(s, pos, whole, qn - 1 - pos);
    assert(s[qn - 1] == COMMA);
    lemma_byte_at(s, pos, whole, qn - pos);
    assert(s[qn] == sess_m2(v)[0]);
}

#[verifier::rlimit(100)]
proof fn lemma_sess_step2(s: Seq<u8>, pos: int, v: SessionView, fuel: nat)
    requires
        0 <= pos,
        pos + enc_session(v).len() <= s.len(),
        s.subrange(pos, pos + enc_session(v).len() as int) == enc_session(v),
        fuel >= 1,
    ensures
        ({
            parse_session_members(s, sess_q(pos, v, 2), sess_acc(v, 1), fuel)
                == parse_session_members(
                s,
                sess_q(pos, v, 3),
                sess_acc(v, 2),
                (fuel - 1) as nat,
            )
        }),
{
    let whole = enc_session(v);
    assert(whole == sess_whole(v));
    let mk = sess_m2(v);
    let q = sess_q(pos, v, 2);
    let qn = sess_q(pos, v, 3);
    let qe = q + mk.len();
    let kb = key_start_time();
    let vb = enc_opt_u64(v.start_time);
    assert(plain_bytes(kb));
    if v.start_time is Some {
        lemma_dec_digits_digits(v.start_time->0);
    }
    assert(s.subrange(q, q + mk.len() as int) =~= mk) by {
        lemma_sub_at(s, pos, whole, q - pos, q - pos + mk.len());
        assert(whole.subrange(q - pos, q - pos + mk.len()) =~= mk);
    }
    lemma_member_frame(s, q, kb, vb);
    let qv = q + 3 + kb.len();
    lemma_byte_at(s, pos, whole, qn - 1 - pos);
    assert(s[qn - 1] == COMMA);
    lemma_byte_at(s, pos, whole, qn - pos);
    assert(s[qn] == sess_m3(v)[0]);
    lemma_opt_u64_roundtrip(s, qv, v.start_time);
}

#[verifier::rlimit(100)]
proof fn lemma_sess_step3(s: Seq<u8>, pos: int, v: SessionView, fuel: nat)
    requires
        0 <= pos,
        pos + enc_session(v).len() <= s.len(),
        s.subrange(pos, pos + enc_session(v).len() as int) == enc_session(v),
        fuel >= 1,
    ensures
        ({
            parse_session_members(s, sess_q(pos, v, 3), sess_acc(v, 2), fuel)
                == parse_session_members(
                s,
                sess_q(pos, v, 4),
                sess_acc(v, 3),
                (fuel - 1) as nat,
            )
        }),
{
    let whole = enc_session(v);
    assert(whole == sess_whole(v));
    let mk = sess_m3(v);
    let q = sess_q(pos, v, 3);
    let qn = sess_q(pos, v, 4);
    let qe = q + mk.len();
    let kb = key_end_time();
    let vb = enc_opt_u64(v.end_time);
    assert(plain_bytes(kb));
    if v.end_time is Some {
        lemma_dec_digits_digits(v.end_time->0);
    }
    assert(s.subrange(q, q + mk.len() as int) =~= mk) by {
        lemma_sub_at(s, pos, whole, q - pos, q - pos + mk.len());
        assert(whole.subrange(q - pos, q - pos + mk.len()) =~= mk);
    }
    lemma_member_frame(s, q, kb, vb);
    let qv = q + 3 + kb.len();
    lemma_byte_at(s, pos, whole, qn - 1 - pos);
    assert(s[qn - 1] == COMMA);
    lemma_byte_at(s, pos, whole, qn - pos);
    assert(s[qn] == sess_m4(v)[0]);
    lemma_opt_u64_roundtrip(s, qv, v.end_time);
}

#[verifier::rlimit(100)]
proof fn lemma_sess_step4(s: Seq<u8>, pos: int, v: SessionView, fuel: nat)
    requires
        0 <= pos,
        pos + enc_session(v).len() <= s.len(),
        s.subrange(pos, pos + enc_session(v).len() as int) == enc_session(v),
        fuel >= 1,
    ensures
        ({
            parse_session_members(s, sess_q(pos, v, 4), sess_acc(v, 3), fuel)
                == parse_session_members(
                s,
                sess_q(pos, v, 5),
                sess_acc(v, 4),
                (fuel - 1) as nat,
            )
        }),
{
    let whole = enc_session(v);
    assert(whole == sess_whole(v));
    let mk = sess_m4(v);
    let q = sess_q(pos, v, 4);
    let qn = sess_q(pos, v, 5);
    let qe = q + mk.len();
    let kb = key_locked();
    let vb = enc_bool(v.locked);
    assert(plain_bytes(kb));
    assert(s.subrange(q, q + mk.len() as int) =~= mk) by {
        lemma_sub_at(s, pos, whole, q - pos, q - pos + mk.len());
        assert(whole.subrange(q - pos, q - pos + mk.len()) =~= mk);
    }
    lemma_member_frame(s, q, kb, vb);
    let qv = q + 3 + kb.len();
    lemma_bool_roundtrip(s, qv, v.locked);
    lemma_byte_at(s, pos, whole, qn - 1 - pos);
    assert(s[qn - 1] == COMMA);
    lemma_byte_at(s, pos, whole, qn - pos);
    assert(s[qn] == sess_m5(v)[0]);
}

#[verifier::rlimit(100)]
proof fn lemma_sess_step5(s: Seq<u8>, pos: int, v: SessionView, fuel: nat)
    requires
        0 <= pos,
        pos + enc_session(v).len() <= s.len(),
        s.subrange(pos, pos + enc_session(v).len() as int) == enc_session(v),
        fuel >= 1,
    ensures
        ({
            parse_session_members(s, sess_q(pos, v, 5), sess_acc(v, 4), fuel) == Some(
                (sess_acc(v, 5), pos + enc_session(v).len()),
            )
        }),
{
    let whole = enc_session(v);
    assert(whole == sess_whole(v));
    let mk = sess_m5(v);
    let q = sess_q(pos, v, 5);
    let qn: int = 0;
    let qe = q + mk.len();
    let kb = key_scheduled_id();
    let vb = enc_opt_str(v.scheduled_id);
    assert(plain_bytes(kb));
    assert(s.subrange(q, q + mk.len() as int) =~= mk) by {
        lemma_sub_at(s, pos, whole, q - pos, q - pos + mk.len());
        assert(whole.subrange(q - pos, q - pos + mk.len()) =~= mk);
    }
    lemma_member_frame(s, q, kb, vb);
    let qv = q + 3 + kb.len();
    lemma_opt_str_roundtrip(s, qv, v.scheduled_id);
    lemma_byte_at(s, pos, whole, qe - pos);
    assert(s[qe] == RBRACE);
}

/// Parsing a session section from its canonical encoding.
proof fn lemma_session_roundtrip(s: Seq<u8>, pos: int, v: SessionView, fuel: nat)
    requires
        0 <= pos,
        pos + enc_session(v).len() <= s.len(),
        s.subrange(pos, pos + enc_session(v).len() as int) == enc_session(v),
        fuel >= 5,
    ensures
        parse_session(s, pos, fuel) == Some(
            (SessionView { active: None, ..v }, pos + enc_session(v).len()),
        ),
{
    let whole = enc_session(v);
    assert(whole == sess_whole(v));
    lemma_byte_at(s, pos, whole, 0);
    assert(s[pos] == LBRACE);
    lemma_byte_at(s, pos, whole, 1);
    assert(s[pos + 1] == sess_m1(v)[0]);
    assert(sess_m1(v)[0] == QUOTE);
    assert(skip_ws(s, pos + 1) == pos + 1);
    lemma_sess_step1(s, pos, v, fuel);
    lemma_sess_step2(s, pos, v, (fuel - 1) as nat);
    lemma_sess_step3(s, pos, v, (fuel - 2) as nat);
    lemma_sess_step4(s, pos, v, (fuel - 3) as nat);
    lemma_sess_step5(s, pos, v, (fuel - 4) as nat);
    assert(sess_acc(v, 5) == SessionView { active: None, ..v });
}


// =========================================================================
// Round trip: the rules section

pub open spec fn rules_m1(r: RulesView) -> Seq<u8> {
    enc_member(key_blocked_channels(), enc_list(r.blocked_channels))
}

pub open spec fn rules_m2(r: RulesView) -> Seq<u8> {
    enc_member(key_allowed_channels(), enc_list(r.allowed_channels))
}

pub open spec fn rules_whole(r: RulesView) -> Seq<u8> {
    seq![LBRACE] + rules_m1(r) + seq![COMMA] + rules_m2(r) + seq![RBRACE]
}

#[verifier::rlimit(100)]
proof fn lemma_rules_step1(s: Seq<u8>, pos: int, r: RulesView, fuel: nat)
    requires
        0 <= pos,
        pos + enc_rules(r).len() <= s.len(),
        s.subrange(pos, pos + enc_rules(r).len() as int) == enc_rules(r),
        fuel >= 1 + r.blocked_channels.len(),
    ensures
        parse_rules_members(s, pos + 1, crate::config::rules_default(), fuel)
            == parse_rules_members(
            s,
            pos + 1 + rules_m1(r).len() + 1,
            RulesView { blocked_channels: r.blocked_channels, ..crate::config::rules_default() },
            (fuel - 1) as nat,
        ),
{
    let whole = enc_rules(r);
    assert(whole == rules_whole(r));
    let mk = rules_m1(r);
    let q = pos + 1;
    let qn = q + mk.len() + 1;
    let kb = key_blocked_channels();
    let vb = enc_list(r.blocked_channels);
    assert(plain_bytes(kb));
    assert(s.subrange(q, q + mk.len() as int) =~= mk) by {
        lemma_sub_at(s, pos, whole, q - pos, q - pos + mk.len());
        assert(whole.subrange(q - pos, q - pos + mk.len()) =~= mk);
    }
    lemma_member_frame(s, q, kb, vb);
    let qv = q + 3 + kb.len();
    lemma_byte_at(s, pos, whole, qn - 1 - pos);
    assert(s[qn - 1] == COMMA);
    lemma_byte_at(s, pos, whole, qn - pos);
    assert(s[qn] == rules_m2(r)[0]);
    lemma_list_roundtrip(s, qv, r.blocked_channels, fuel);
}

#[verifier::rlimit(100)]
proof fn lemma_rules_step2(s: Seq<u8>, pos: int, r: RulesView, fuel: nat)
    requires
        0 <= pos,
        pos + enc_rules(r).len() <= s.len(),
        s.subrange(pos, pos + enc_rules(r).len() as int) == enc_rules(r),
        fuel >= 1 + r.allowed_channels.len(),
    ensures
        ({
            let acc = RulesView {
                blocked_channels: r.blocked_channels,
                ..crate::config::rules_default()
            };
            parse_rules_members(s, pos + 1 + rules_m1(r).len() + 1, acc, fuel) == Some(
                (r, pos + enc_rules(r).len()),
            )
        }),
{
    let whole = enc_rules(r);
    assert(whole == rules_whole(r));
    let mk = rules_m2(r);
    let q = pos + 1 + rules_m1(r).len() + 1;
    let qe = q + mk.len();
    let kb = key_allowed_channels();
    let vb = enc_list(r.allowed_channels);
    assert(plain_bytes(kb));
    assert(kb[0] != key_blocked_channels()[0]);
    assert(s.subrange(q, q + mk.len() as int) =~= mk) by {
        lemma_sub_at(s, pos, whole, q - pos, q - pos + mk.len());
        assert(whole.subrange(q - pos, q - pos + mk.len()) =~= mk);
    }
    lemma_member_frame(s, q, kb, vb);
    let qv = q + 3 + kb.len();
    lemma_byte_at(s, pos, whole, qe - pos);
    assert(s[qe] == RBRACE);
    lemma_list_roundtrip(s, qv, r.allowed_channels, fuel);
    let acc = RulesView { blocked_channels: r.blocked_channels, ..crate::config::rules_default() };
    assert(RulesView { allowed_channels: r.allowed_channels, ..acc } == r);
}

/// Parsing a rules section from its canonical encoding.
proof fn lemma_rules_roundtrip(s: Seq<u8>, pos: int, r: RulesView, fuel: nat)
    requires
        0 <= pos,
        pos + enc_rules(r).len() <= s.len(),
        s.subrange(pos, pos + enc_rules(r).len() as int) == enc_rules(r),
        fuel >= 2 + r.blocked_channels.len() + r.allowed_channels.len(),
    ensures
        parse_rules(s, pos, fuel) == Some((r, pos + enc_rules(r).len())),
{
    let whole = enc_rules(r);
    assert(whole == rules_whole(r));
    lemma_byte_at(s, pos, whole, 0);
    assert(s[pos] == LBRACE);
    lemma_byte_at(s, pos, whole, 1);
    assert(s[pos + 1] == rules_m1(r)[0]);
    assert(rules_m1(r)[0] == QUOTE);
    assert(skip_ws(s, pos + 1) == pos + 1);
    lemma_rules_step1(s, pos, r, fuel);
    lemma_rules_step2(s, pos, r, (fuel - 1) as nat);
}

// =========================================================================
// Round trip: the settings section

pub open spec fn set_m1(g: SettingsView) -> Seq<u8> {
    enc_member(key_default_mode(), seq![QUOTE] + mode_word(g.default_mode) + seq![QUOTE])
}

pub open spec fn set_m2(g: SettingsView) -> Seq<u8> {
    enc_member(key_block_all_channels(), enc_bool(g.block_all_channels))
}

pub open spec fn set_m3(g: SettingsView) -> Seq<u8> {
    enc_member(key_session_duration_minutes(), dec_digits(g.session_duration_minutes as u64))
}

pub open spec fn set_whole(g: SettingsView) -> Seq<u8> {
    seq![LBRACE] + set_m1(g) + seq![COMMA] + set_m2(g) + seq![COMMA] + set_m3(g) + seq![RBRACE]
}

/// The settings section after one parse: the legacy fields cleared.
pub open spec fn set_parsed(g: SettingsView) -> SettingsView {
    SettingsView { strict_mode: None, block_youtube_fallback: None, ..g }
}

#[verifier::rlimit(100)]
proof fn lemma_set_step1(s: Seq<u8>, pos: int, g: SettingsView, fuel: nat)
    requires
        0 <= pos,
        pos + enc_settings(g).len() <= s.len(),
        s.subrange(pos, pos + enc_settings(g).len() as int) == enc_settings(g),
        fuel >= 1,
        g.default_mode != Mode::Off,
    ensures
        parse_settings_members(s, pos + 1, crate::config::settings_default(), fuel)
            == parse_settings_members(
            s,
            pos + 1 + set_m1(g).len() + 1,
            SettingsView { default_mode: g.default_mode, ..crate::config::settings_default() },
            (fuel - 1) as nat,
        ),
{
    let whole = enc_settings(g);
    assert(whole == set_whole(g));
    let mk = set_m1(g);
    let q = pos + 1;
    let qn = q + mk.len() + 1;
    let kb = key_default_mode();
    let vb = seq![QUOTE] + mode_word(g.default_mode) + seq![QUOTE];
    assert(plain_bytes(kb));
    assert(s.subrange(q, q + mk.len() as int) =~= mk) by {
        lemma_sub_at(s, pos, whole, q - pos, q - pos + mk.len());
        assert(whole.subrange(q - pos, q - pos + mk.len()) =~= mk);
    }
    lemma_member_frame(s, q, kb, vb);
    let qv = q + 3 + kb.len();
    lemma_byte_at(s, pos, whole, qn - 1 - pos);
    assert(s[qn - 1] == COMMA);
    lemma_byte_at(s, pos, whole, qn - pos);
    assert(s[qn] == set_m2(g)[0]);
    lemma_default_mode_roundtrip(s, qv, g.default_mode);
}

#[verifier::rlimit(100)]
proof fn lemma_set_step2(s: Seq<u8>, pos: int, g: SettingsView, fuel: nat)
    requires
        0 <= pos,
        pos + enc_settings(g).len() <= s.len(),
        s.subrange(pos, pos + enc_settings(g).len() as int) == enc_settings(g),
        fuel >= 1,
    ensures
        ({
            let acc1 = SettingsView {
                default_mode: g.default_mode,
                ..crate::config::settings_default()
            };
            let acc2 = SettingsView { block_all_channels: g.block_all_channels, ..acc1 };
            parse_settings_members(s, pos + 1 + set_m1(g).len() + 1, acc1, fuel)
                == parse_settings_members(
                s,
                pos + 1 + set_m1(g).len() + 1 + set_m2(g).len() + 1,
                acc2,
                (fuel - 1) as nat,
            )
        }),
{
    let whole = enc_settings(g);
    assert(whole == set_whole(g));
    let mk = set_m2(g);
    let q = pos + 1 + set_m1(g).len() + 1;
    let qn = q + mk.len() + 1;
    let kb = key_block_all_channels();
    let vb = enc_bool(g.block_all_channels);
    assert(plain_bytes(kb));
    assert(s.subrange(q, q + mk.len() as int) =~= mk) by {
        lemma_sub_at(s, pos, whole, q - pos, q - pos + mk.len());
        assert(whole.subrange(q - pos, q - pos + mk.len()) =~= mk);
    }
    lemma_member_frame(s, q, kb, vb);
    let qv = q + 3 + kb.len();
    lemma_byte_at(s, pos, whole, qn - 1 - pos);
    assert(s[qn - 1] == COMMA);
    lemma_byte_at(s, pos, whole, qn - pos);
    assert(s[qn] == set_m3(g)[0]);
    lemma_bool_roundtrip(s, qv, g.block_all_channels);
}

#[verifier::rlimit(100)]
proof fn lemma_set_step3(s: Seq<u8>, pos: int, g: SettingsView, fuel: nat)
    requires
        0 <= pos,
        pos + enc_settings(g).len() <= s.len(),
        s.subrange(pos, pos + enc_settings(g).len() as int) == enc_settings(g),
        fuel >= 1,
    ensures
        ({
            let acc2 = SettingsView {
                default_mode: g.default_mode,
                block_all_channels: g.block_all_channels,
                ..crate::config::settings_default()
            };
            parse_settings_members(
                s,
                pos + 1 + set_m1(g).len() + 1 + set_m2(g).len() + 1,
                acc2,
                fuel,
            ) == Some((set_parsed(g), pos + enc_settings(g).len()))
        }),
{
    let whole = enc_settings(g);
    assert(whole == set_whole(g));
    let mk = set_m3(g);
    let q = pos + 1 + set_m1(g).len() + 1 + set_m2(g).len() + 1;
    let qe = q + mk.len();
    let kb = key_session_duration_minutes();
    let vb = dec_digits(g.session_duration_minutes as u64);
    assert(plain_bytes(kb));
    lemma_dec_digits_digits(g.session_duration_minutes as u64);
    assert(s.subrange(q, q + mk.len() as int) =~= mk) by {
        lemma_sub_at(s, pos, whole, q - pos, q - pos + mk.len());
        assert(whole.subrange(q - pos, q - pos + mk.len()) =~= mk);
    }
    lemma_member_frame(s, q, kb, vb);
    let qv = q + 3 + kb.len();
    lemma_byte_at(s, pos, whole, qe - pos);
    assert(s[qe] == RBRACE);
    lemma_u64_roundtrip(s, qv, g.session_duration_minutes as u64);
}

/// Parsing a settings section from its canonical encoding.
proof fn lemma_settings_roundtrip(s: Seq<u8>, pos: int, g: SettingsView, fuel: nat)
    requires
        0 <= pos,
        pos + enc_settings(g).len() <= s.len(),
        s.subrange(pos, pos + enc_settings(g).len() as int) == enc_settings(g),
        fuel >= 3,
        g.default_mode != Mode::Off,
    ensures
        parse_settings(s, pos, fuel) == Some((set_parsed(g), pos + enc_settings(g).len())),
{
    let whole = enc_settings(g);
    assert(whole == set_whole(g));
    lemma_byte_at(s, pos, whole, 0);
    assert(s[pos] == LBRACE);
    lemma_byte_at(s, pos, whole, 1);
    assert(s[pos + 1] == set_m1(g)[0]);
    assert(set_m1(g)[0] == QUOTE);
    assert(skip_ws(s, pos + 1) == pos + 1);
    lemma_set_step1(s, pos, g, fuel);
    lemma_set_step2(s, pos, g, (fuel - 1) as nat);
    lemma_set_step3(s, pos, g, (fuel - 2) as nat);
}


// =========================================================================
// Round trip: the document object

pub open spec fn cfg_m1(c: ConfigView) -> Seq<u8> {
    enc_member(key_password_hash(), enc_opt_str(c.password_hash))
}

pub open spec fn cfg_m2(c: ConfigView) -> Seq<u8> {
    enc_member(key_blocked_domains(), enc_list(c.blocked_domains))
}

pub open spec fn cfg_val3(c: ConfigView) -> Seq<u8> {
    match c.session {
        Some(v) => enc_session(v),
        None => word_null(),
    }
}

pub open spec fn cfg_m3(c: ConfigView) -> Seq<u8> {
    enc_member(key_session(), cfg_val3(c))
}

pub open spec fn cfg_val4(c: ConfigView) -> Seq<u8> {
    match c.youtube_rules {
        Some(r) => enc_rules(r),
        None => word_null(),
    }
}

pub open spec fn cfg_m4(c: ConfigView) -> Seq<u8> {
    enc_member(key_youtube_rules(), cfg_val4(c))
}

pub open spec fn cfg_val5(c: ConfigView) -> Seq<u8> {
    match c.global_settings {
        Some(g) => enc_settings(g),
        None => word_null(),
    }
}

pub open spec fn cfg_m5(c: ConfigView) -> Seq<u8> {
    enc_member(key_global_settings(), cfg_val5(c))
}

pub open spec fn cfg_whole(c: ConfigView) -> Seq<u8> {
    seq![LBRACE] + cfg_m1(c) + seq![COMMA] + cfg_m2(c) + seq![COMMA] + cfg_m3(c) + seq![COMMA]
        + cfg_m4(c) + seq![COMMA] + cfg_m5(c) + seq![RBRACE]
}

pub open spec fn cfg_q(pos: int, c: ConfigView, k: int) -> int {
    if k == 1 {
        pos + 1
    } else if k == 2 {
        pos + 1 + cfg_m1(c).len() + 1
    } else if k == 3 {
        pos + 1 + cfg_m1(c).len() + 1 + cfg_m2(c).len() + 1
    } else if k == 4 {
        pos + 1 + cfg_m1(c).len() + 1 + cfg_m2(c).len() + 1 + cfg_m3(c).len() + 1
    } else {
        pos + 1 + cfg_m1(c).len() + 1 + cfg_m2(c).len() + 1 + cfg_m3(c).len() + 1 + cfg_m4(
            c,
        ).len() + 1
    }
}

/// The document as one decode yields it: every current-schema field as
/// stored, the legacy fields cleared.
pub open spec fn decoded_view(c: ConfigView) -> ConfigView {
    ConfigView {
        session: match c.session {
            Some(v) => Some(SessionView { active: None, ..v }),
            None => None,
        },
        global_settings: match c.global_settings {
            Some(g) => Some(set_parsed(g)),
            None => None,
        },
        ..c
    }
}

pub open spec fn cfg_acc(c: ConfigView, k: int) -> ConfigView {
    let a0 = crate::config::config_default();
    if k == 0 {
        a0
    } else if k == 1 {
        ConfigView { password_hash: c.password_hash, ..a0 }
    } else if k == 2 {
        ConfigView { password_hash: c.password_hash, blocked_domains: c.blocked_domains, ..a0 }
    } else if k == 3 {
        ConfigView {
            password_hash: c.password_hash,
            blocked_domains: c.blocked_domains,
            session: decoded_view(c).session,
            ..a0
        }
    } else if k == 4 {
        ConfigView {
            password_hash: c.password_hash,
            blocked_domains: c.blocked_domains,
            session: decoded_view(c).session,
            youtube_rules: c.youtube_rules,
            ..a0
        }
    } else {
        decoded_view(c)
    }
}

#[verifier::rlimit(100)]
proof fn lemma_cfg_step1(s: Seq<u8>, pos: int, c: ConfigView, fuel: nat)
    requires
        0 <= pos,
        pos + spec_encode(c).len() <= s.len(),
        s.subrange(pos, pos + spec_encode(c).len() as int) == spec_encode(c),
        fuel >= 1,
    ensures
        parse_config_members(s, cfg_q(pos, c, 1), cfg_acc(c, 0), fuel) == parse_config_members(
            s,
            cfg_q(pos, c, 2),
            cfg_acc(c, 1),
            (fuel - 1) as nat,
        ),
{
    let whole = spec_encode(c);
    assert(whole == cfg_whole(c));
    let mk = cfg_m1(c);
    let q = cfg_q(pos, c, 1);
    let qn = cfg_q(pos, c, 2);
    let kb = key_password_hash();
    let vb = enc_opt_str(c.password_hash);
    assert(plain_bytes(kb));
    assert(s.subrange(q, q + mk.len() as int) =~= mk) by {
        lemma_sub_at(s, pos, whole, q - pos, q - pos + mk.len());
        assert(whole.subrange(q - pos, q - pos + mk.len()) =~= mk);
    }
    lemma_member_frame(s, q, kb, vb);
    let qv = q + 3 + kb.len();
    lemma_byte_at(s, pos, whole, qn - 1 - pos);
    assert(s[qn - 1] == COMMA);
    lemma_byte_at(s, pos, whole, qn - pos);
    assert(s[qn] == cfg_m2(c)[0]);
    assert(parse_opt_string(s, qv) == Some(
        (c.password_hash, qv + enc_opt_str(c.password_hash).len()),
    )) by {
        lemma_opt_str_roundtrip(s, qv, c.password_hash);
    }
}

#[verifier::rlimit(100)]
proof fn lemma_cfg_step2(s: Seq<u8>, pos: int, c: ConfigView, fuel: nat)
    requires
        0 <= pos,
        pos + spec_encode(c).len() <= s.len(),
        s.subrange(pos, pos + spec_encode(c).len() as int) == spec_encode(c),
        fuel >= 1 + c.blocked_domains.len(),
    ensures
        parse_config_members(s, cfg_q(pos, c, 2), cfg_acc(c, 1), fuel) == parse_config_members(
            s,
            cfg_q(pos, c, 3),
            cfg_acc(c, 2),
            (fuel - 1) as nat,
        ),
{
    let whole = spec_encode(c);
    assert(whole == cfg_whole(c));
    let mk = cfg_m2(c);
    let q = cfg_q(pos, c, 2);
    let qn = cfg_q(pos, c, 3);
    let kb = key_blocked_domains();
    let vb = enc_list(c.blocked_domains);
    assert(plain_bytes(kb));
    assert(s.subrange(q, q + mk.len() as int) =~= mk) by {
        lemma_sub_at(s, pos, whole, q - pos, q - pos + mk.len());
        assert(whole.subrange(q - pos, q - pos + mk.len()) =~= mk);
    }
    lemma_member_frame(s, q, kb, vb);
    let qv = q + 3 + kb.len();
    lemma_byte_at(s, pos, whole, qn - 1 - pos);
    assert(s[qn - 1] == COMMA);
    lemma_byte_at(s, pos, whole, qn - pos);
    assert(s[qn] == cfg_m3(c)[0]);
    assert(parse_str_list(s, qv, fuel) == Some(
        (c.blocked_domains, qv + enc_list(c.blocked_domains).len()),
    )) by {
        lemma_list_roundtrip(s, qv, c.blocked_domains, fuel);
    }
}

#[verifier::rlimit(100)]
proof fn lemma_cfg_step3(s: Seq<u8>, pos: int, c: ConfigView, fuel: nat)
    requires
        0 <= pos,
        pos + spec_encode(c).len() <= s.len(),
        s.subrange(pos, pos + spec_encode(c).len() as int) == spec_encode(c),
        fuel >= 6,
    ensures
        parse_config_members(s, cfg_q(pos, c, 3), cfg_acc(c, 2), fuel) == parse_config_members(
            s,
            cfg_q(pos, c, 4),
            cfg_acc(c, 3),
            (fuel - 1) as nat,
        ),
{
    let whole = spec_encode(c);
    assert(whole == cfg_whole(c));
    let mk = cfg_m3(c);
    let q = cfg_q(pos, c, 3);
    let qn = cfg_q(pos, c, 4);
    let kb = key_session();
    let vb = cfg_val3(c);
    assert(plain_bytes(kb));
    assert(s.subrange(q, q + mk.len() as int) =~= mk) by {
        lemma_sub_at(s, pos, whole, q - pos, q - pos + mk.len());
        assert(whole.subrange(q - pos, q - pos + mk.len()) =~= mk);
    }
    match c.session {
        Some(v) => {
            lemma_byte_at(s, q, mk, kb.len() as int + 3);
            assert(mk[kb.len() as int + 3] == vb[0]);
            assert(vb[0] == LBRACE);
        },
        None => {},
    }
    lemma_member_frame(s, q, kb, vb);
    let qv = q + 3 + kb.len();
    lemma_byte_at(s, pos, whole, qn - 1 - pos);
    assert(s[qn - 1] == COMMA);
    lemma_byte_at(s, pos, whole, qn - pos);
    assert(s[qn] == cfg_m4(c)[0]);
    match c.session {
        Some(v) => {
            assert(!has_lit(s, qv, word_null()) && parse_session(s, qv, fuel) == Some(
                (SessionView { active: None, ..v }, qv + enc_session(v).len()),
            )) by {
                assert(s[qv] == LBRACE);
                if has_lit(s, qv, word_null()) {
                    assert(s.subrange(qv, qv + word_null().len() as int)[0] == s[qv]);
                    assert(false);
                }
                lemma_session_roundtrip(s, qv, v, fuel);
            }
        },
        None => {
            assert(has_lit(s, qv, word_null())) by {
                assert(s.subrange(qv, qv + word_null().len() as int) =~= word_null());
            }
        },
    }
}

#[verifier::rlimit(100)]
proof fn lemma_cfg_step4(s: Seq<u8>, pos: int, c: ConfigView, fuel: nat)
    requires
        0 <= pos,
        pos + spec_encode(c).len() <= s.len(),
        s.subrange(pos, pos + spec_encode(c).len() as int) == spec_encode(c),
        fuel >= 3 + (match c.youtube_rules {
            Some(r) => r.blocked_channels.len() + r.allowed_channels.len(),
            None => 0,
        }),
    ensures
        parse_config_members(s, cfg_q(pos, c, 4), cfg_acc(c, 3), fuel) == parse_config_members(
            s,
            cfg_q(pos, c, 5),
            cfg_acc(c, 4),
            (fuel - 1) as nat,
        ),
{
    let whole = spec_encode(c);
    assert(whole == cfg_whole(c));
    let mk = cfg_m4(c);
    let q = cfg_q(pos, c, 4);
    let qn = cfg_q(pos, c, 5);
    let kb = key_youtube_rules();
    let vb = cfg_val4(c);
    assert(plain_bytes(kb));
    assert(kb[0] != key_password_hash()[0]);
    assert(s.subrange(q, q + mk.len() as int) =~= mk) by {
        lemma_sub_at(s, pos, whole, q - pos, q - pos + mk.len());
        assert(whole.subrange(q - pos, q - pos + mk.len()) =~= mk);
    }
    match c.youtube_rules {
        Some(r) => {
            lemma_byte_at(s, q, mk, kb.len() as int + 3);
            assert(mk[kb.len() as int + 3] == vb[0]);
            assert(vb[0] == LBRACE);
        },
        None => {},
    }
    lemma_member_frame(s, q, kb, vb);
    let qv = q + 3 + kb.len();
    lemma_byte_at(s, pos, whole, qn - 1 - pos);
    assert(s[qn - 1] == COMMA);
    lemma_byte_at(s, pos, whole, qn - pos);
    assert(s[qn] == cfg_m5(c)[0]);
    match c.youtube_rules {
        Some(r) => {
            assert(!has_lit(s, qv, word_null()) && parse_rules(s, qv, fuel) == Some(
                (r, qv + enc_rules(r).len()),
            )) by {
                assert(s[qv] == LBRACE);
                if has_lit(s, qv, word_null()) {
                    assert(s.subrange(qv, qv + word_null().len() as int)[0] == s[qv]);
                    assert(false);
                }
                lemma_rules_roundtrip(s, qv, r, fuel);
            }
        },
        None => {
            assert(has_lit(s, qv, word_null())) by {
                assert(s.subrange(qv, qv + word_null().len() as int) =~= word_null());
            }
        },
    }
}

#[verifier::rlimit(100)]
proof fn lemma_cfg_step5(s: Seq<u8>, pos: int, c: ConfigView, fuel: nat)
    requires
        0 <= pos,
        pos + spec_encode(c).len() <= s.len(),
        s.subrange(pos, pos + spec_encode(c).len() as int) == spec_encode(c),
        fuel >= 4,
        match c.global_settings {
            Some(g) => g.default_mode != Mode::Off,
            None => true,
        },
    ensures
        parse_config_members(s, cfg_q(pos, c, 5), cfg_acc(c, 4), fuel) == Some(
            (decoded_view(c), pos + spec_encode(c).len()),
        ),
{
    let whole = spec_encode(c);
    assert(whole == cfg_whole(c));
    let mk = cfg_m5(c);
    let q = cfg_q(pos, c, 5);
    let qe = q + mk.len();
    let kb = key_global_settings();
    let vb = cfg_val5(c);
    assert(plain_bytes(kb));
    assert(kb[0] != key_blocked_domains()[0]);
    assert(s.subrange(q, q + mk.len() as int) =~= mk) by {
        lemma_sub_at(s, pos, whole, q - pos, q - pos + mk.len());
        assert(whole.subrange(q - pos, q - pos + mk.len()) =~= mk);
    }
    match c.global_settings {
        Some(g) => {
            lemma_byte_at(s, q, mk, kb.len() as int + 3);
            assert(mk[kb.len() as int + 3] == vb[0]);
            assert(vb[0] == LBRACE);
        },
        None => {},
    }
    lemma_member_frame(s, q, kb, vb);
    let qv = q + 3 + kb.len();
    lemma_byte_at(s, pos, whole, qe - pos);
    assert(s[qe] == RBRACE);
    match c.global_settings {
        Some(g) => {
            assert(!has_lit(s, qv, word_null()) && parse_settings(s, qv, fuel) == Some(
                (set_parsed(g), qv + enc_settings(g).len()),
            )) by {
                assert(s[qv] == LBRACE);
                if has_lit(s, qv, word_null()) {
                    assert(s.subrange(qv, qv + word_null().len() as int)[0] == s[qv]);
                    assert(false);
                }
                lemma_settings_roundtrip(s, qv, g, fuel);
            }
        },
        None => {
            assert(has_lit(s, qv, word_null())) by {
                assert(s.subrange(qv, qv + word_null().len() as int) =~= word_null());
            }
        },
    }
    assert(cfg_acc(c, 5) =~= decoded_view(c));
}

/// Decoding inverts the canonical encoding: every current-schema field
/// comes back as stored, and the legacy fields come back cleared.
#[verifier::rlimit(100)]
pub proof fn lemma_encode_decode(c: ConfigView)
    requires
        match c.global_settings {
            Some(g) => g.default_mode != Mode::Off,
            None => true,
        },
        c.blocked_domains.len() + (match c.youtube_rules {
            Some(r) => r.blocked_channels.len() + r.allowed_channels.len(),
            None => 0,
        }) < usize::MAX - 16,
    ensures
        spec_decode(spec_encode(c)) == Some(decoded_view(c)),
        crate::config::legacy_clear(decoded_view(c)),
        crate::config::spec_migrate(decoded_view(c)) == decoded_view(c),
{
    crate::config::lemma_migrate_noop_on_current(decoded_view(c));
    let s = spec_encode(c);
    let whole = spec_encode(c);
    assert(whole == cfg_whole(c));
    assert(s.subrange(0, s.len() as int) =~= whole);
    lemma_byte_at(s, 0, whole, 0);
    assert(s[0] == LBRACE);
    assert(skip_ws(s, 0) == 0);
    lemma_byte_at(s, 0, whole, 1);
    assert(s[1] == cfg_m1(c)[0]);
    assert(cfg_m1(c)[0] == QUOTE);
    assert(skip_ws(s, 1) == 1);
    let fuel = decode_fuel();
    lemma_cfg_step1(s, 0, c, fuel);
    lemma_cfg_step2(s, 0, c, (fuel - 1) as nat);
    lemma_cfg_step3(s, 0, c, (fuel - 2) as nat);
    lemma_cfg_step4(s, 0, c, (fuel - 3) as nat);
    lemma_cfg_step5(s, 0, c, (fuel - 4) as nat);
    assert(parse_config(s, 0, fuel) == Some((decoded_view(c), s.len() as int)));
    assert(skip_ws(s, s.len() as int) == s.len());
}

} // verus!