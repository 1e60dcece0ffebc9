//! Hosts-file reconciliation over a marker-delimited region.
//!
//! All entries managed by this system live between two sentinel marker
//! lines. Everything outside the markers is preserved byte for byte. The
//! functions here are pure: they take the current file content as bytes and
//! return the new content; reading and writing the file happens outside the
//! library.

use vstd::prelude::*;

verus! {

/// The line separator.
pub const NL: u8 = 10;

/// ASCII whitespace, as recognized when a line is compared with a marker.
pub open spec fn is_ws(b: u8) -> bool {
    b == 32 || b == 9 || b == 13 || b == 11 || b == 12
}

/// A line (or domain) that contains no line separator.
pub open spec fn no_nl(l: Seq<u8>) -> bool {
    forall|j: int| 0 <= j < l.len() ==> l[j] != NL
}

/// The sentinel that opens the managed region.
pub open spec fn marker_start_bytes() -> Seq<u8> {
    seq![
        35, 32, 70, 111, 99, 117, 115, 66, 108, 111, 99, 107, 101, 114,
        32, 83, 116, 97, 114, 116,
    ]
}

/// The sentinel that closes the managed region.
pub open spec fn marker_end_bytes() -> Seq<u8> {
    seq![
        35, 32, 70, 111, 99, 117, 115, 66, 108, 111, 99, 107, 101, 114,
        32, 69, 110, 100,
    ]
}

/// The loopback address each blocked domain is mapped to, plus one space.
pub open spec fn loopback_prefix() -> Seq<u8> {
    seq![49, 50, 55, 46, 48, 46, 48, 46, 49, 32]
}

/// The subdomain prefix that gets covered automatically.
pub open spec fn www_prefix() -> Seq<u8> {
    seq![119, 119, 119, 46]
}

/// The sentinel that opens the managed region, as a byte vector.
pub fn marker_start_vec() -> (v: Vec<u8>)
    ensures
        v@ == marker_start_bytes(),
{
    let mut v: Vec<u8> = Vec::new();
    v.push(35);
    v.push(32);
    v.push(70);
    v.push(111);
    v.push(99);
    v.push(117);
    v.push(115);
    v.push(66);
    v.push(108);
    v.push(111);
    v.push(99);
    v.push(107);
    v.push(101);
    v.push(114);
    v.push(32);
    v.push(83);
    v.push(116);
    v.push(97);
    v.push(114);
    v.push(116);
    proof {
        assert(v@ =~= marker_start_bytes());
    }
    v
}

/// The sentinel that closes the managed region, as a byte vector.
pub fn marker_end_vec() -> (v: Vec<u8>)
    ensures
        v@ == marker_end_bytes(),
{
    let mut v: Vec<u8> = Vec::new();
    v.push(35);
    v.push(32);
    v.push(70);
    v.push(111);
    v.push(99);
    v.push(117);
    v.push(115);
    v.push(66);
    v.push(108);
    v.push(111);
    v.push(99);
    v.push(107);
    v.push(101);
    v.push(114);
    v.push(32);
    v.push(69);
    v.push(110);
    v.push(100);
    proof {
        assert(v@ =~= marker_end_bytes());
    }
    v
}

/// The loopback prefix, as a byte vector.
pub fn loopback_prefix_vec() -> (v: Vec<u8>)
    ensures
        v@ == loopback_prefix(),
{
    let mut v: Vec<u8> = Vec::new();
    v.push(49);
    v.push(50);
    v.push(55);
    v.push(46);
    v.push(48);
    v.push(46);
    v.push(48);
    v.push(46);
    v.push(49);
    v.push(32);
    proof {
        assert(v@ =~= loopback_prefix());
    }
    v
}

// =========================================================================
// Trimming, for marker recognition
// =========================================================================

/// Leading-whitespace removal.
pub open spec fn trim_front(s: Seq<u8>) -> Seq<u8>
    decreases s.len(),
{
    if s.len() == 0 {
        s
    } else if is_ws(s[0]) {
        trim_front(s.drop_first())
    } else {
        s
    }
}

/// Trailing-whitespace removal.
pub open spec fn trim_back(s: Seq<u8>) -> Seq<u8>
    decreases s.len(),
{
    if s.len() == 0 {
        s
    } else if is_ws(s.last()) {
        trim_back(s.drop_last())
    } else {
        s
    }
}

/// Whitespace removal at both ends, as marker comparison applies it.
pub open spec fn trim_spec(s: Seq<u8>) -> Seq<u8> {
    trim_back(trim_front(s))
}

proof fn lemma_trim_front_skip(s: Seq<u8>, lo: int)
    requires
        0 <= lo <= s.len(),
        forall|j: int| 0 <= j < lo ==> is_ws(s[j]),
        lo == s.len() || !is_ws(s[lo]),
    ensures
        trim_front(s) == s.skip(lo),
    decreases lo,
{
    if lo == 0 {
        assert(s.skip(0) =~= s);
    } else {
        lemma_trim_front_skip(s.drop_first(), lo - 1);
        assert(s.drop_first().skip(lo - 1) =~= s.skip(lo));
    }
}

proof fn lemma_trim_back_take(s: Seq<u8>, hi: int)
    requires
        0 <= hi <= s.len(),
        forall|j: int| hi <= j < s.len() ==> is_ws(s[j]),
        hi == 0 || !is_ws(s[hi - 1]),
    ensures
        trim_back(s) == s.take(hi),
    decreases s.len() - hi,
{
    if hi == s.len() {
        assert(s.take(hi) =~= s);
    } else {
        lemma_trim_back_take(s.drop_last(), hi);
        assert(s.drop_last().take(hi) =~= s.take(hi));
    }
}

/// A sequence with no whitespace at either end trims to itself.
proof fn lemma_trim_nows(s: Seq<u8>)
    requires
        s.len() > 0,
        !is_ws(s[0]),
        !is_ws(s.last()),
    ensures
        trim_spec(s) == s,
{
    lemma_trim_front_skip(s, 0);
    assert(s.skip(0) =~= s);
    lemma_trim_back_take(s, s.len() as int);
    assert(s.take(s.len() as int) =~= s);
}

/// Trimming keeps the first byte when it is not whitespace.
proof fn lemma_trim_first(s: Seq<u8>)
    requires
        s.len() > 0,
        !is_ws(s[0]),
    ensures
        trim_spec(s).len() > 0,
        trim_spec(s)[0] == s[0],
    decreases s.len(),
{
    lemma_trim_front_skip(s, 0);
    assert(s.skip(0) =~= s);
    lemma_trim_back_keeps_first(s);
}

proof fn lemma_trim_back_keeps_first(s: Seq<u8>)
    requires
        s.len() > 0,
        !is_ws(s[0]),
    ensures
        trim_back(s).len() > 0,
        trim_back(s)[0] == s[0],
    decreases s.len(),
{
    if is_ws(s.last()) {
        assert(s.len() > 1);
        lemma_trim_back_keeps_first(s.drop_last());
    }
}

// =========================================================================
// Byte-vector helpers
// =========================================================================

/// Byte-wise equality of two vectors.
pub fn bytes_eq(a: &Vec<u8>, b: &Vec<u8>) -> (r: bool)
    ensures
        r == (a@ == b@),
{
    if a.len() != b.len() {
        return false;
    }
    let n = a.len();
    let mut i: usize = 0;
    while i < n
        invariant
            n == a.len() == b.len(),
            0 <= i <= n,
            forall|j: int| 0 <= j < i ==> a@[j] == b@[j],
        decreases n - i,
    {
        if a[i] != b[i] {
            return false;
        }
        i = i + 1;
    }
    proof {
        assert(a@ =~= b@);
    }
    true
}

/// Appends all of `src` to `out`.
pub fn push_all(out: &mut Vec<u8>, src: &Vec<u8>)
    ensures
        final(out)@ == old(out)@ + src@,
{
    let n = src.len();
    let mut i: usize = 0;
    while i < n
        invariant
            n == src.len(),
            0 <= i <= n,
            out@ == old(out)@ + src@.take(i as int),
        decreases n - i,
    {
        out.push(src[i]);
        proof {
            assert(old(out)@ + src@.take(i as int) + seq![src@[i as int]] =~= old(out)@
                + src@.take(i + 1));
        }
        i = i + 1;
    }
    proof {
        assert(src@.take(n as int) =~= src@);
    }
}

/// Copies `v[lo..hi]` into a fresh vector.
pub fn subrange_vec(v: &Vec<u8>, lo: usize, hi: usize) -> (out: Vec<u8>)
    requires
        lo <= hi <= v@.len(),
    ensures
        out@ == v@.subrange(lo as int, hi as int),
{
    let mut out: Vec<u8> = Vec::new();
    let mut i: usize = lo;
    while i < hi
        invariant
            lo <= i <= hi <= v@.len(),
            out@ == v@.subrange(lo as int, i as int),
        decreases hi - i,
    {
        out.push(v[i]);
        proof {
            assert(v@.subrange(lo as int, i as int) + seq![v@[i as int]] =~= v@.subrange(
                lo as int,
                i + 1,
            ));
        }
        i = i + 1;
    }
    out
}

/// Whether a byte is ASCII whitespace.
pub fn is_ws_byte(b: u8) -> (r: bool)
    ensures
        r == is_ws(b),
{
    b == 32 || b == 9 || b == 13 || b == 11 || b == 12
}

/// Compares a line, trimmed of surrounding whitespace, with a target.
pub fn trimmed_eq(line: &Vec<u8>, target: &Vec<u8>) -> (r: bool)
    ensures
        r == (trim_spec(line@) == target@),
{
    let n = line.len();
    let mut lo: usize = 0;
    while lo < n && is_ws_byte(line[lo])
        invariant
            0 <= lo <= n == line.len(),
            forall|j: int| 0 <= j < lo ==> is_ws(line@[j]),
        decreases n - lo,
    {
        lo = lo + 1;
    }
    let mut hi: usize = n;
    while hi > lo && is_ws_byte(line[hi - 1])
        invariant
            lo <= hi <= n == line.len(),
            lo == n || !is_ws(line@[lo as int]),
            forall|j: int| hi <= j < n ==> is_ws(line@[j]),
        decreases hi,
    {
        hi = hi - 1;
    }
    proof {
        lemma_trim_front_skip(line@, lo as int);
        if lo == n {
            assert(line@.skip(lo as int) =~= Seq::<u8>::empty());
            assert(trim_spec(line@) =~= line@.subrange(lo as int, hi as int));
        } else {
            lemma_trim_back_take(line@.skip(lo as int), hi - lo);
            assert(line@.skip(lo as int).take(hi - lo) =~= line@.subrange(lo as int, hi as int));
        }
    }
    // trim_spec(line@) == line@.subrange(lo, hi)
    if hi - lo != target.len() {
        proof {
            assert(trim_spec(line@).len() == hi - lo);
        }
        return false;
    }
    let mut k: usize = 0;
    while k < target.len()
        invariant
            0 <= k <= target.len(),
            target@.len() == hi - lo,
            lo <= hi <= line@.len(),
            trim_spec(line@) == line@.subrange(lo as int, hi as int),
            forall|j: int| 0 <= j < k ==> line@[lo + j] == target@[j],
        decreases target.len() - k,
    {
        if line[lo + k] != target[k] {
            proof {
                assert(trim_spec(line@)[k as int] != target@[k as int]);
            }
            return false;
        }
        k = k + 1;
    }
    proof {
        assert(trim_spec(line@) =~= target@);
    }
    true
}

// =========================================================================
// Lines: splitting, joining, stripping the managed region
// =========================================================================

/// Index of the first line separator in `s`, or `s.len()` if there is none.
pub open spec fn find_nl(s: Seq<u8>) -> int
    decreases s.len(),
{
    if s.len() == 0 {
        0
    } else if s[0] == NL {
        0
    } else {
        1 + find_nl(s.drop_first())
    }
}

pub proof fn lemma_find_nl(s: Seq<u8>)
    ensures
        0 <= find_nl(s) <= s.len(),
        find_nl(s) < s.len() ==> s[find_nl(s)] == NL,
        forall|j: int| 0 <= j < find_nl(s) ==> s[j] != NL,
    decreases s.len(),
{
    if s.len() == 0 {
    } else if s[0] == NL {
    } else {
        lemma_find_nl(s.drop_first());
        assert forall|j: int| 0 <= j < find_nl(s) implies s[j] != NL by {
            if j > 0 {
                assert(s.drop_first()[j - 1] == s[j]);
            }
        }
    }
}

/// The lines of `s`: maximal separator-free runs; a trailing separator does
/// not open a final empty line.
pub open spec fn spec_split_lines(s: Seq<u8>) -> Seq<Seq<u8>>
    decreases s.len(),
    via spec_split_lines_dec
{
    if s.len() == 0 {
        Seq::empty()
    } else {
        let i = find_nl(s);
        if i == s.len() {
            seq![s]
        } else {
            seq![s.take(i)] + spec_split_lines(s.skip(i + 1))
        }
    }
}

#[via_fn]
proof fn spec_split_lines_dec(s: Seq<u8>) {
    lemma_find_nl(s);
}

/// Joining lines puts one separator after every line.
pub open spec fn join_lines(ls: Seq<Seq<u8>>) -> Seq<u8>
    decreases ls.len(),
{
    if ls.len() == 0 {
        Seq::empty()
    } else {
        ls[0] + seq![NL] + join_lines(ls.drop_first())
    }
}

/// Every line of `ls` is free of the separator.
pub open spec fn lines_no_nl(ls: Seq<Seq<u8>>) -> bool {
    forall|i: int| 0 <= i < ls.len() ==> no_nl(#[trigger] ls[i])
}

/// Splitting at a first separator position.
pub proof fn lemma_split_at(s: Seq<u8>, k: int)
    requires
        0 <= k < s.len(),
        s[k] == NL,
        forall|j: int| 0 <= j < k ==> s[j] != NL,
    ensures
        spec_split_lines(s) == seq![s.take(k)] + spec_split_lines(s.skip(k + 1)),
{
    lemma_find_nl(s);
    if find_nl(s) < k {
        assert(s[find_nl(s)] != NL);
        assert(false);
    }
    if find_nl(s) > k {
        assert(s[k] != NL);
        assert(false);
    }
}

/// A nonempty separator-free sequence is a single line.
pub proof fn lemma_split_whole(s: Seq<u8>)
    requires
        s.len() > 0,
        no_nl(s),
    ensures
        spec_split_lines(s) == seq![s],
{
    lemma_find_nl(s);
    if find_nl(s) < s.len() {
        assert(s[find_nl(s)] == NL);
        assert(false);
    }
}

/// Every line produced by splitting is separator-free.
pub proof fn lemma_split_no_nl(s: Seq<u8>)
    ensures
        lines_no_nl(spec_split_lines(s)),
    decreases s.len(),
{
    lemma_find_nl(s);
    if s.len() == 0 {
    } else {
        let i = find_nl(s);
        if i == s.len() {
            assert(no_nl(s));
            assert(spec_split_lines(s)[0] == s);
        } else {
            lemma_split_no_nl(s.skip(i + 1));
            let out = spec_split_lines(s);
            assert forall|m: int| 0 <= m < out.len() implies no_nl(#[trigger] out[m]) by {
                if m == 0 {
                    assert(out[0] == s.take(i));
                    assert forall|j: int| 0 <= j < s.take(i).len() implies s.take(i)[j] != NL by {
                        assert(s.take(i)[j] == s[j]);
                    }
                } else {
                    assert(out[m] == spec_split_lines(s.skip(i + 1))[m - 1]);
                }
            }
        }
    }
}

/// Joining distributes over concatenation.
pub proof fn lemma_join_concat(a: Seq<Seq<u8>>, b: Seq<Seq<u8>>)
    ensures
        join_lines(a + b) == join_lines(a) + join_lines(b),
    decreases a.len(),
{
    if a.len() == 0 {
        assert(a + b =~= b);
        assert(join_lines(a) + join_lines(b) =~= join_lines(b));
    } else {
        lemma_join_concat(a.drop_first(), b);
        assert((a + b).drop_first() =~= a.drop_first() + b);
        assert((a + b)[0] == a[0]);
        assert(a[0] + seq![NL] + (join_lines(a.drop_first()) + join_lines(b)) =~= join_lines(a)
            + join_lines(b));
    }
}

/// Joining one more line appends that line and a separator.
pub proof fn lemma_join_push(ls: Seq<Seq<u8>>, l: Seq<u8>)
    ensures
        join_lines(ls.push(l)) == join_lines(ls) + l + seq![NL],
{
    assert(ls.push(l) =~= ls + seq![l]);
    lemma_join_concat(ls, seq![l]);
    let single: Seq<Seq<u8>> = seq![l];
    assert(single.drop_first() =~= Seq::<Seq<u8>>::empty());
    assert(join_lines(single.drop_first()) == Seq::<u8>::empty());
    assert(join_lines(single) == single[0] + seq![NL] + join_lines(single.drop_first()));
    assert(join_lines(single) =~= l + seq![NL]);
    assert(join_lines(ls) + (l + seq![NL]) =~= join_lines(ls) + l + seq![NL]);
}

/// A nonempty join ends with the separator.
pub proof fn lemma_join_last(ls: Seq<Seq<u8>>)
    requires
        ls.len() > 0,
    ensures
        join_lines(ls).len() > 0,
        join_lines(ls).last() == NL,
    decreases ls.len(),
{
    if ls.len() == 1 {
        assert(join_lines(ls.drop_first()) =~= Seq::<u8>::empty());
        assert(join_lines(ls) =~= ls[0] + seq![NL]);
        assert((ls[0] + seq![NL]).last() == NL);
    } else {
        lemma_join_last(ls.drop_first());
        assert(join_lines(ls).last() == join_lines(ls.drop_first()).last());
    }
}

/// Splitting inverts joining, for separator-free lines.
pub proof fn lemma_split_join(ls: Seq<Seq<u8>>)
    requires
        lines_no_nl(ls),
    ensures
        spec_split_lines(join_lines(ls)) == ls,
    decreases ls.len(),
{
    if ls.len() == 0 {
    } else {
        let l0 = ls[0];
        let s = join_lines(ls);
        let k = l0.len() as int;
        assert(s =~= l0 + seq![NL] + join_lines(ls.drop_first()));
        assert(s[k] == NL);
        assert forall|j: int| 0 <= j < k implies s[j] != NL by {
            assert(s[j] == l0[j]);
            assert(no_nl(l0));
        }
        lemma_split_at(s, k);
        assert(s.take(k) =~= l0);
        assert(s.skip(k + 1) =~= join_lines(ls.drop_first()));
        lemma_split_join(ls.drop_first());
        assert(seq![l0] + ls.drop_first() =~= ls);
    }
}

// =========================================================================
// The managed region
// =========================================================================

/// A line that, trimmed, is the opening sentinel.
pub open spec fn is_start_line(l: Seq<u8>) -> bool {
    trim_spec(l) == marker_start_bytes()
}

/// A line that, trimmed, is the closing sentinel.
pub open spec fn is_end_line(l: Seq<u8>) -> bool {
    trim_spec(l) == marker_end_bytes()
}

/// No line of `ls` is a sentinel.
pub open spec fn lines_unmanaged(ls: Seq<Seq<u8>>) -> bool {
    forall|i: int| 0 <= i < ls.len() ==> !is_start_line(#[trigger] ls[i]) && !is_end_line(ls[i])
}

/// Removal of every line between (and including) the sentinels, wherever
/// they occur; a stray sentinel is removed as well.
pub open spec fn strip_rec(ls: Seq<Seq<u8>>, inside: bool) -> Seq<Seq<u8>>
    decreases ls.len(),
{
    if ls.len() == 0 {
        Seq::empty()
    } else if is_start_line(ls[0]) {
        strip_rec(ls.drop_first(), true)
    } else if is_end_line(ls[0]) {
        strip_rec(ls.drop_first(), false)
    } else if inside {
        strip_rec(ls.drop_first(), inside)
    } else {
        seq![ls[0]] + strip_rec(ls.drop_first(), inside)
    }
}

/// The unmanaged lines of a hosts file, in their original order.
pub open spec fn spec_strip(ls: Seq<Seq<u8>>) -> Seq<Seq<u8>> {
    strip_rec(ls, false)
}

/// Stripped output never contains a sentinel line.
pub proof fn lemma_strip_unmanaged(ls: Seq<Seq<u8>>, inside: bool)
    ensures
        lines_unmanaged(strip_rec(ls, inside)),
    decreases ls.len(),
{
    if ls.len() == 0 {
    } else if is_start_line(ls[0]) {
        lemma_strip_unmanaged(ls.drop_first(), true);
    } else if is_end_line(ls[0]) {
        lemma_strip_unmanaged(ls.drop_first(), false);
    } else if inside {
        lemma_strip_unmanaged(ls.drop_first(), inside);
    } else {
        lemma_strip_unmanaged(ls.drop_first(), inside);
        let out = strip_rec(ls, inside);
        let rest = strip_rec(ls.drop_first(), inside);
        assert forall|i: int| 0 <= i < out.len() implies !is_start_line(#[trigger] out[i])
            && !is_end_line(out[i]) by {
            if i > 0 {
                assert(out[i] == rest[i - 1]);
            }
        }
    }
}

/// Stripping keeps separator-free lines separator-free.
pub proof fn lemma_strip_no_nl(ls: Seq<Seq<u8>>, inside: bool)
    requires
        lines_no_nl(ls),
    ensures
        lines_no_nl(strip_rec(ls, inside)),
    decreases ls.len(),
{
    if ls.len() == 0 {
    } else {
        lemma_strip_no_nl(ls.drop_first(), true);
        lemma_strip_no_nl(ls.drop_first(), false);
        lemma_strip_no_nl(ls.drop_first(), inside);
        if !is_start_line(ls[0]) && !is_end_line(ls[0]) && !inside {
            let out = strip_rec(ls, inside);
            let rest = strip_rec(ls.drop_first(), inside);
            assert forall|i: int| 0 <= i < out.len() implies no_nl(#[trigger] out[i]) by {
                if i > 0 {
                    assert(out[i] == rest[i - 1]);
                }
            }
        }
    }
}

/// Stripping a file without sentinels changes nothing.
pub proof fn lemma_strip_id(ls: Seq<Seq<u8>>)
    requires
        lines_unmanaged(ls),
    ensures
        strip_rec(ls, false) == ls,
    decreases ls.len(),
{
    if ls.len() == 0 {
        assert(strip_rec(ls, false) =~= ls);
    } else {
        lemma_strip_id(ls.drop_first());
        assert(seq![ls[0]] + ls.drop_first() =~= ls);
    }
}

/// Stripping passes over an unmanaged prefix.
pub proof fn lemma_strip_prefix_unmanaged(a: Seq<Seq<u8>>, b: Seq<Seq<u8>>)
    requires
        lines_unmanaged(a),
    ensures
        strip_rec(a + b, false) == a + strip_rec(b, false),
    decreases a.len(),
{
    if a.len() == 0 {
        assert(a + b =~= b);
        assert(a + strip_rec(b, false) =~= strip_rec(b, false));
    } else {
        lemma_strip_prefix_unmanaged(a.drop_first(), b);
        assert((a + b).drop_first() =~= a.drop_first() + b);
        assert((a + b)[0] == a[0]);
        assert(seq![a[0]] + (a.drop_first() + strip_rec(b, false)) =~= a + strip_rec(b, false));
    }
}

/// Inside the managed region, non-sentinel lines are skipped.
pub proof fn lemma_strip_inside_skips(a: Seq<Seq<u8>>, b: Seq<Seq<u8>>)
    requires
        lines_unmanaged(a),
    ensures
        strip_rec(a + b, true) == strip_rec(b, true),
    decreases a.len(),
{
    if a.len() == 0 {
        assert(a + b =~= b);
    } else {
        lemma_strip_inside_skips(a.drop_first(), b);
        assert((a + b).drop_first() =~= a.drop_first() + b);
        assert((a + b)[0] == a[0]);
    }
}

// =========================================================================
// Building the managed block
// =========================================================================

/// Whether a domain already carries the `www.` prefix.
pub open spec fn www_prefixed(d: Seq<u8>) -> bool {
    d.len() >= 4 && d.subrange(0, 4) == www_prefix()
}

/// The loopback lines for one domain: the domain itself, and its `www.`
/// variant unless the domain already starts with `www.`.
pub open spec fn lines_for_domain(d: Seq<u8>) -> Seq<Seq<u8>> {
    if www_prefixed(d) {
        seq![loopback_prefix() + d]
    } else {
        seq![loopback_prefix() + d, loopback_prefix() + www_prefix() + d]
    }
}

/// The loopback lines for a list of domains, in order.
pub open spec fn domain_lines(ds: Seq<Seq<u8>>) -> Seq<Seq<u8>>
    decreases ds.len(),
{
    if ds.len() == 0 {
        Seq::empty()
    } else {
        lines_for_domain(ds[0]) + domain_lines(ds.drop_first())
    }
}

/// The managed block for a domain list: nothing at all when the list is
/// empty, otherwise the loopback lines between the two sentinels.
pub open spec fn block_lines(ds: Seq<Seq<u8>>) -> Seq<Seq<u8>> {
    if ds.len() == 0 {
        Seq::empty()
    } else {
        seq![marker_start_bytes()] + domain_lines(ds) + seq![marker_end_bytes()]
    }
}

/// The sentinels trim to themselves and differ from each other.
pub proof fn lemma_marker_facts()
    ensures
        is_start_line(marker_start_bytes()),
        is_end_line(marker_end_bytes()),
        !is_end_line(marker_start_bytes()),
        !is_start_line(marker_end_bytes()),
        no_nl(marker_start_bytes()),
        no_nl(marker_end_bytes()),
{
    lemma_trim_nows(marker_start_bytes());
    lemma_trim_nows(marker_end_bytes());
    assert(marker_start_bytes().len() != marker_end_bytes().len());
}

/// A loopback line is never a sentinel, and carries no separator when the
/// domain carries none.
pub proof fn lemma_loopback_line_clean(l: Seq<u8>, d: Seq<u8>)
    requires
        l == loopback_prefix() + d || l == loopback_prefix() + www_prefix() + d,
        no_nl(d),
    ensures
        !is_start_line(l),
        !is_end_line(l),
        no_nl(l),
{
    assert(l[0] == 49);
    lemma_trim_first(l);
    assert(trim_spec(l)[0] == 49);
    assert(marker_start_bytes()[0] == 35);
    assert(marker_end_bytes()[0] == 35);
    assert(no_nl(loopback_prefix()));
    assert(no_nl(www_prefix()));
    if l == loopback_prefix() + d {
        assert forall|j: int| 0 <= j < l.len() implies l[j] != NL by {
            if j < loopback_prefix().len() {
                assert(l[j] == loopback_prefix()[j]);
            } else {
                assert(l[j] == d[j - loopback_prefix().len()]);
            }
        }
    } else {
        assert forall|j: int| 0 <= j < l.len() implies l[j] != NL by {
            let p = loopback_prefix() + www_prefix();
            assert(l =~= p + d);
            if j < p.len() {
                assert(l[j] == p[j]);
                if j < loopback_prefix().len() {
                    assert(p[j] == loopback_prefix()[j]);
                } else {
                    assert(p[j] == www_prefix()[j - loopback_prefix().len()]);
                }
            } else {
                assert(l[j] == d[j - p.len()]);
            }
        }
    }
}

/// The loopback lines of a separator-free domain list are themselves
/// separator-free and never sentinels.
pub proof fn lemma_domain_lines_clean(ds: Seq<Seq<u8>>)
    requires
        lines_no_nl(ds),
    ensures
        lines_unmanaged(domain_lines(ds)),
        lines_no_nl(domain_lines(ds)),
    decreases ds.len(),
{
    if ds.len() == 0 {
    } else {
        lemma_domain_lines_clean(ds.drop_first());
        let head = lines_for_domain(ds[0]);
        assert(no_nl(ds[0]));
        lemma_loopback_line_clean(loopback_prefix() + ds[0], ds[0]);
        if !www_prefixed(ds[0]) {
            lemma_loopback_line_clean(loopback_prefix() + www_prefix() + ds[0], ds[0]);
        }
        let out = domain_lines(ds);
        let rest = domain_lines(ds.drop_first());
        assert forall|i: int| 0 <= i < out.len() implies !is_start_line(#[trigger] out[i])
            && !is_end_line(out[i]) && no_nl(out[i]) by {
            if i < head.len() {
                assert(out[i] == head[i]);
            } else {
                assert(out[i] == rest[i - head.len()]);
            }
        }
    }
}

/// The whole managed block is separator-free for a separator-free domain
/// list.
pub proof fn lemma_block_lines_no_nl(ds: Seq<Seq<u8>>)
    requires
        lines_no_nl(ds),
    ensures
        lines_no_nl(block_lines(ds)),
{
    if ds.len() == 0 {
    } else {
        lemma_domain_lines_clean(ds);
        lemma_marker_facts();
        let out = block_lines(ds);
        let dl = domain_lines(ds);
        assert forall|i: int| 0 <= i < out.len() implies no_nl(#[trigger] out[i]) by {
            if i == 0 {
                assert(out[0] == marker_start_bytes());
            } else if i <= dl.len() {
                assert(out[i] == dl[i - 1]);
            } else {
                assert(out[i] == marker_end_bytes());
            }
        }
    }
}

/// Stripping removes a freshly built block, whatever follows it.
pub proof fn lemma_strip_block(ds: Seq<Seq<u8>>, rest: Seq<Seq<u8>>)
    requires
        lines_no_nl(ds),
    ensures
        strip_rec(block_lines(ds) + rest, false) == strip_rec(rest, false),
{
    if ds.len() == 0 {
        assert(block_lines(ds) + rest =~= rest);
    } else {
        lemma_marker_facts();
        lemma_domain_lines_clean(ds);
        let dl = domain_lines(ds);
        let whole = block_lines(ds) + rest;
        assert(whole[0] == marker_start_bytes());
        assert(whole.drop_first() =~= dl + (seq![marker_end_bytes()] + rest));
        assert(strip_rec(whole, false) == strip_rec(dl + (seq![marker_end_bytes()] + rest), true));
        lemma_strip_inside_skips(dl, seq![marker_end_bytes()] + rest);
        let tail = seq![marker_end_bytes()] + rest;
        assert(tail[0] == marker_end_bytes());
        assert(tail.drop_first() =~= rest);
        assert(strip_rec(tail, true) == strip_rec(rest, false));
    }
}

// =========================================================================
// Reconciliation
// =========================================================================

/// A trailing separator, added when missing (also to empty content).
pub open spec fn ensure_nl(s: Seq<u8>) -> Seq<u8> {
    if s.len() > 0 && s.last() == NL {
        s
    } else {
        s + seq![NL]
    }
}

/// The new hosts-file content for a domain list: every line outside the
/// sentinels is kept byte for byte and in order, a trailing separator is
/// guaranteed, and the freshly built block (nothing for an empty list) is
/// appended.
pub open spec fn spec_apply(content: Seq<u8>, ds: Seq<Seq<u8>>) -> Seq<u8> {
    ensure_nl(join_lines(spec_strip(spec_split_lines(content)))) + join_lines(block_lines(ds))
}

// =========================================================================
// Executable reconciliation
// =========================================================================

/// Splits content into its lines.
pub fn split_lines(content: &Vec<u8>) -> (lines: Vec<Vec<u8>>)
    ensures
        lines.deep_view() == spec_split_lines(content@),
{
    let n = content.len();
    let mut lines: Vec<Vec<u8>> = Vec::new();
    let mut start: usize = 0;
    let mut i: usize = 0;
    proof {
        assert(content@.skip(0) =~= content@);
        assert(lines.deep_view() + spec_split_lines(content@) =~= spec_split_lines(content@));
    }
    while i < n
        invariant
            0 <= start <= i <= n == content@.len(),
            forall|j: int| start <= j < i ==> content@[j] != NL,
            spec_split_lines(content@) == lines.deep_view() + spec_split_lines(
                content@.skip(start as int),
            ),
        decreases n - i,
    {
        if content[i] == NL {
            let line = subrange_vec(content, start, i);
            let ghost prev = lines.deep_view();
            lines.push(line);
            proof {
                let s = content@.skip(start as int);
                let k = i - start;
                assert(s[k as int] == content@[i as int]);
                assert forall|j: int| 0 <= j < k implies s[j] != NL by {
                    assert(s[j] == content@[start + j]);
                }
                lemma_split_at(s, k as int);
                assert(s.take(k as int) =~= content@.subrange(start as int, i as int));
                assert(s.skip(k + 1) =~= content@.skip(i + 1));
                assert(lines.deep_view() =~~= prev.push(line@));
                assert(prev + (seq![line@] + spec_split_lines(content@.skip(i + 1)))
                    =~= lines.deep_view() + spec_split_lines(content@.skip(i + 1)));
            }
            start = i + 1;
        }
        i = i + 1;
    }
    if start < n {
        let line = subrange_vec(content, start, n);
        let ghost prev = lines.deep_view();
        lines.push(line);
        proof {
            let s = content@.skip(start as int);
            assert forall|j: int| 0 <= j < s.len() implies s[j] != NL by {
                assert(s[j] == content@[start + j]);
            }
            lemma_split_whole(s);
            assert(s =~= content@.subrange(start as int, n as int));
            assert(lines.deep_view() =~~= prev.push(line@));
            assert(prev + seq![line@] =~= lines.deep_view());
        }
    } else {
        proof {
            assert(content@.skip(start as int) =~= Seq::<u8>::empty());
            assert(lines.deep_view() + spec_split_lines(Seq::<u8>::empty()) =~= lines.deep_view());
        }
    }
    lines
}

/// Keeps every line outside the sentinels, in order.
pub fn strip_lines(lines: &Vec<Vec<u8>>) -> (kept: Vec<Vec<u8>>)
    ensures
        kept.deep_view() == spec_strip(lines.deep_view()),
{
    let mstart = marker_start_vec();
    let mend = marker_end_vec();
    let mut kept: Vec<Vec<u8>> = Vec::new();
    let mut inside: bool = false;
    let mut i: usize = 0;
    let n = lines.len();
    proof {
        assert(lines.deep_view().skip(0) =~= lines.deep_view());
        assert(kept.deep_view() + spec_strip(lines.deep_view()) =~= spec_strip(
            lines.deep_view(),
        ));
    }
    while i < n
        invariant
            0 <= i <= n == lines@.len(),
            mstart@ == marker_start_bytes(),
            mend@ == marker_end_bytes(),
            spec_strip(lines.deep_view()) == kept.deep_view() + strip_rec(
                lines.deep_view().skip(i as int),
                inside,
            ),
        decreases n - i,
    {
        let ghost whole = lines.deep_view();
        let ghost tail = whole.skip(i as int);
        let line = &lines[i];
        proof {
            assert(tail[0] == whole[i as int]);
            assert(tail.drop_first() =~= whole.skip(i + 1));
            assert(whole[i as int] =~= line@);
        }
        let starts = trimmed_eq(line, &mstart);
        let ends = trimmed_eq(line, &mend);
        if starts {
            inside = true;
        } else if ends {
            inside = false;
        } else if !inside {
            let copy = subrange_vec(line, 0, line.len());
            let ghost prev = kept.deep_view();
            kept.push(copy);
            proof {
                assert(copy@ =~= whole[i as int]);
                assert(kept.deep_view() =~~= prev.push(whole[i as int]));
                assert(prev + (seq![whole[i as int]] + strip_rec(whole.skip(i + 1), inside))
                    =~= kept.deep_view() + strip_rec(whole.skip(i + 1), inside));
            }
        }
        i = i + 1;
    }
    proof {
        assert(lines.deep_view().skip(n as int) =~= Seq::<Seq<u8>>::empty());
        assert(kept.deep_view() + strip_rec(Seq::empty(), inside) =~= kept.deep_view());
    }
    kept
}

/// Joins lines, one separator after every line.
pub fn join_lines_vec(lines: &Vec<Vec<u8>>) -> (out: Vec<u8>)
    ensures
        out@ == join_lines(lines.deep_view()),
{
    let mut out: Vec<u8> = Vec::new();
    let mut i: usize = 0;
    let n = lines.len();
    while i < n
        invariant
            0 <= i <= n == lines@.len(),
            out@ == join_lines(lines.deep_view().take(i as int)),
        decreases n - i,
    {
        let ghost dv = lines.deep_view();
        proof {
            assert(dv[i as int] =~= lines@[i as int]@);
        }
        push_all(&mut out, &lines[i]);
        out.push(NL);
        proof {
            lemma_join_push(dv.take(i as int), dv[i as int]);
            assert(dv.take(i as int).push(dv[i as int]) =~= dv.take(i + 1));
            assert(join_lines(dv.take(i as int)) + dv[i as int] + seq![NL] =~= out@);
        }
        i = i + 1;
    }
    proof {
        assert(lines.deep_view().take(n as int) =~= lines.deep_view());
    }
    out
}

/// Whether a domain already carries the `www.` prefix.
pub fn is_www_prefixed(d: &Vec<u8>) -> (r: bool)
    ensures
        r == www_prefixed(d@),
{
    if d.len() < 4 {
        return false;
    }
    if d[0] == 119 && d[1] == 119 && d[2] == 119 && d[3] == 46 {
        proof {
            assert(d@.subrange(0, 4) =~= www_prefix());
        }
        true
    } else {
        proof {
            if www_prefixed(d@) {
                assert(d@.subrange(0, 4)[0] == d@[0]);
                assert(d@.subrange(0, 4)[1] == d@[1]);
                assert(d@.subrange(0, 4)[2] == d@[2]);
                assert(d@.subrange(0, 4)[3] == d@[3]);
            }
        }
        false
    }
}

proof fn lemma_domain_lines_push(ds: Seq<Seq<u8>>, d: Seq<u8>)
    ensures
        domain_lines(ds.push(d)) == domain_lines(ds) + lines_for_domain(d),
    decreases ds.len(),
{
    if ds.len() == 0 {
        assert(ds.push(d)[0] == d);
        assert(ds.push(d).drop_first() =~= Seq::<Seq<u8>>::empty());
        assert(domain_lines(ds.push(d)) == lines_for_domain(d) + domain_lines(
            Seq::<Seq<u8>>::empty(),
        ));
        assert(lines_for_domain(d) + Seq::<Seq<u8>>::empty() =~= lines_for_domain(d));
        assert(domain_lines(ds) + lines_for_domain(d) =~= lines_for_domain(d));
    } else {
        lemma_domain_lines_push(ds.drop_first(), d);
        assert(ds.push(d).drop_first() =~= ds.drop_first().push(d));
        assert(ds.push(d)[0] == ds[0]);
        assert(lines_for_domain(ds[0]) + (domain_lines(ds.drop_first()) + lines_for_domain(d))
            =~= domain_lines(ds) + lines_for_domain(d));
    }
}

/// The marker-delimited block as a byte run: one separator between lines,
/// none after the end marker; nothing at all for an empty list.
pub open spec fn spec_build_block(ds: Seq<Seq<u8>>) -> Seq<u8> {
    if ds.len() == 0 {
        Seq::empty()
    } else {
        join_lines(seq![marker_start_bytes()] + domain_lines(ds)) + marker_end_bytes()
    }
}

/// The joined block lines are the bare block followed by one separator.
proof fn lemma_build_block_joined(ds: Seq<Seq<u8>>)
    requires
        ds.len() > 0,
    ensures
        join_lines(block_lines(ds)) == spec_build_block(ds) + seq![NL],
{
    let sofar = seq![marker_start_bytes()] + domain_lines(ds);
    lemma_join_push(sofar, marker_end_bytes());
    assert(sofar.push(marker_end_bytes()) =~= block_lines(ds));
}

/// Builds the marker-delimited block for the given domains: one loopback
/// line per domain, plus one for the `www.` variant unless the domain
/// already starts with `www.`, with a separator between lines and none
/// after the end marker; nothing at all for an empty list.
pub fn build_block(domains: &Vec<Vec<u8>>) -> (out: Vec<u8>)
    ensures
        out@ == spec_build_block(domains.deep_view()),
{
    if domains.len() == 0 {
        let out: Vec<u8> = Vec::new();
        proof {
            assert(out@ =~= spec_build_block(domains.deep_view()));
        }
        return out;
    }
    let lb = loopback_prefix_vec();
    let mut out = marker_start_vec();
    out.push(NL);
    proof {
        lemma_join_push(Seq::empty(), marker_start_bytes());
        assert(Seq::<Seq<u8>>::empty().push(marker_start_bytes()) =~= seq![marker_start_bytes()]);
        assert(join_lines(Seq::<Seq<u8>>::empty()) + marker_start_bytes() + seq![NL] =~= out@);
        assert(domains.deep_view().take(0) =~= Seq::<Seq<u8>>::empty());
        assert(seq![marker_start_bytes()] + domain_lines(domains.deep_view().take(0))
            =~= seq![marker_start_bytes()]);
    }
    let n = domains.len();
    let mut i: usize = 0;
    while i < n
        invariant
            0 <= i <= n == domains@.len(),
            lb@ == loopback_prefix(),
            out@ == join_lines(seq![marker_start_bytes()] + domain_lines(
                domains.deep_view().take(i as int),
            )),
        decreases n - i,
    {
        let ghost dv = domains.deep_view();
        let ghost sofar = seq![marker_start_bytes()] + domain_lines(dv.take(i as int));
        let d = &domains[i];
        proof {
            assert(dv[i as int] =~= d@);
        }
        push_all(&mut out, &lb);
        push_all(&mut out, d);
        out.push(NL);
        proof {
            lemma_join_push(sofar, loopback_prefix() + dv[i as int]);
            assert(join_lines(sofar) + (loopback_prefix() + dv[i as int]) + seq![NL] =~= out@);
        }
        let ghost sofar2 = sofar.push(loopback_prefix() + dv[i as int]);
        if !is_www_prefixed(d) {
            push_all(&mut out, &lb);
            out.push(119);
            out.push(119);
            out.push(119);
            out.push(46);
            push_all(&mut out, d);
            out.push(NL);
            proof {
                lemma_join_push(sofar2, loopback_prefix() + www_prefix() + dv[i as int]);
                assert(join_lines(sofar2) + (loopback_prefix() + www_prefix() + dv[i as int])
                    + seq![NL] =~= out@);
            }
        }
        proof {
            lemma_domain_lines_push(dv.take(i as int), dv[i as int]);
            assert(dv.take(i as int).push(dv[i as int]) =~= dv.take(i + 1));
            if www_prefixed(dv[i as int]) {
                assert(sofar2 =~= seq![marker_start_bytes()] + domain_lines(dv.take(i + 1)));
            } else {
                assert(sofar2.push(loopback_prefix() + www_prefix() + dv[i as int])
                    =~= seq![marker_start_bytes()] + domain_lines(dv.take(i + 1)));
            }
        }
        i = i + 1;
    }
    let mend = marker_end_vec();
    push_all(&mut out, &mend);
    proof {
        let dv = domains.deep_view();
        assert(dv.take(n as int) =~= dv);
        assert(out@ == join_lines(seq![marker_start_bytes()] + domain_lines(dv))
            + marker_end_bytes());
    }
    out
}

/// Removes the managed region from content, leaving one separator after
/// every remaining line.
pub fn strip_block(content: &Vec<u8>) -> (out: Vec<u8>)
    ensures
        out@ == join_lines(spec_strip(spec_split_lines(content@))),
{
    let lines = split_lines(content);
    let kept = strip_lines(&lines);
    join_lines_vec(&kept)
}

/// Computes the new hosts-file content for `domains`: removes every line
/// between (and including) the sentinels wherever they occur, keeps all
/// other lines byte for byte and in order, guarantees a trailing separator,
/// and appends the freshly built block — no block at all when `domains` is
/// empty.
pub fn apply(content: &Vec<u8>, domains: &Vec<Vec<u8>>) -> (out: Vec<u8>)
    ensures
        out@ == spec_apply(content@, domains.deep_view()),
{
    let mut cleaned = strip_block(content);
    if cleaned.len() == 0 || cleaned[cleaned.len() - 1] != NL {
        cleaned.push(NL);
    }
    proof {
        assert(cleaned@ == ensure_nl(join_lines(spec_strip(spec_split_lines(content@)))));
    }
    let ghost cleaned0 = cleaned@;
    let block = build_block(domains);
    if block.len() > 0 {
        push_all(&mut cleaned, &block);
        cleaned.push(NL);
        proof {
            assert(domains.deep_view().len() > 0);
            lemma_build_block_joined(domains.deep_view());
            assert(cleaned@ =~= cleaned0 + (spec_build_block(domains.deep_view()) + seq![NL]));
        }
    } else {
        proof {
            assert(domains.deep_view().len() == 0);
            assert(join_lines(block_lines(domains.deep_view())) == Seq::<u8>::empty());
            assert(cleaned@ =~= cleaned0 + join_lines(block_lines(domains.deep_view())));
        }
    }
    cleaned
}

// =========================================================================
// Integrity checking
// =========================================================================

/// Whether `pat` occurs in `s` as a contiguous run.
pub open spec fn contains_sub(s: Seq<u8>, pat: Seq<u8>) -> bool {
    exists|k: int|
        0 <= k && k + pat.len() <= s.len() && #[trigger] s.subrange(k, k + pat.len() as int) == pat
}

/// Naive substring search.
pub fn find_sub(s: &Vec<u8>, pat: &Vec<u8>) -> (r: bool)
    ensures
        r == contains_sub(s@, pat@),
{
    let m = pat.len();
    let n = s.len();
    if m > n {
        return false;
    }
    if m == 0 {
        proof {
            let kk: int = 0;
            assert(s@.subrange(kk, kk + pat@.len() as int) =~= pat@);
            assert(contains_sub(s@, pat@));
        }
        return true;
    }
    let mut k: usize = 0;
    while k <= n - m
        invariant
            m == pat@.len() <= n == s@.len(),
            m >= 1,
            0 <= k <= n - m + 1,
            forall|k2: int|
                0 <= k2 < k ==> #[trigger] s@.subrange(k2, k2 + pat@.len() as int) != pat@,
        decreases n - m + 1 - k,
    {
        let mut j: usize = 0;
        let mut hit = true;
        while j < m
            invariant
                m == pat@.len() <= n == s@.len(),
                0 <= k <= n - m,
                0 <= j <= m,
                hit ==> forall|j2: int| 0 <= j2 < j ==> s@[k + j2] == pat@[j2],
                !hit ==> s@.subrange(k as int, k + m as int) != pat@,
            decreases m - j,
        {
            if s[k + j] != pat[j] {
                hit = false;
                proof {
                    assert(s@.subrange(k as int, k + m as int)[j as int] == s@[k + j]);
                }
                j = m;
            } else {
                j = j + 1;
            }
        }
        if hit {
            proof {
                let kk = k as int;
                assert(s@.subrange(kk, kk + pat@.len() as int) =~= pat@);
                assert(contains_sub(s@, pat@));
            }
            return true;
        }
        k = k + 1;
    }
    false
}

/// The cheap integrity condition: both sentinels occur, and every domain's
/// loopback line occurs.
pub open spec fn hosts_intact(content: Seq<u8>, ds: Seq<Seq<u8>>) -> bool {
    &&& contains_sub(content, marker_start_bytes())
    &&& contains_sub(content, marker_end_bytes())
    &&& forall|i: int|
        0 <= i < ds.len() ==> contains_sub(content, loopback_prefix() + #[trigger] ds[i])
}

/// Checks hosts-file integrity for the expected domains. Returns `None`
/// when nothing needs doing: the domain list is empty, or both sentinels
/// and every domain's loopback line are present. Otherwise returns the
/// fully rebuilt content, as `apply` would produce it.
pub fn ensure_integrity(content: &Vec<u8>, domains: &Vec<Vec<u8>>) -> (r: Option<Vec<u8>>)
    ensures
        domains@.len() == 0 ==> r is None,
        domains@.len() > 0 ==> ((r is None) <==> hosts_intact(content@, domains.deep_view())),
        r is Some ==> r->0@ == spec_apply(content@, domains.deep_view()),
{
    if domains.len() == 0 {
        return None;
    }
    let mstart = marker_start_vec();
    let mend = marker_end_vec();
    let mut intact = find_sub(content, &mstart) && find_sub(content, &mend);
    let n = domains.len();
    let mut i: usize = 0;
    while i < n && intact
        invariant
            0 <= i <= n == domains@.len(),
            intact ==> contains_sub(content@, marker_start_bytes()),
            intact ==> contains_sub(content@, marker_end_bytes()),
            intact ==> forall|i2: int|
                0 <= i2 < i ==> contains_sub(
                    content@,
                    loopback_prefix() + #[trigger] domains.deep_view()[i2],
                ),
            !intact ==> !hosts_intact(content@, domains.deep_view()),
        decreases n - i,
    {
        let mut needle = loopback_prefix_vec();
        push_all(&mut needle, &domains[i]);
        proof {
            assert(needle@ =~= loopback_prefix() + domains.deep_view()[i as int]);
        }
        if !find_sub(content, &needle) {
            intact = false;
        }
        i = i + 1;
    }
    if intact {
        None
    } else {
        Some(apply(content, domains))
    }
}

// =========================================================================
// Reconciliation laws
// =========================================================================

/// The lines a stripped-and-reassembled file consists of: the kept lines,
/// or one empty line when nothing was kept (the guaranteed separator).
pub open spec fn padded(ls: Seq<Seq<u8>>) -> Seq<Seq<u8>> {
    if ls.len() == 0 {
        seq![Seq::<u8>::empty()]
    } else {
        ls
    }
}

proof fn lemma_empty_line_clean()
    ensures
        !is_start_line(Seq::<u8>::empty()),
        !is_end_line(Seq::<u8>::empty()),
        no_nl(Seq::<u8>::empty()),
{
    assert(trim_spec(Seq::<u8>::empty()).len() == 0);
}

proof fn lemma_cleaned_is_join_padded(content: Seq<u8>)
    ensures
        ensure_nl(join_lines(spec_strip(spec_split_lines(content)))) == join_lines(
            padded(spec_strip(spec_split_lines(content))),
        ),
{
    let kept = spec_strip(spec_split_lines(content));
    if kept.len() == 0 {
        let one = seq![Seq::<u8>::empty()];
        assert(one.drop_first() =~= Seq::<Seq<u8>>::empty());
        assert(join_lines(one) == one[0] + seq![NL] + join_lines(one.drop_first()));
        assert(ensure_nl(join_lines(kept)) =~= join_lines(one));
    } else {
        lemma_join_last(kept);
    }
}

/// The lines of the output of a reconciliation: the kept unmanaged lines
/// (padded with one empty line if none remain) followed by the fresh block.
proof fn lemma_apply_lines(content: Seq<u8>, ds: Seq<Seq<u8>>)
    requires
        lines_no_nl(ds),
    ensures
        spec_split_lines(spec_apply(content, ds)) == padded(
            spec_strip(spec_split_lines(content)),
        ) + block_lines(ds),
{
    let kept = spec_strip(spec_split_lines(content));
    let keptp = padded(kept);
    lemma_cleaned_is_join_padded(content);
    lemma_join_concat(keptp, block_lines(ds));
    assert(spec_apply(content, ds) == join_lines(keptp + block_lines(ds)));
    lemma_split_no_nl(content);
    lemma_strip_no_nl(spec_split_lines(content), false);
    lemma_block_lines_no_nl(ds);
    lemma_empty_line_clean();
    let whole = keptp + block_lines(ds);
    assert forall|i: int| 0 <= i < whole.len() implies no_nl(#[trigger] whole[i]) by {
        if i < keptp.len() {
            assert(whole[i] == keptp[i]);
            if kept.len() > 0 {
                assert(keptp[i] == kept[i]);
            }
        } else {
            assert(whole[i] == block_lines(ds)[i - keptp.len()]);
        }
    }
    lemma_split_join(whole);
}

/// Idempotence: reconciling the same domain set twice in a row yields the
/// same bytes as reconciling it once.
pub proof fn lemma_apply_idempotent(content: Seq<u8>, ds: Seq<Seq<u8>>)
    requires
        lines_no_nl(ds),
    ensures
        spec_apply(spec_apply(content, ds), ds) == spec_apply(content, ds),
{
    let kept = spec_strip(spec_split_lines(content));
    let keptp = padded(kept);
    let out = spec_apply(content, ds);
    lemma_apply_lines(content, ds);
    lemma_strip_unmanaged(spec_split_lines(content), false);
    lemma_empty_line_clean();
    assert(lines_unmanaged(keptp));
    lemma_strip_prefix_unmanaged(keptp, block_lines(ds));
    lemma_strip_block(ds, Seq::empty());
    assert(block_lines(ds) + Seq::<Seq<u8>>::empty() =~= block_lines(ds));
    assert(strip_rec(Seq::<Seq<u8>>::empty(), false) =~= Seq::<Seq<u8>>::empty());
    assert(spec_strip(spec_split_lines(out)) =~= keptp);
    lemma_join_last(keptp);
    assert(ensure_nl(join_lines(keptp)) == join_lines(keptp));
    lemma_cleaned_is_join_padded(content);
    assert(spec_apply(out, ds) == join_lines(keptp) + join_lines(block_lines(ds)));
    assert(out == join_lines(keptp) + join_lines(block_lines(ds)));
}

/// Non-destructive editing: for content made of unmanaged lines around a
/// managed block, reconciliation keeps every unmanaged line, byte for byte
/// and in order, and replaces only the block.
pub proof fn lemma_apply_preserves_unmanaged(
    u1: Seq<Seq<u8>>,
    d0: Seq<Seq<u8>>,
    u2: Seq<Seq<u8>>,
    ds: Seq<Seq<u8>>,
)
    requires
        lines_unmanaged(u1),
        lines_unmanaged(u2),
        lines_no_nl(u1),
        lines_no_nl(u2),
        lines_no_nl(d0),
        d0.len() > 0,
    ensures
        spec_apply(join_lines(u1) + join_lines(block_lines(d0)) + join_lines(u2), ds)
            == ensure_nl(join_lines(u1 + u2)) + join_lines(block_lines(ds)),
{
    let content = join_lines(u1) + join_lines(block_lines(d0)) + join_lines(u2);
    let whole = u1 + block_lines(d0) + u2;
    lemma_join_concat(u1, block_lines(d0));
    lemma_join_concat(u1 + block_lines(d0), u2);
    assert(content =~= join_lines(whole));
    lemma_block_lines_no_nl(d0);
    assert forall|i: int| 0 <= i < whole.len() implies no_nl(#[trigger] whole[i]) by {
        if i < u1.len() {
            assert(whole[i] == u1[i]);
        } else if i < u1.len() + block_lines(d0).len() {
            assert(whole[i] == block_lines(d0)[i - u1.len()]);
        } else {
            assert(whole[i] == u2[i - u1.len() - block_lines(d0).len()]);
        }
    }
    lemma_split_join(whole);
    assert(whole =~= u1 + (block_lines(d0) + u2));
    lemma_strip_prefix_unmanaged(u1, block_lines(d0) + u2);
    lemma_strip_block(d0, u2);
    lemma_strip_id(u2);
    assert(spec_strip(whole) =~= u1 + u2);
    lemma_cleaned_is_join_padded(content);
}

/// Coverage of the `www.` variant: a domain not already prefixed with
/// `www.` yields both loopback lines; one already prefixed yields only its
/// own line.
pub proof fn lemma_www_coverage(d: Seq<u8>)
    ensures
        !www_prefixed(d) ==> block_lines(seq![d]) == seq![
            marker_start_bytes(),
            loopback_prefix() + d,
            loopback_prefix() + www_prefix() + d,
            marker_end_bytes(),
        ],
        www_prefixed(d) ==> block_lines(seq![d]) == seq![
            marker_start_bytes(),
            loopback_prefix() + d,
            marker_end_bytes(),
        ],
{
    assert(seq![d].drop_first() =~= Seq::<Seq<u8>>::empty());
    assert(domain_lines(seq![d]) == lines_for_domain(d) + domain_lines(Seq::<Seq<u8>>::empty()));
    if www_prefixed(d) {
        assert(block_lines(seq![d]) =~= seq![
            marker_start_bytes(),
            loopback_prefix() + d,
            marker_end_bytes(),
        ]);
    } else {
        assert(block_lines(seq![d]) =~= seq![
            marker_start_bytes(),
            loopback_prefix() + d,
            loopback_prefix() + www_prefix() + d,
            marker_end_bytes(),
        ]);
    }
}

// =========================================================================
// Domains as bytes
// =========================================================================

/// The UTF-8 bytes of each domain, in order.
pub open spec fn utf8_views(ds: Seq<Seq<char>>) -> Seq<Seq<u8>> {
    Seq::new(ds.len(), |i: int| vstd::utf8::encode_utf8(ds[i]))
}

/// Encodes each domain string as its UTF-8 bytes.
pub fn domains_to_bytes(domains: &Vec<String>) -> (out: Vec<Vec<u8>>)
    ensures
        out.deep_view() == utf8_views(domains.deep_view()),
{
    let mut out: Vec<Vec<u8>> = Vec::new();
    let n = domains.len();
    let mut i: usize = 0;
    while i < n
        invariant
            0 <= i <= n == domains@.len(),
            out.deep_view() == utf8_views(domains.deep_view().take(i as int)),
        decreases n - i,
    {
        let b = vstd::slice::slice_to_vec(domains[i].as_str().as_bytes());
        let ghost prev = out.deep_view();
        out.push(b);
        proof {
            assert(domains.deep_view()[i as int] == domains@[i as int]@);
            assert(b@ == vstd::utf8::encode_utf8(domains.deep_view()[i as int]));
            assert(out.deep_view() =~~= prev.push(b@));
            assert(prev.push(b@) =~~= utf8_views(domains.deep_view().take(i + 1)));
        }
        i = i + 1;
    }
    proof {
        assert(domains.deep_view().take(n as int) =~= domains.deep_view());
    }
    out
}

} // verus!
