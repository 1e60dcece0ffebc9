//! Bookkeeping for force-install policy entries.
//!
//! A policy key holds numbered string values; a new extension id goes into
//! the next free number unless some value already names it. Reading and
//! writing the key happens outside the library; the decision which slot to
//! use — or that none is needed — is pure.

use vstd::prelude::*;
use vstd::string::StrSliceExecFns;

verus! {

/// Whether `v` is `e` followed by a `;` and anything after it.
pub open spec fn id_prefixed(v: Seq<char>, e: Seq<char>) -> bool {
    v.len() > e.len() && v.subrange(0, e.len() as int) == e && v[e.len() as int] == ';'
}

/// Whether some existing value already names the extension: it equals the
/// id, or starts with the id followed by `;`.
pub open spec fn already_registered(values: Seq<Seq<char>>, e: Seq<char>) -> bool {
    exists|i: int| 0 <= i < values.len() && (#[trigger] values[i] == e || id_prefixed(values[i], e))
}

/// One more than the largest numbered slot in use, zero when none is;
/// saturating at the largest representable number.
pub open spec fn next_slot_index(names: Seq<Option<u32>>) -> u32
    decreases names.len(),
{
    if names.len() == 0 {
        0
    } else {
        let rest = next_slot_index(names.drop_first());
        match names[0] {
            Some(idx) => {
                let cand: u32 = if idx == 0xFFFF_FFFFu32 {
                    idx
                } else {
                    (idx + 1) as u32
                };
                if cand > rest {
                    cand
                } else {
                    rest
                }
            },
            None => rest,
        }
    }
}

proof fn lemma_next_slot_push(names: Seq<Option<u32>>, x: Option<u32>)
    ensures
        next_slot_index(names.push(x)) == ({
            let rest = next_slot_index(names);
            match x {
                Some(idx) => {
                    let cand: u32 = if idx == 0xFFFF_FFFFu32 {
                        idx
                    } else {
                        (idx + 1) as u32
                    };
                    if cand > rest {
                        cand
                    } else {
                        rest
                    }
                },
                None => rest,
            }
        }),
    decreases names.len(),
{
    if names.len() == 0 {
        assert(names.push(x)[0] == x);
        assert(names.push(x).drop_first() =~= Seq::<Option<u32>>::empty());
        assert(next_slot_index(Seq::<Option<u32>>::empty()) == 0);
        assert(next_slot_index(names) == 0);
        assert(next_slot_index(names.push(x)) == ({
            let rest = next_slot_index(names.push(x).drop_first());
            match names.push(x)[0] {
                Some(idx) => {
                    let cand: u32 = if idx == 0xFFFF_FFFFu32 {
                        idx
                    } else {
                        (idx + 1) as u32
                    };
                    if cand > rest {
                        cand
                    } else {
                        rest
                    }
                },
                None => rest,
            }
        }));
    } else {
        lemma_next_slot_push(names.drop_first(), x);
        assert(names.push(x)[0] == names[0]);
        assert(names.push(x).drop_first() =~= names.drop_first().push(x));
        assert(next_slot_index(names.push(x)) == ({
            let rest = next_slot_index(names.push(x).drop_first());
            match names.push(x)[0] {
                Some(idx) => {
                    let cand: u32 = if idx == 0xFFFF_FFFFu32 {
                        idx
                    } else {
                        (idx + 1) as u32
                    };
                    if cand > rest {
                        cand
                    } else {
                        rest
                    }
                },
                None => rest,
            }
        }));
    }
}

/// Whether one value already names the extension.
fn value_names_id(v: &String, e: &String) -> (r: bool)
    ensures
        r == (v@ == e@ || id_prefixed(v@, e@)),
{
    if v.eq(e) {
        return true;
    }
    let vl = v.as_str().unicode_len();
    let el = e.as_str().unicode_len();
    if vl <= el {
        return false;
    }
    let mut j: usize = 0;
    while j < el
        invariant
            0 <= j <= el == e@.len(),
            vl == v@.len(),
            el < vl,
            forall|k: int| 0 <= k < j ==> v@[k] == e@[k],
        decreases el - j,
    {
        if v.as_str().get_char(j) != e.as_str().get_char(j) {
            proof {
                assert(v@.subrange(0, e@.len() as int)[j as int] != e@[j as int]);
            }
            return false;
        }
        j = j + 1;
    }
    proof {
        assert(v@.subrange(0, e@.len() as int) =~= e@);
    }
    let sep = v.as_str().get_char(el);
    sep == ';'
}

/// Picks the slot for a force-install entry: `None` when some existing
/// value already names the extension, otherwise the next free number.
/// `names` holds each existing value's name parsed as a number (`None` for
/// a name that is no number), `values` the values themselves, in the same
/// order.
pub fn force_install_slot(names: &Vec<Option<u32>>, values: &Vec<String>, extension_id: &String)
    -> (slot: Option<u32>)
    requires
        names@.len() == values@.len(),
    ensures
        slot is None <==> already_registered(values.deep_view(), extension_id@),
        slot matches Some(i) ==> i == next_slot_index(names@),
{
    let n = values.len();
    let mut i: usize = 0;
    let mut max_index: u32 = 0;
    while i < n
        invariant
            0 <= i <= n == values@.len() == names@.len(),
            max_index == next_slot_index(names@.take(i as int)),
            forall|k: int|
                0 <= k < i ==> !(#[trigger] values.deep_view()[k] == extension_id@ || id_prefixed(
                    values.deep_view()[k],
                    extension_id@,
                )),
        decreases n - i,
    {
        if value_names_id(&values[i], extension_id) {
            proof {
                assert(values.deep_view()[i as int] == values@[i as int]@);
            }
            return None;
        }
        let idx: Option<u32> = names[i];
        if let Some(ix) = idx {
            if ix == 0xFFFF_FFFFu32 {
                max_index = ix;
            } else if ix + 1 > max_index {
                max_index = ix + 1;
            }
        }
        proof {
            lemma_next_slot_push(names@.take(i as int), names@[i as int]);
            assert(names@.take(i as int).push(names@[i as int]) =~= names@.take(i + 1));
        }
        i = i + 1;
    }
    proof {
        assert(names@.take(n as int) =~= names@);
        if already_registered(values.deep_view(), extension_id@) {
            let k = choose|k: int|
                0 <= k < values.deep_view().len() && (#[trigger] values.deep_view()[k]
                    == extension_id@ || id_prefixed(values.deep_view()[k], extension_id@));
            assert(false);
        }
    }
    Some(max_index)
}

} // verus!
