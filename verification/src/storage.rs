//! The storage map: an ordered map from composite string keys to value
//! blobs, modeled as a sequence of key/blob pairs in insertion order.
//!
//! The map itself is indexmap's `IndexMap`, with values held in secstr's
//! zero-on-drop buffers; both are reached only through the trusted wrappers
//! below. Everything about ordering, uniqueness and namespace clearing is
//! proved against the entry-sequence model.

use vstd::prelude::*;

use crate::crypto::{
    protect_value, pwd_len_ok, pwd_view, recover_value, seal_of, spec_sealed_blob, KEY_LEN,
    NONCE_LEN,
};
use crate::errors::{ErrorType, KVError};
use crate::namespace::{format_key, key_in_namespace, spec_format_key, spec_key_in_namespace};
use crate::strkit::{keys_distinct, sort_strings, strings_sorted, strings_view};

verus! {

/// One modeled entry: a composite key and the stored blob bytes.
pub type SpecEntry = (Seq<char>, Seq<u8>);

/// The entries of the physical map, in its iteration (insertion) order,
/// with each stored buffer read as its byte sequence.
pub uninterp spec fn im_entries(m: indexmap::IndexMap<String, secstr::SecVec<u8>>) -> Seq<
    SpecEntry,
>;

/// No two entries share a key.
pub open spec fn distinct_keys(es: Seq<SpecEntry>) -> bool {
    forall|i: int, j: int| 0 <= i < j < es.len() ==> es[i].0 != es[j].0
}

/// Whether some entry holds the key.
pub open spec fn spec_contains_key(es: Seq<SpecEntry>, k: Seq<char>) -> bool {
    exists|i: int| 0 <= i < es.len() && es[i].0 == k
}

/// The blob stored under a key; of several entries with the key, the last
/// (most recently inserted) one counts.
pub open spec fn spec_lookup(es: Seq<SpecEntry>, k: Seq<char>) -> Option<Seq<u8>>
    decreases es.len(),
{
    if es.len() == 0 {
        None
    } else if es.last().0 == k {
        Some(es.last().1)
    } else {
        spec_lookup(es.drop_last(), k)
    }
}

/// The entry sequence with every entry of the given key removed, the order
/// of the rest preserved.
pub open spec fn spec_remove_key(es: Seq<SpecEntry>, k: Seq<char>) -> Seq<SpecEntry>
    decreases es.len(),
{
    if es.len() == 0 {
        Seq::empty()
    } else if es.last().0 == k {
        spec_remove_key(es.drop_last(), k)
    } else {
        spec_remove_key(es.drop_last(), k).push(es.last())
    }
}

/// The effect of a put: any old entry for the key is removed, and the new
/// pair goes to the end of the insertion order.
pub open spec fn spec_put(es: Seq<SpecEntry>, k: Seq<char>, v: Seq<u8>) -> Seq<SpecEntry> {
    spec_remove_key(es, k).push((k, v))
}

/// Removing a key removes exactly the entries with that key and no others.
pub proof fn lemma_remove_key_contains(es: Seq<SpecEntry>, k: Seq<char>, k2: Seq<char>)
    ensures
        spec_contains_key(spec_remove_key(es, k), k2) == (k2 != k && spec_contains_key(es, k2)),
    decreases es.len(),
{
    if es.len() == 0 {
        assert(!spec_contains_key(es, k2));
        assert(!spec_contains_key(spec_remove_key(es, k), k2));
    } else {
        let rest = es.drop_last();
        lemma_remove_key_contains(rest, k, k2);
        assert(spec_contains_key(es, k2) == (es.last().0 == k2 || spec_contains_key(rest, k2)))
            by {
            if spec_contains_key(es, k2) {
                let i = choose|i: int| 0 <= i < es.len() && es[i].0 == k2;
                if i < es.len() - 1 {
                    assert(rest[i].0 == k2);
                }
            }
            if spec_contains_key(rest, k2) {
                let i = choose|i: int| 0 <= i < rest.len() && rest[i].0 == k2;
                assert(es[i].0 == k2);
            }
            if es.last().0 == k2 {
                assert(es[es.len() - 1].0 == k2);
            }
        }
        if es.last().0 == k {
            assert(spec_remove_key(es, k) == spec_remove_key(rest, k));
        } else {
            let sub = spec_remove_key(rest, k);
            let out = sub.push(es.last());
            assert(spec_contains_key(out, k2) == (es.last().0 == k2 || spec_contains_key(sub, k2)))
                by {
                if spec_contains_key(out, k2) {
                    let i = choose|i: int| 0 <= i < out.len() && out[i].0 == k2;
                    if i < out.len() - 1 {
                        assert(sub[i].0 == k2);
                    }
                }
                if spec_contains_key(sub, k2) {
                    let i = choose|i: int| 0 <= i < sub.len() && sub[i].0 == k2;
                    assert(out[i].0 == k2);
                }
                if es.last().0 == k2 {
                    assert(out[out.len() - 1].0 == k2);
                }
            }
        }
    }
}

/// Looking a key up after removing another key finds what it found before;
/// looking up the removed key finds nothing.
pub proof fn lemma_lookup_remove_key(es: Seq<SpecEntry>, k: Seq<char>, k2: Seq<char>)
    ensures
        spec_lookup(spec_remove_key(es, k), k2) == if k2 == k {
            None::<Seq<u8>>
        } else {
            spec_lookup(es, k2)
        },
    decreases es.len(),
{
    if es.len() == 0 {
    } else {
        let rest = es.drop_last();
        lemma_lookup_remove_key(rest, k, k2);
        if es.last().0 == k {
        } else {
            let sub = spec_remove_key(rest, k);
            let out = sub.push(es.last());
            assert(out.drop_last() == sub);
            assert(out.last() == es.last());
        }
    }
}

/// A key is present exactly when its lookup yields a blob.
pub proof fn lemma_contains_iff_lookup(es: Seq<SpecEntry>, k: Seq<char>)
    ensures
        spec_contains_key(es, k) == (spec_lookup(es, k) is Some),
    decreases es.len(),
{
    if es.len() == 0 {
        assert(!spec_contains_key(es, k));
    } else {
        let rest = es.drop_last();
        lemma_contains_iff_lookup(rest, k);
        if es.last().0 == k {
            assert(es[es.len() - 1].0 == k);
            assert(spec_contains_key(es, k));
        } else {
            assert(spec_contains_key(es, k) == spec_contains_key(rest, k)) by {
                if spec_contains_key(es, k) {
                    let i = choose|i: int| 0 <= i < es.len() && es[i].0 == k;
                    assert(i < es.len() - 1);
                    assert(rest[i].0 == k);
                }
                if spec_contains_key(rest, k) {
                    let i = choose|i: int| 0 <= i < rest.len() && rest[i].0 == k;
                    assert(es[i].0 == k);
                }
            }
        }
    }
}

/// With distinct keys, the entry found at any index is what lookup returns
/// for its key.
pub proof fn lemma_lookup_at_index(es: Seq<SpecEntry>, i: int)
    requires
        distinct_keys(es),
        0 <= i < es.len(),
    ensures
        spec_lookup(es, es[i].0) == Some(es[i].1),
    decreases es.len(),
{
    if i == es.len() - 1 {
    } else {
        assert(es.last().0 != es[i].0);
        assert(es.drop_last()[i] == es[i]);
        lemma_lookup_at_index(es.drop_last(), i);
    }
}

/// Removing a key preserves distinctness of the remaining keys.
pub proof fn lemma_remove_key_distinct(es: Seq<SpecEntry>, k: Seq<char>)
    requires
        distinct_keys(es),
    ensures
        distinct_keys(spec_remove_key(es, k)),
        !spec_contains_key(spec_remove_key(es, k), k),
    decreases es.len(),
{
    lemma_remove_key_contains(es, k, k);
    if es.len() == 0 {
    } else {
        let rest = es.drop_last();
        assert(distinct_keys(rest)) by {
            assert(forall|i: int, j: int|
                0 <= i < j < rest.len() ==> rest[i] == es[i] && rest[j] == es[j]);
        }
        lemma_remove_key_distinct(rest, k);
        if es.last().0 == k {
        } else {
            let sub = spec_remove_key(rest, k);
            assert forall|i: int, j: int|
                0 <= i < j < sub.push(es.last()).len() implies sub.push(es.last())[i].0 != sub.push(
                es.last(),
            )[j].0 by {
                if j < sub.len() {
                } else {
                    assert(sub.push(es.last())[j] == es.last());
                    assert(sub[i].0 != es.last().0) by {
                        lemma_remove_key_contains(rest, k, sub[i].0);
                        assert(spec_contains_key(sub, sub[i].0));
                        assert(spec_contains_key(rest, sub[i].0));
                        let w = choose|w: int| 0 <= w < rest.len() && rest[w].0 == sub[i].0;
                        assert(es[w].0 == sub[i].0);
                        assert(es[w].0 != es.last().0);
                    }
                }
            }
        }
    }
}

/// Removing an absent key changes nothing.
pub proof fn lemma_remove_key_absent(es: Seq<SpecEntry>, k: Seq<char>)
    requires
        !spec_contains_key(es, k),
    ensures
        spec_remove_key(es, k) == es,
    decreases es.len(),
{
    if es.len() > 0 {
        let rest = es.drop_last();
        assert(!spec_contains_key(rest, k)) by {
            if spec_contains_key(rest, k) {
                let i = choose|i: int| 0 <= i < rest.len() && rest[i].0 == k;
                assert(es[i].0 == k);
            }
        }
        lemma_remove_key_absent(rest, k);
        assert(es.last().0 != k) by {
            if es.last().0 == k {
                assert(es[es.len() - 1].0 == k);
            }
        }
        assert(spec_remove_key(es, k) =~= es);
    } else {
        assert(spec_remove_key(es, k) =~= es);
    }
}

/// Appending an entry with a fresh key preserves distinctness.
pub proof fn lemma_push_distinct(es: Seq<SpecEntry>, e: SpecEntry)
    requires
        distinct_keys(es),
        !spec_contains_key(es, e.0),
    ensures
        distinct_keys(es.push(e)),
{
    assert forall|i: int, j: int| 0 <= i < j < es.push(e).len() implies es.push(e)[i].0 != es.push(
        e,
    )[j].0 by {
        if j == es.len() {
            assert(es[i].0 != e.0) by {
                if es[i].0 == e.0 {
                    assert(spec_contains_key(es, e.0));
                }
            }
        }
    }
}

/// Presence of a key decomposes over the last entry.
pub proof fn lemma_contains_key_unfold(es: Seq<SpecEntry>, k: Seq<char>)
    requires
        es.len() > 0,
    ensures
        spec_contains_key(es, k) == (es.last().0 == k || spec_contains_key(es.drop_last(), k)),
{
    let rest = es.drop_last();
    if spec_contains_key(es, k) {
        let i = choose|i: int| 0 <= i < es.len() && es[i].0 == k;
        if i < es.len() - 1 {
            assert(rest[i].0 == k);
        }
    }
    if spec_contains_key(rest, k) {
        let i = choose|i: int| 0 <= i < rest.len() && rest[i].0 == k;
        assert(es[i].0 == k);
    }
    if es.last().0 == k {
        assert(es[es.len() - 1].0 == k);
    }
}

/// Membership in a key list decomposes over a pushed element.
pub proof fn lemma_key_list_push_contains(ks: Seq<Seq<char>>, a: Seq<char>, k: Seq<char>)
    ensures
        ks.push(a).contains(k) == (a == k || ks.contains(k)),
{
    if ks.push(a).contains(k) {
        let i = choose|i: int| 0 <= i < ks.push(a).len() && ks.push(a)[i] == k;
        if i < ks.len() {
            assert(ks[i] == k);
        }
    }
    if ks.contains(k) {
        let i = choose|i: int| 0 <= i < ks.len() && ks[i] == k;
        assert(ks.push(a)[i] == k);
    }
    if a == k {
        assert(ks.push(a)[ks.len() as int] == k);
    }
}

/// The composite keys that belong to a namespace, in the map's order.
pub open spec fn spec_namespace_keys(es: Seq<SpecEntry>, ns: Seq<char>) -> Seq<Seq<char>>
    decreases es.len(),
{
    if es.len() == 0 {
        Seq::empty()
    } else {
        let rest = spec_namespace_keys(es.drop_last(), ns);
        if spec_key_in_namespace(ns, es.last().0) {
            rest.push(es.last().0)
        } else {
            rest
        }
    }
}

/// A key is listed for a namespace exactly when the map holds it and it
/// belongs to the namespace.
pub proof fn lemma_namespace_keys_membership(es: Seq<SpecEntry>, ns: Seq<char>, k: Seq<char>)
    ensures
        spec_namespace_keys(es, ns).contains(k) == (spec_contains_key(es, k)
            && spec_key_in_namespace(ns, k)),
    decreases es.len(),
{
    if es.len() == 0 {
        assert(!spec_contains_key(es, k));
        assert(!spec_namespace_keys(es, ns).contains(k));
    } else {
        let rest = es.drop_last();
        lemma_namespace_keys_membership(rest, ns, k);
        lemma_contains_key_unfold(es, k);
        if spec_key_in_namespace(ns, es.last().0) {
            lemma_key_list_push_contains(spec_namespace_keys(rest, ns), es.last().0, k);
        }
    }
}

/// With distinct map keys, the key list of a namespace has no repeats.
pub proof fn lemma_namespace_keys_distinct(es: Seq<SpecEntry>, ns: Seq<char>)
    requires
        distinct_keys(es),
    ensures
        keys_distinct(spec_namespace_keys(es, ns)),
    decreases es.len(),
{
    if es.len() > 0 {
        let rest = es.drop_last();
        assert(distinct_keys(rest)) by {
            assert(forall|i: int, j: int|
                0 <= i < j < rest.len() ==> rest[i] == es[i] && rest[j] == es[j]);
        }
        lemma_namespace_keys_distinct(rest, ns);
        if spec_key_in_namespace(ns, es.last().0) {
            let nk = spec_namespace_keys(rest, ns);
            assert(!spec_contains_key(rest, es.last().0)) by {
                if spec_contains_key(rest, es.last().0) {
                    let i = choose|i: int| 0 <= i < rest.len() && rest[i].0 == es.last().0;
                    assert(es[i].0 == es[es.len() - 1].0);
                }
            }
            lemma_namespace_keys_membership(rest, ns, es.last().0);
            assert(!nk.contains(es.last().0));
            assert forall|i: int, j: int|
                0 <= i < j < nk.push(es.last().0).len() implies nk.push(es.last().0)[i] != nk.push(
                es.last().0,
            )[j] by {
                if j == nk.len() {
                    assert(nk[i] != es.last().0) by {
                        if nk[i] == es.last().0 {
                            assert(nk.contains(es.last().0));
                        }
                    }
                }
            }
        }
    }
}

/// The map with every entry of a namespace removed, the others kept in
/// order.
pub open spec fn spec_clear_namespace(es: Seq<SpecEntry>, ns: Seq<char>) -> Seq<SpecEntry>
    decreases es.len(),
{
    if es.len() == 0 {
        Seq::empty()
    } else {
        let rest = spec_clear_namespace(es.drop_last(), ns);
        if spec_key_in_namespace(ns, es.last().0) {
            rest
        } else {
            rest.push(es.last())
        }
    }
}

/// Clearing a namespace keeps exactly the keys outside it.
pub proof fn lemma_clear_namespace_contains(es: Seq<SpecEntry>, ns: Seq<char>, k: Seq<char>)
    ensures
        spec_contains_key(spec_clear_namespace(es, ns), k) == (spec_contains_key(es, k)
            && !spec_key_in_namespace(ns, k)),
    decreases es.len(),
{
    if es.len() == 0 {
        assert(!spec_contains_key(es, k));
        assert(!spec_contains_key(spec_clear_namespace(es, ns), k));
    } else {
        let rest = es.drop_last();
        lemma_clear_namespace_contains(rest, ns, k);
        lemma_contains_key_unfold(es, k);
        if !spec_key_in_namespace(ns, es.last().0) {
            let sub = spec_clear_namespace(rest, ns);
            lemma_contains_key_unfold(sub.push(es.last()), k);
            assert(sub.push(es.last()).drop_last() =~= sub);
        } else {
            if spec_contains_key(spec_clear_namespace(es, ns), k) {
            }
        }
    }
}

/// Looking up a key after a namespace clear: keys of the namespace are
/// gone, all others read as before.
pub proof fn lemma_clear_namespace_lookup(es: Seq<SpecEntry>, ns: Seq<char>, k: Seq<char>)
    ensures
        spec_lookup(spec_clear_namespace(es, ns), k) == if spec_key_in_namespace(ns, k) {
            None::<Seq<u8>>
        } else {
            spec_lookup(es, k)
        },
    decreases es.len(),
{
    if es.len() == 0 {
    } else {
        let rest = es.drop_last();
        lemma_clear_namespace_lookup(rest, ns, k);
        if !spec_key_in_namespace(ns, es.last().0) {
            let sub = spec_clear_namespace(rest, ns);
            let out = sub.push(es.last());
            assert(out.drop_last() == sub);
            assert(out.last() == es.last());
        }
    }
}

/// Clearing a namespace preserves distinctness of the remaining keys.
pub proof fn lemma_clear_namespace_distinct(es: Seq<SpecEntry>, ns: Seq<char>)
    requires
        distinct_keys(es),
    ensures
        distinct_keys(spec_clear_namespace(es, ns)),
    decreases es.len(),
{
    if es.len() > 0 {
        let rest = es.drop_last();
        assert(distinct_keys(rest)) by {
            assert(forall|i: int, j: int|
                0 <= i < j < rest.len() ==> rest[i] == es[i] && rest[j] == es[j]);
        }
        lemma_clear_namespace_distinct(rest, ns);
        if !spec_key_in_namespace(ns, es.last().0) {
            let sub = spec_clear_namespace(rest, ns);
            assert(!spec_contains_key(rest, es.last().0)) by {
                if spec_contains_key(rest, es.last().0) {
                    let i = choose|i: int| 0 <= i < rest.len() && rest[i].0 == es.last().0;
                    assert(es[i].0 == es[es.len() - 1].0);
                }
            }
            lemma_clear_namespace_contains(rest, ns, es.last().0);
            lemma_push_distinct(sub, es.last());
        }
    }
}

/// Clearing the empty namespace clears everything.
pub proof fn lemma_clear_namespace_empty_ns(es: Seq<SpecEntry>, ns: Seq<char>)
    requires
        ns.len() == 0,
    ensures
        spec_clear_namespace(es, ns).len() == 0,
    decreases es.len(),
{
    if es.len() > 0 {
        lemma_clear_namespace_empty_ns(es.drop_last(), ns);
    }
}

/// The physical ordered map. Declared so that the verifier can carry values
/// of it; its behavior enters only through the wrappers below.
#[verifier::external_type_specification]
#[verifier::external_body]
#[verifier::reject_recursive_types(K)]
#[verifier::reject_recursive_types(V)]
#[verifier::reject_recursive_types(S)]
pub struct ExIndexMap<K, V, S>(indexmap::IndexMap<K, V, S>);

/// Relies on `IndexMap::new`: it creates an empty map.
#[verifier::external_body]
pub fn im_new() -> (r: indexmap::IndexMap<String, secstr::SecVec<u8>>)
    ensures
        im_entries(r) == Seq::<SpecEntry>::empty(),
{
    indexmap::IndexMap::new()
}

/// Relies on `IndexMap::get`: it returns the value stored for the key if
/// present, else `None`; and on secstr's `SecVec::unsecure`, which borrows
/// the stored bytes unchanged so that the wrapper can copy them out.
#[verifier::external_body]
pub fn im_get(m: &indexmap::IndexMap<String, secstr::SecVec<u8>>, k: &String) -> (r: Option<
    Vec<u8>,
>)
    ensures
        r matches Some(v) ==> exists|i: int|
            0 <= i < im_entries(*m).len() && #[trigger] im_entries(*m)[i] == (k@, v@),
        r is None ==> !spec_contains_key(im_entries(*m), k@),
{
    m.get(k).map(|v| v.unsecure().to_vec())
}

/// Relies on `IndexMap::contains_key`: whether an entry with the key exists.
#[verifier::external_body]
pub fn im_contains(m: &indexmap::IndexMap<String, secstr::SecVec<u8>>, k: &String) -> (r: bool)
    ensures
        r == spec_contains_key(im_entries(*m), k@),
{
    m.contains_key(k)
}

/// Relies on `IndexMap::insert`: when no equivalent key exists, the new
/// pair is inserted last in order; and on secstr's `SecVec::new`, which
/// wraps the blob bytes unchanged in zero-on-drop memory.
#[verifier::external_body]
pub fn im_insert_fresh(
    m: &mut indexmap::IndexMap<String, secstr::SecVec<u8>>,
    k: String,
    blob: Vec<u8>,
)
    requires
        !spec_contains_key(im_entries(*old(m)), k@),
    ensures
        im_entries(*final(m)) == im_entries(*old(m)).push((k@, blob@)),
{
    m.insert(k, secstr::SecVec::new(blob));
}

/// Relies on `IndexMap::shift_remove`: it removes the entry with the key,
/// shifting the entries that follow and preserving their relative order,
/// and returns whether the key was present. The removed buffer is dropped,
/// which zeroes it (secstr's `Drop`).
#[verifier::external_body]
pub fn im_remove(m: &mut indexmap::IndexMap<String, secstr::SecVec<u8>>, k: &String) -> (r: bool)
    ensures
        im_entries(*final(m)) == spec_remove_key(im_entries(*old(m)), k@),
        r == spec_contains_key(im_entries(*old(m)), k@),
{
    m.shift_remove(k).is_some()
}

/// Relies on `IndexMap::keys`: it iterates the keys in the map's order; the
/// wrapper copies them out.
#[verifier::external_body]
pub fn im_keys(m: &indexmap::IndexMap<String, secstr::SecVec<u8>>) -> (r: Vec<String>)
    ensures
        r@.len() == im_entries(*m).len(),
        forall|i: int| 0 <= i < r@.len() ==> r@[i]@ == #[trigger] im_entries(*m)[i].0,
{
    m.keys().cloned().collect()
}

/// Relies on `IndexMap::clear`: it removes all entries, keeping the
/// allocated capacity. Every removed buffer is dropped, which zeroes it
/// (secstr's `Drop`).
#[verifier::external_body]
pub fn im_clear(m: &mut indexmap::IndexMap<String, secstr::SecVec<u8>>)
    ensures
        im_entries(*final(m)) == Seq::<SpecEntry>::empty(),
{
    m.clear()
}

/// The map midway through a namespace clear that walks a snapshot `ks` of
/// keys: entries of the namespace whose key stands among the first `i`
/// snapshot keys are gone, all others remain in order.
pub open spec fn spec_keep_upto(
    es: Seq<SpecEntry>,
    ns: Seq<char>,
    ks: Seq<Seq<char>>,
    i: int,
) -> Seq<SpecEntry>
    decreases es.len(),
{
    if es.len() == 0 {
        Seq::empty()
    } else {
        let rest = spec_keep_upto(es.drop_last(), ns, ks, i);
        if spec_key_in_namespace(ns, es.last().0) && (exists|j: int|
            0 <= j < i && ks[j] == es.last().0) {
            rest
        } else {
            rest.push(es.last())
        }
    }
}

/// Before any snapshot key was processed, nothing is gone.
pub proof fn lemma_keep_upto_zero(es: Seq<SpecEntry>, ns: Seq<char>, ks: Seq<Seq<char>>)
    ensures
        spec_keep_upto(es, ns, ks, 0) == es,
    decreases es.len(),
{
    if es.len() > 0 {
        lemma_keep_upto_zero(es.drop_last(), ns, ks);
        assert(spec_keep_upto(es, ns, ks, 0) =~= es);
    } else {
        assert(spec_keep_upto(es, ns, ks, 0) =~= es);
    }
}

/// Processing a snapshot key outside the namespace changes nothing.
pub proof fn lemma_keep_upto_skip(es: Seq<SpecEntry>, ns: Seq<char>, ks: Seq<Seq<char>>, i: int)
    requires
        0 <= i < ks.len(),
        !spec_key_in_namespace(ns, ks[i]),
    ensures
        spec_keep_upto(es, ns, ks, i + 1) == spec_keep_upto(es, ns, ks, i),
    decreases es.len(),
{
    if es.len() > 0 {
        lemma_keep_upto_skip(es.drop_last(), ns, ks, i);
        if spec_key_in_namespace(ns, es.last().0) {
            if exists|j: int| 0 <= j < i + 1 && ks[j] == es.last().0 {
                let j = choose|j: int| 0 <= j < i + 1 && ks[j] == es.last().0;
                assert(j != i);
                assert(exists|j2: int| 0 <= j2 < i && ks[j2] == es.last().0);
            }
        }
    }
}

/// Removing the next matching snapshot key advances the walk by one step.
pub proof fn lemma_keep_upto_remove(es: Seq<SpecEntry>, ns: Seq<char>, ks: Seq<Seq<char>>, i: int)
    requires
        0 <= i < ks.len(),
        spec_key_in_namespace(ns, ks[i]),
    ensures
        spec_remove_key(spec_keep_upto(es, ns, ks, i), ks[i]) == spec_keep_upto(es, ns, ks, i + 1),
    decreases es.len(),
{
    if es.len() > 0 {
        let rest = es.drop_last();
        lemma_keep_upto_remove(rest, ns, ks, i);
        let kept_i = spec_keep_upto(rest, ns, ks, i);
        if spec_key_in_namespace(ns, es.last().0) && (exists|j: int|
            0 <= j < i && ks[j] == es.last().0) {
            assert(exists|j: int| 0 <= j < i + 1 && ks[j] == es.last().0);
        } else {
            let pushed = kept_i.push(es.last());
            assert(pushed.drop_last() == kept_i);
            assert(pushed.last() == es.last());
            if es.last().0 == ks[i] {
                assert(exists|j: int| 0 <= j < i + 1 && ks[j] == es.last().0) by {
                    assert(ks[i] == es.last().0);
                }
            } else {
                if exists|j: int| 0 <= j < i + 1 && ks[j] == es.last().0 {
                    let j = choose|j: int| 0 <= j < i + 1 && ks[j] == es.last().0;
                    assert(j != i);
                    assert(exists|j2: int| 0 <= j2 < i && ks[j2] == es.last().0);
                }
            }
        }
    }
}

/// Once every key of the map went through the walk, exactly the namespace
/// is gone.
pub proof fn lemma_keep_upto_all(es: Seq<SpecEntry>, ns: Seq<char>, ks: Seq<Seq<char>>)
    requires
        forall|idx: int| 0 <= idx < es.len() ==> ks.contains(#[trigger] es[idx].0),
    ensures
        spec_keep_upto(es, ns, ks, ks.len() as int) == spec_clear_namespace(es, ns),
    decreases es.len(),
{
    if es.len() > 0 {
        let rest = es.drop_last();
        assert(forall|idx: int| 0 <= idx < rest.len() ==> ks.contains(#[trigger] rest[idx].0)) by {
            assert(forall|idx: int| 0 <= idx < rest.len() ==> rest[idx] == es[idx]);
        }
        lemma_keep_upto_all(rest, ns, ks);
        assert(ks.contains(es[es.len() - 1].0));
        let j = choose|j: int| 0 <= j < ks.len() && ks[j] == es[es.len() - 1].0;
        assert(ks[j] == es.last().0);
    }
}

/// What a read of composite key `ck` must return against map state `es`
/// with password secret `pv` and nonce `nonce`: an absent key reads as
/// `Ok(None)`; with no secret a present blob is returned as it is; with a
/// secret, a present blob is returned exactly when it is the seal of some
/// message under the store's nonce and that secret, and that message comes
/// back; everything else is a crypto error.
pub open spec fn spec_get_outcome(
    es: Seq<SpecEntry>,
    ck: Seq<char>,
    pv: Option<Seq<u8>>,
    nonce: Seq<u8>,
    r: Result<Option<Vec<u8>>, KVError>,
) -> bool {
    let look = spec_lookup(es, ck);
    &&& match r {
        Ok(v) => match v {
            Some(p) => look matches Some(b) && pwd_len_ok(pv) && b == spec_sealed_blob(
                p@,
                pv,
                nonce,
            ),
            None => look is None,
        },
        Err(e) => e.error == ErrorType::CryptoError && look is Some && pv is Some,
    }
    &&& match look {
        Some(b) => match pv {
            Some(kk) => kk.len() == KEY_LEN ==> forall|m: Seq<u8>|
                b == #[trigger] seal_of(m, nonce, kk) ==> (r matches Ok(v) && v matches Some(p)
                    && p@ == m),
            None => (r matches Ok(v) && v matches Some(p) && p@ == b),
        },
        None => (r matches Ok(v) && v is None),
    }
    &&& r matches Err(e) ==> match look {
        Some(b) => match pv {
            Some(kk) => kk.len() != KEY_LEN || (forall|m: Seq<u8>|
                b != #[trigger] seal_of(m, nonce, kk)),
            None => false,
        },
        None => false,
    }
}

/// The round trip law: a read of a key right after a value was put under
/// it returns exactly that value, with or without a password secret. Any
/// result that satisfies the read outcome against the state a put of `v`
/// produced carries `v` back.
pub proof fn lemma_put_then_get(
    es: Seq<SpecEntry>,
    ck: Seq<char>,
    v: Seq<u8>,
    pv: Option<Seq<u8>>,
    nonce: Seq<u8>,
    r: Result<Option<Vec<u8>>, KVError>,
)
    requires
        pwd_len_ok(pv),
        spec_get_outcome(spec_put(es, ck, spec_sealed_blob(v, pv, nonce)), ck, pv, nonce, r),
    ensures
        r matches Ok(p) && p matches Some(got) && got@ == v,
{
    let blob = spec_sealed_blob(v, pv, nonce);
    let es2 = spec_put(es, ck, blob);
    assert(es2.last() == (ck, blob));
    assert(spec_lookup(es2, ck) == Some(blob));
    match pv {
        Some(kk) => {
            assert(blob == seal_of(v, nonce, kk));
        },
        None => {
        },
    }
}

/// The storage map: the physical ordered map under its verified interface.
/// All operations are specified against the entry-sequence view.
pub struct StoreMap {
    map: indexmap::IndexMap<String, secstr::SecVec<u8>>,
}

impl View for StoreMap {
    type V = Seq<SpecEntry>;

    closed spec fn view(&self) -> Seq<SpecEntry> {
        im_entries(self.map)
    }
}

impl StoreMap {
    /// Well-formed: no two entries share a key.
    pub open spec fn wf(self) -> bool {
        distinct_keys(self@)
    }

    /// An empty storage map.
    pub fn new() -> (r: StoreMap)
        ensures
            r@ == Seq::<SpecEntry>::empty(),
            r.wf(),
    {
        StoreMap { map: im_new() }
    }

    /// The blob stored under a composite key, if any.
    pub fn get_blob(&self, k: &String) -> (r: Option<Vec<u8>>)
        requires
            self.wf(),
        ensures
            r matches Some(v) ==> spec_lookup(self@, k@) == Some(v@),
            r is None ==> spec_lookup(self@, k@) is None,
    {
        let r = im_get(&self.map, k);
        proof {
            if r is Some {
                let i = choose|i: int|
                    0 <= i < self@.len() && #[trigger] self@[i] == (k@, r->Some_0@);
                lemma_lookup_at_index(self@, i);
            } else {
                lemma_contains_iff_lookup(self@, k@);
            }
        }
        r
    }

    /// Store a blob under a composite key: any earlier entry for the key is
    /// removed, and the pair goes to the end of the insertion order.
    pub fn put_blob(&mut self, k: String, blob: Vec<u8>)
        requires
            old(self).wf(),
        ensures
            final(self)@ == spec_put(old(self)@, k@, blob@),
            final(self).wf(),
    {
        let ghost k_view = k@;
        let ghost blob_view = blob@;
        proof {
            lemma_remove_key_distinct(old(self)@, k_view);
        }
        im_remove(&mut self.map, &k);
        im_insert_fresh(&mut self.map, k, blob);
        proof {
            lemma_push_distinct(spec_remove_key(old(self)@, k_view), (k_view, blob_view));
        }
    }

    /// Remove the entry under a composite key; report whether one was there.
    pub fn remove_blob(&mut self, k: &String) -> (r: bool)
        requires
            old(self).wf(),
        ensures
            final(self)@ == spec_remove_key(old(self)@, k@),
            final(self).wf(),
            r == spec_contains_key(old(self)@, k@),
            !spec_contains_key(final(self)@, k@),
            spec_lookup(final(self)@, k@) is None,
            forall|k2: Seq<char>|
                k2 != k@ ==> #[trigger] spec_lookup(final(self)@, k2) == spec_lookup(
                    old(self)@,
                    k2,
                ),
    {
        let r = im_remove(&mut self.map, k);
        proof {
            lemma_remove_key_distinct(old(self)@, k@);
            lemma_lookup_remove_key(old(self)@, k@, k@);
            assert forall|k2: Seq<char>| k2 != k@ implies #[trigger] spec_lookup(self@, k2)
                == spec_lookup(old(self)@, k2) by {
                lemma_lookup_remove_key(old(self)@, k@, k2);
            }
        }
        r
    }

    /// Whether a composite key is present.
    pub fn has_key(&self, k: &String) -> (r: bool)
        ensures
            r == spec_contains_key(self@, k@),
    {
        im_contains(&self.map, k)
    }

    /// All composite keys, in insertion order.
    pub fn all_keys(&self) -> (r: Vec<String>)
        ensures
            r@.len() == self@.len(),
            forall|i: int| 0 <= i < r@.len() ==> r@[i]@ == #[trigger] self@[i].0,
    {
        im_keys(&self.map)
    }

    /// Remove every entry. The removed buffers are zeroed as they drop.
    pub fn clear_all(&mut self)
        ensures
            final(self)@.len() == 0,
            final(self).wf(),
    {
        im_clear(&mut self.map);
    }

    /// A copy of all entries, in insertion order, as plain key and blob
    /// bytes.
    pub fn entries_snapshot(&self) -> (r: Vec<(String, Vec<u8>)>)
        requires
            self.wf(),
        ensures
            r@.len() == self@.len(),
            forall|i: int|
                0 <= i < r@.len() ==> (#[trigger] r@[i]).0@ == self@[i].0 && r@[i].1@
                    == self@[i].1,
    {
        let ks = self.all_keys();
        let mut out: Vec<(String, Vec<u8>)> = Vec::new();
        let mut i: usize = 0;
        while i < ks.len()
            invariant
                self.wf(),
                ks@.len() == self@.len(),
                forall|j: int| 0 <= j < ks@.len() ==> ks@[j]@ == #[trigger] self@[j].0,
                i <= ks@.len(),
                out@.len() == i,
                forall|j: int|
                    0 <= j < i ==> (#[trigger] out@[j]).0@ == self@[j].0 && out@[j].1@
                        == self@[j].1,
            decreases ks@.len() - i,
        {
            proof {
                lemma_lookup_at_index(self@, i as int);
            }
            let blob = match self.get_blob(&ks[i]) {
                Some(b) => b,
                None => {
                    proof {
                        assert(false);
                    }
                    Vec::new()
                },
            };
            out.push((ks[i].clone(), blob));
            i = i + 1;
        }
        out
    }

    /// Store a value under a logical key within a namespace: the value
    /// bytes are sealed when a password secret is set, and the pair moves
    /// to the end of the insertion order. After a successful put, the
    /// composite key reads back as exactly the stored blob, and every other
    /// key reads as before.
    pub fn kv_put(
        &mut self,
        pwd: &Option<secstr::SecVec<u8>>,
        nonce: &Vec<u8>,
        namespace: &str,
        key: &str,
        value: &Vec<u8>,
    ) -> (r: Result<(), KVError>)
        requires
            old(self).wf(),
            nonce@.len() == NONCE_LEN,
        ensures
            final(self).wf(),
            pwd_len_ok(pwd_view(*pwd)) ==> r is Ok && final(self)@ == spec_put(
                old(self)@,
                spec_format_key(namespace@, key@),
                spec_sealed_blob(value@, pwd_view(*pwd), nonce@),
            ),
            pwd_len_ok(pwd_view(*pwd)) ==> spec_lookup(
                final(self)@,
                spec_format_key(namespace@, key@),
            ) == Some(spec_sealed_blob(value@, pwd_view(*pwd), nonce@)),
            pwd_len_ok(pwd_view(*pwd)) ==> forall|k2: Seq<char>|
                k2 != spec_format_key(namespace@, key@) ==> #[trigger] spec_lookup(
                    final(self)@,
                    k2,
                ) == spec_lookup(old(self)@, k2),
            r matches Err(e) ==> e.error == ErrorType::CryptoError && !pwd_len_ok(pwd_view(*pwd))
                && final(self)@ == old(self)@,
    {
        let composite = format_key(namespace, key);
        let ghost ck = composite@;
        match protect_value(value, pwd, nonce) {
            Ok(blob) => {
                let ghost blob_view = blob@;
                self.put_blob(composite, blob);
                proof {
                    let es2 = spec_put(old(self)@, ck, blob_view);
                    assert(es2.last() == (ck, blob_view));
                    assert(spec_lookup(es2, ck) == Some(blob_view));
                    assert forall|k2: Seq<char>| k2 != ck implies #[trigger] spec_lookup(es2, k2)
                        == spec_lookup(old(self)@, k2) by {
                        assert(es2.drop_last() == spec_remove_key(old(self)@, ck));
                        lemma_lookup_remove_key(old(self)@, ck, k2);
                    }
                }
                Ok(())
            },
            Err(e) => Err(e),
        }
    }

    /// Read the value stored under a logical key within a namespace. An
    /// absent key reads as `Ok(None)`. With no password secret, a present
    /// key reads back the stored bytes; with one, a present blob is opened,
    /// which succeeds exactly on blobs sealed under the store's nonce and
    /// that secret and returns the sealed bytes, and reports a crypto error
    /// otherwise.
    pub fn kv_get(
        &self,
        pwd: &Option<secstr::SecVec<u8>>,
        nonce: &Vec<u8>,
        namespace: &str,
        key: &str,
    ) -> (r: Result<Option<Vec<u8>>, KVError>)
        requires
            self.wf(),
            nonce@.len() == NONCE_LEN,
        ensures
            spec_get_outcome(
                self@,
                spec_format_key(namespace@, key@),
                pwd_view(*pwd),
                nonce@,
                r,
            ),
    {
        let composite = format_key(namespace, key);
        match self.get_blob(&composite) {
            None => Ok(None),
            Some(blob) => match recover_value(&blob, pwd, nonce) {
                Ok(plain) => Ok(Some(plain)),
                Err(e) => Err(e),
            },
        }
    }

    /// Remove the entry for a logical key within a namespace. Afterwards
    /// the composite key is gone and reads as absent, and every other key
    /// reads as before.
    pub fn kv_delete(&mut self, namespace: &str, key: &str)
        requires
            old(self).wf(),
        ensures
            final(self).wf(),
            final(self)@ == spec_remove_key(old(self)@, spec_format_key(namespace@, key@)),
            !spec_contains_key(final(self)@, spec_format_key(namespace@, key@)),
            spec_lookup(final(self)@, spec_format_key(namespace@, key@)) is None,
            forall|k2: Seq<char>|
                k2 != spec_format_key(namespace@, key@) ==> #[trigger] spec_lookup(
                    final(self)@,
                    k2,
                ) == spec_lookup(old(self)@, k2),
    {
        let composite = format_key(namespace, key);
        self.remove_blob(&composite);
    }

    /// Whether a logical key exists within a namespace.
    pub fn kv_exists(&self, namespace: &str, key: &str) -> (r: bool)
        ensures
            r == spec_contains_key(self@, spec_format_key(namespace@, key@)),
    {
        let composite = format_key(namespace, key);
        self.has_key(&composite)
    }

    /// The composite keys of a namespace, in insertion order, each exactly
    /// once.
    pub fn namespace_keys(&self, namespace: &str) -> (r: Vec<String>)
        requires
            self.wf(),
        ensures
            strings_view(r@) == spec_namespace_keys(self@, namespace@),
            keys_distinct(strings_view(r@)),
            r@.no_duplicates(),
    {
        let all = self.all_keys();
        let mut out: Vec<String> = Vec::new();
        let mut i: usize = 0;
        proof {
            assert(strings_view(out@) =~= spec_namespace_keys(self@.take(0), namespace@));
        }
        while i < all.len()
            invariant
                all@.len() == self@.len(),
                forall|j: int| 0 <= j < all@.len() ==> all@[j]@ == #[trigger] self@[j].0,
                i <= all@.len(),
                strings_view(out@) == spec_namespace_keys(self@.take(i as int), namespace@),
            decreases all@.len() - i,
        {
            let ghost out_before = out@;
            if key_in_namespace(namespace, all[i].as_str()) {
                out.push(all[i].clone());
            }
            proof {
                let t1 = self@.take(i + 1);
                assert(t1.drop_last() =~= self@.take(i as int));
                assert(t1.last() == self@[i as int]);
                if spec_key_in_namespace(namespace@, self@[i as int].0) {
                    assert(out@ =~= out_before.push(all@[i as int]));
                    assert(strings_view(out@) =~= strings_view(out_before).push(
                        all@[i as int]@,
                    ));
                } else {
                    assert(out@ == out_before);
                }
            }
            i = i + 1;
        }
        proof {
            assert(self@.take(self@.len() as int) =~= self@);
            lemma_namespace_keys_distinct(self@, namespace@);
            assert(out@.no_duplicates()) by {
                assert forall|a: int, b: int|
                    0 <= a < b < out@.len() implies out@[a] != out@[b] by {
                    assert(strings_view(out@)[a] != strings_view(out@)[b]);
                }
            }
        }
        out
    }

    /// The composite keys of a namespace in lexicographic order: the same
    /// set of keys as the unsorted listing, each exactly once.
    pub fn sorted_keys_in_namespace(&self, namespace: &str) -> (r: Vec<String>)
        requires
            self.wf(),
        ensures
            strings_sorted(r@),
            keys_distinct(strings_view(r@)),
            forall|k: Seq<char>|
                #[trigger] strings_view(r@).contains(k) == (spec_contains_key(self@, k)
                    && spec_key_in_namespace(namespace@, k)),
    {
        broadcast use vstd::seq_lib::group_to_multiset_ensures;
        broadcast use vstd::multiset::group_multiset_axioms;

        let unsorted = self.namespace_keys(namespace);
        let ghost u = unsorted@;
        let r = sort_strings(unsorted);
        proof {
            assert forall|s: String| r@.contains(s) == u.contains(s) by {
                r@.to_multiset_ensures();
                u.to_multiset_ensures();
                assert(r@.to_multiset().count(s) == u.to_multiset().count(s));
            }
            assert forall|k: Seq<char>| #[trigger] strings_view(r@).contains(k)
                == strings_view(u).contains(k) by {
                if strings_view(r@).contains(k) {
                    let i = choose|i: int|
                        0 <= i < strings_view(r@).len() && strings_view(r@)[i] == k;
                    assert(r@.contains(r@[i]));
                    assert(u.contains(r@[i]));
                    let j = choose|j: int| 0 <= j < u.len() && u[j] == r@[i];
                    assert(strings_view(u)[j] == k);
                }
                if strings_view(u).contains(k) {
                    let i = choose|i: int| 0 <= i < strings_view(u).len() && strings_view(u)[i]
                        == k;
                    assert(u.contains(u[i]));
                    assert(r@.contains(u[i]));
                    let j = choose|j: int| 0 <= j < r@.len() && r@[j] == u[i];
                    assert(strings_view(r@)[j] == k);
                }
            }
            assert forall|k: Seq<char>| #[trigger] strings_view(u).contains(k)
                == (spec_contains_key(self@, k) && spec_key_in_namespace(namespace@, k)) by {
                lemma_namespace_keys_membership(self@, namespace@, k);
            }
            u.lemma_multiset_has_no_duplicates();
            r@.lemma_multiset_has_no_duplicates_conv();
            assert forall|a: int, b: int| 0 <= a < b < r@.len() implies strings_view(r@)[a]
                != strings_view(r@)[b] by {
                if r@[a]@ == r@[b]@ {
                    assert(r@[a] != r@[b]);
                    assert(r@.contains(r@[a]));
                    assert(r@.contains(r@[b]));
                    assert(u.contains(r@[a]));
                    assert(u.contains(r@[b]));
                    let ia = choose|ia: int| 0 <= ia < u.len() && u[ia] == r@[a];
                    let ib = choose|ib: int| 0 <= ib < u.len() && u[ib] == r@[b];
                    assert(ia != ib);
                    assert(strings_view(u)[ia] == strings_view(u)[ib]);
                }
            }
        }
        r
    }

    /// Remove every entry of a namespace; entries outside it stay, in
    /// order. Afterwards every key of the namespace reads as absent and
    /// every other key reads as before. The removed buffers are zeroed as
    /// they drop.
    pub fn clear_namespace(&mut self, namespace: &str)
        requires
            old(self).wf(),
        ensures
            final(self).wf(),
            final(self)@ == spec_clear_namespace(old(self)@, namespace@),
            forall|k: Seq<char>|
                spec_key_in_namespace(namespace@, k) ==> #[trigger] spec_lookup(
                    final(self)@,
                    k,
                ) is None,
            forall|k: Seq<char>|
                !spec_key_in_namespace(namespace@, k) ==> #[trigger] spec_lookup(final(self)@, k)
                    == spec_lookup(old(self)@, k),
    {
        let ghost orig = self@;
        if namespace.is_empty() {
            im_clear(&mut self.map);
            proof {
                lemma_clear_namespace_empty_ns(orig, namespace@);
                assert(self@ =~= spec_clear_namespace(orig, namespace@));
            }
        } else {
            let ks = self.all_keys();
            let ghost ksv = strings_view(ks@);
            proof {
                lemma_keep_upto_zero(orig, namespace@, ksv);
            }
            let mut i: usize = 0;
            while i < ks.len()
                invariant
                    ks@.len() == orig.len(),
                    forall|j: int| 0 <= j < ks@.len() ==> ks@[j]@ == #[trigger] orig[j].0,
                    ksv == strings_view(ks@),
                    i <= ks@.len(),
                    self@ == spec_keep_upto(orig, namespace@, ksv, i as int),
                decreases ks@.len() - i,
            {
                proof {
                    assert(ksv[i as int] == ks@[i as int]@);
                }
                if key_in_namespace(namespace, ks[i].as_str()) {
                    im_remove(&mut self.map, &ks[i]);
                    proof {
                        lemma_keep_upto_remove(orig, namespace@, ksv, i as int);
                    }
                } else {
                    proof {
                        lemma_keep_upto_skip(orig, namespace@, ksv, i as int);
                    }
                }
                i = i + 1;
            }
            proof {
                assert forall|idx: int| 0 <= idx < orig.len() implies ksv.contains(
                    #[trigger] orig[idx].0,
                ) by {
                    assert(ksv[idx] == orig[idx].0);
                }
                lemma_keep_upto_all(orig, namespace@, ksv);
                assert(ksv.len() == ks@.len());
            }
        }
        proof {
            lemma_clear_namespace_distinct(orig, namespace@);
            assert forall|k: Seq<char>| spec_key_in_namespace(namespace@, k) implies #[trigger]
                spec_lookup(self@, k) is None by {
                lemma_clear_namespace_lookup(orig, namespace@, k);
            }
            assert forall|k: Seq<char>| !spec_key_in_namespace(namespace@, k) implies #[trigger]
                spec_lookup(self@, k) == spec_lookup(orig, k) by {
                lemma_clear_namespace_lookup(orig, namespace@, k);
            }
        }
    }
}

} // verus!
