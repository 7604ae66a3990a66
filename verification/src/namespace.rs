//! Namespace views: scoped sub-stores over a shared storage map.
//!
//! A namespace is a caller-chosen tag. A logical key is addressed in the
//! physical map under the composite key `namespace + "@" + key`, or under the
//! key itself when the namespace is empty.

use vstd::prelude::*;
use vstd::string::StringExecFns;

use crate::errors::{ErrorType, KVError};
use crate::kv::MicroKV;
use crate::storage::{
    distinct_keys, spec_contains_key, spec_get_outcome, spec_lookup, spec_namespace_keys,
    spec_put, SpecEntry,
};
use crate::strkit::{
    keys_distinct, spec_starts_with, str_starts_with, strings_sorted, strings_view,
};

verus! {

/// The composite key under which a namespace stores a logical key: the key
/// itself for the empty namespace, else the namespace, the `'@'` delimiter,
/// and the key.
pub open spec fn spec_format_key(namespace: Seq<char>, key: Seq<char>) -> Seq<char> {
    if namespace.len() == 0 {
        key
    } else {
        namespace + seq!['@'] + key
    }
}

/// Form the composite key for a logical key within a namespace.
pub fn format_key(namespace: &str, key: &str) -> (r: String)
    ensures
        r@ == spec_format_key(namespace@, key@),
{
    if namespace.is_empty() {
        key.to_owned()
    } else {
        proof {
            reveal_strlit("@");
        }
        let mut composite = namespace.to_owned();
        composite.append("@");
        composite.append(key);
        proof {
            assert(composite@ =~= namespace@ + seq!['@'] + key@);
        }
        composite
    }
}

/// Whether a composite key belongs to a namespace: the empty namespace
/// matches every key, a non-empty one matches the keys it prefixes
/// (delimiter included).
pub open spec fn spec_key_in_namespace(ns: Seq<char>, k: Seq<char>) -> bool {
    ns.len() == 0 || spec_starts_with(k, ns + seq!['@'])
}

/// Test whether a composite key belongs to a namespace.
pub fn key_in_namespace(namespace: &str, k: &str) -> (r: bool)
    ensures
        r == spec_key_in_namespace(namespace@, k@),
{
    if namespace.is_empty() {
        true
    } else {
        let with_delim = format_key(namespace, "");
        proof {
            reveal_strlit("");
            assert(with_delim@ =~= namespace@ + seq!['@']);
        }
        str_starts_with(k, with_delim.as_str())
    }
}

/// Composite keys collide only within one namespace: as long as neither the
/// namespaces nor the keys contain the `'@'` delimiter, two different
/// namespaces address disjoint parts of the key space.
pub proof fn lemma_format_key_injective(
    ns1: Seq<char>,
    key1: Seq<char>,
    ns2: Seq<char>,
    key2: Seq<char>,
)
    requires
        !ns1.contains('@'),
        !ns2.contains('@'),
        !key1.contains('@'),
        !key2.contains('@'),
        ns1 != ns2,
    ensures
        spec_format_key(ns1, key1) != spec_format_key(ns2, key2),
{
    let c1 = spec_format_key(ns1, key1);
    let c2 = spec_format_key(ns2, key2);
    assert(ns1.len() > 0 ==> c1.len() == ns1.len() + 1 + key1.len() && c1[ns1.len() as int] == '@'
        && (forall|i: int| 0 <= i < ns1.len() ==> c1[i] == ns1[i])) by {
        if ns1.len() > 0 {
            assert((ns1 + seq!['@'] + key1)[ns1.len() as int] == seq!['@'][0]);
            assert(seq!['@'][0] == '@');
        }
    }
    assert(ns2.len() > 0 ==> c2.len() == ns2.len() + 1 + key2.len() && c2[ns2.len() as int] == '@'
        && (forall|i: int| 0 <= i < ns2.len() ==> c2[i] == ns2[i])) by {
        if ns2.len() > 0 {
            assert((ns2 + seq!['@'] + key2)[ns2.len() as int] == seq!['@'][0]);
            assert(seq!['@'][0] == '@');
        }
    }
    if c1 == c2 {
        if ns1.len() == 0 && ns2.len() == 0 {
            assert(ns1 =~= ns2);
        } else if ns1.len() == 0 {
            assert(c2[ns2.len() as int] == '@');
            assert(key1[ns2.len() as int] == '@');
            assert(key1.contains('@'));
        } else if ns2.len() == 0 {
            assert(c1[ns1.len() as int] == '@');
            assert(key2[ns1.len() as int] == '@');
            assert(key2.contains('@'));
        } else if ns1.len() < ns2.len() {
            assert(c1[ns1.len() as int] == '@');
            assert(c2[ns1.len() as int] == ns2[ns1.len() as int]);
            assert(ns2.contains('@'));
        } else if ns2.len() < ns1.len() {
            assert(c2[ns2.len() as int] == '@');
            assert(c1[ns2.len() as int] == ns1[ns2.len() as int]);
            assert(ns1.contains('@'));
        } else {
            assert forall|i: int| 0 <= i < ns1.len() implies ns1[i] == ns2[i] by {
                assert(c1[i] == ns1[i]);
                assert(c2[i] == ns2[i]);
            }
            assert(ns1 =~= ns2);
        }
    }
}

/// Namespace isolation: a put under one namespace leaves every lookup under
/// a different namespace exactly as it was, as long as neither namespaces
/// nor keys contain the `'@'` delimiter.
pub proof fn lemma_namespace_isolation(
    es: Seq<(Seq<char>, Seq<u8>)>,
    ns1: Seq<char>,
    key1: Seq<char>,
    blob: Seq<u8>,
    ns2: Seq<char>,
    key2: Seq<char>,
)
    requires
        !ns1.contains('@'),
        !ns2.contains('@'),
        !key1.contains('@'),
        !key2.contains('@'),
        ns1 != ns2,
    ensures
        spec_lookup(spec_put(es, spec_format_key(ns1, key1), blob), spec_format_key(ns2, key2))
            == spec_lookup(es, spec_format_key(ns2, key2)),
{
    lemma_format_key_injective(ns1, key1, ns2, key2);
    let c1 = spec_format_key(ns1, key1);
    let c2 = spec_format_key(ns2, key2);
    let put_result = spec_put(es, c1, blob);
    assert(put_result.last() == (c1, blob));
    assert(put_result.drop_last() == crate::storage::spec_remove_key(es, c1));
    crate::storage::lemma_lookup_remove_key(es, c1, c2);
}

/// A non-owning view of a store scoped to one namespace: every operation
/// addresses the shared storage map under the composite keys of this
/// namespace.
pub struct NamespaceMicrokv<'a> {
    /// The namespace tag; empty means the default, unscoped namespace.
    namespace: String,
    /// The store this view addresses.
    microkv: &'a MicroKV,
}

impl<'a> NamespaceMicrokv<'a> {
    /// The namespace tag of this view.
    pub closed spec fn spec_namespace(self) -> Seq<char> {
        self.namespace@
    }

    /// The store this view addresses.
    pub closed spec fn store(self) -> MicroKV {
        *self.microkv
    }

    /// Scope a view of `microkv` to `namespace`.
    pub fn new(namespace: &str, microkv: &'a MicroKV) -> (r: Self)
        ensures
            r.spec_namespace() == namespace@,
            r.store() == *microkv,
    {
        NamespaceMicrokv { namespace: namespace.to_owned(), microkv }
    }

    /// Read the value stored under a logical key of this namespace: the
    /// read outcome against the locked map state.
    pub fn get(&self, key: &str) -> (r: Result<Option<Vec<u8>>, KVError>)
        requires
            self.store().well_formed(),
        ensures
            exists|es: Seq<SpecEntry>|
                distinct_keys(es) && spec_get_outcome(
                    es,
                    spec_format_key(self.spec_namespace(), key@),
                    self.store().spec_pwd(),
                    self.store().spec_nonce(),
                    r,
                ),
            r matches Err(e) ==> e.error == ErrorType::CryptoError && self.store().spec_pwd()
                is Some,
    {
        self.microkv.namespace_get(self.namespace.as_str(), key)
    }

    /// Read the value stored under a logical key, treating an absent key
    /// as an error.
    pub fn get_unwrap(&self, key: &str) -> (r: Result<Vec<u8>, KVError>)
        requires
            self.store().well_formed(),
        ensures
            exists|es: Seq<SpecEntry>|
                distinct_keys(es) && match r {
                    Ok(v) => spec_get_outcome(
                        es,
                        spec_format_key(self.spec_namespace(), key@),
                        self.store().spec_pwd(),
                        self.store().spec_nonce(),
                        Ok(Some(v)),
                    ),
                    Err(e) => (e.error == ErrorType::KVError && spec_lookup(
                        es,
                        spec_format_key(self.spec_namespace(), key@),
                    ) is None) || (e.error == ErrorType::CryptoError && spec_get_outcome(
                        es,
                        spec_format_key(self.spec_namespace(), key@),
                        self.store().spec_pwd(),
                        self.store().spec_nonce(),
                        Err(e),
                    )),
                },
    {
        let got = self.get(key);
        proof {
            let ck = spec_format_key(self.spec_namespace(), key@);
            let es = choose|es: Seq<SpecEntry>|
                distinct_keys(es) && spec_get_outcome(
                    es,
                    ck,
                    self.store().spec_pwd(),
                    self.store().spec_nonce(),
                    got,
                );
            assert(distinct_keys(es));
        }
        match got {
            Ok(found) => match found {
                Some(value) => Ok(value),
                None => Err(KVError::with_msg(
                    ErrorType::KVError,
                    "key not found in storage",
                )),
            },
            Err(e) => Err(e),
        }
    }

    /// Store a value under a logical key of this namespace. The value is
    /// sealed when the store has a password secret.
    pub fn put(&self, key: &str, value: &Vec<u8>) -> (r: Result<(), KVError>)
        requires
            self.store().well_formed(),
        ensures
            r is Ok,
    {
        self.microkv.namespace_put(self.namespace.as_str(), key, value)
    }

    /// Delete the entry under a logical key of this namespace.
    pub fn delete(&self, key: &str) -> (r: Result<(), KVError>)
        requires
            self.store().well_formed(),
        ensures
            r is Ok,
    {
        self.microkv.namespace_delete(self.namespace.as_str(), key)
    }

    /// Whether a logical key of this namespace exists.
    pub fn key_exists(&self, key: &str) -> (r: Result<bool, KVError>)
        requires
            self.store().well_formed(),
        ensures
            r matches Ok(present) ==> exists|es: Seq<SpecEntry>|
                distinct_keys(es) && present == spec_contains_key(
                    es,
                    spec_format_key(self.spec_namespace(), key@),
                ),
            r is Ok,
    {
        self.microkv.namespace_exists(self.namespace.as_str(), key)
    }

    /// The composite keys of this namespace, in insertion order, each
    /// exactly once.
    pub fn keys(&self) -> (r: Result<Vec<String>, KVError>)
        requires
            self.store().well_formed(),
        ensures
            r matches Ok(ks) ==> keys_distinct(strings_view(ks@)) && exists|es: Seq<SpecEntry>|
                distinct_keys(es) && strings_view(ks@) == spec_namespace_keys(
                    es,
                    self.spec_namespace(),
                ),
            r is Ok,
    {
        self.microkv.namespace_keys(self.namespace.as_str())
    }

    /// The composite keys of this namespace in lexicographic order, each
    /// exactly once: the same key set as the unsorted listing.
    pub fn sorted_keys(&self) -> (r: Result<Vec<String>, KVError>)
        requires
            self.store().well_formed(),
        ensures
            r matches Ok(ks) ==> strings_sorted(ks@) && keys_distinct(strings_view(ks@))
                && exists|es: Seq<SpecEntry>|
                distinct_keys(es) && forall|k: Seq<char>|
                    #[trigger] strings_view(ks@).contains(k) == (spec_contains_key(es, k)
                        && crate::namespace::spec_key_in_namespace(self.spec_namespace(), k)),
            r is Ok,
    {
        self.microkv.namespace_sorted_keys(self.namespace.as_str())
    }

    /// Remove every entry of this namespace; entries outside it stay. The
    /// removed value buffers are zeroed as they drop.
    pub fn clear(&self) -> (r: Result<(), KVError>)
        requires
            self.store().well_formed(),
        ensures
            r is Ok,
    {
        self.microkv.namespace_clear(self.namespace.as_str())
    }
}

} // verus!

