//! The store handle: it owns the storage map behind a reader/writer lock,
//! the store's public nonce, the optional password secret and the
//! auto-commit flag, and exposes the public operation set.
//!
//! The lock is vstd's verified reader/writer lock; its invariant says that
//! every map state it ever holds is well formed (keys unique). Read
//! operations take the shared lock, mutations the exclusive one, and the
//! lock is released before any caller-driven commit I/O can run.

use std::sync::Arc;

use vstd::prelude::*;
use vstd::rwlock::{RwLock, RwLockPredicate};
use vstd::string::StringExecFns;
use vstd::string::StringSliceAdditionalSpecFns;

use crate::crypto::{
    generate_nonce, hash_password, pwd_len_ok, pwd_view, sec_new, sha256_of, NONCE_LEN,
};
use crate::errors::{ErrorType, KVError};
use crate::namespace::NamespaceMicrokv;
use crate::persist::{
    decode_store, encode_store, entries_view, spec_dec_store, spec_enc_store, spec_store_fits,
};
use crate::storage::{distinct_keys, spec_get_outcome, SpecEntry, StoreMap};

verus! {

/// The lock invariant for the storage map: every state the lock holds is
/// well formed.
pub struct WfMap {}

impl RwLockPredicate<StoreMap> for WfMap {
    open spec fn inv(self, v: StoreMap) -> bool {
        v.wf()
    }
}

/// Relies on dirs' `home_dir`: the platform's home directory, read from
/// the environment. Nothing is promised of the outcome; the wrapper turns
/// it into a plain string and reports non-Unicode paths as absent.
#[verifier::external_body]
fn home_dir_string() -> (r: Option<String>) {
    dirs::home_dir().and_then(|p| p.to_str().map(|s| s.to_string()))
}

/// The file path of a named store under a base directory:
/// `<base>/<name>.kv`, with no separator doubled when the base already
/// ends in one.
pub open spec fn spec_db_path(base: Seq<char>, name: Seq<char>) -> Seq<char> {
    let dir = if base.len() == 0 || base.last() == '/' {
        base
    } else {
        base + seq!['/']
    };
    dir + name + seq!['.', 'k', 'v']
}

/// The default workspace directory under a home directory.
pub open spec fn spec_default_base(home: Seq<char>) -> Seq<char> {
    home + seq!['/', '.', 'm', 'i', 'c', 'r', 'o', 'k', 'v']
}

/// The store handle.
pub struct MicroKV {
    /// Path of the backing file.
    path: String,
    /// The storage map, shared behind a reader/writer lock.
    storage: Arc<RwLock<StoreMap, WfMap>>,
    /// The store's single public nonce, 24 bytes.
    nonce: Vec<u8>,
    /// The hashed password secret, held in zero-on-drop memory; never
    /// persisted.
    pwd: Option<secstr::SecVec<u8>>,
    /// Whether callers are asked to persist after every mutation.
    is_auto_commit: bool,
}

impl Clone for MicroKV {
    /// Another handle to the same store: the lock (and so the map) is
    /// shared, the other fields are copied.
    fn clone(&self) -> (r: Self)
        ensures
            r.well_formed() == self.well_formed(),
            r.spec_path() == self.spec_path(),
            r.spec_nonce() == self.spec_nonce(),
            r.spec_pwd() == self.spec_pwd(),
            r.spec_auto_commit() == self.spec_auto_commit(),
    {
        MicroKV {
            path: self.path.clone(),
            storage: self.storage.clone(),
            nonce: self.nonce.clone(),
            pwd: match &self.pwd {
                Some(p) => Some(crate::crypto::sec_clone(p)),
                None => None,
            },
            is_auto_commit: self.is_auto_commit,
        }
    }
}

impl MicroKV {
    /// The path of the backing file.
    pub closed spec fn spec_path(self) -> Seq<char> {
        self.path@
    }

    /// The store's nonce bytes.
    pub closed spec fn spec_nonce(self) -> Seq<u8> {
        self.nonce@
    }

    /// The bytes of the password secret, if one is set.
    pub closed spec fn spec_pwd(self) -> Option<Seq<u8>> {
        pwd_view(self.pwd)
    }

    /// Whether auto-commit is on.
    pub closed spec fn spec_auto_commit(self) -> bool {
        self.is_auto_commit
    }

    /// Whether two handles share one storage map (and its lock).
    pub closed spec fn shares_storage(self, other: MicroKV) -> bool {
        self.storage == other.storage
    }

    /// A handle is well formed when its nonce has the cipher's nonce size
    /// and its password secret, if set, has the cipher's key size.
    pub open spec fn well_formed(self) -> bool {
        self.spec_nonce().len() == NONCE_LEN && pwd_len_ok(self.spec_pwd())
    }

    /// Build an empty, unencrypted store named `dbname` whose backing file
    /// lives under `base_path`, with a freshly generated nonce.
    pub fn new_with_base_path(dbname: &str, base_path: &str) -> (r: MicroKV)
        ensures
            r.well_formed(),
            r.spec_path() == spec_db_path(base_path@, dbname@),
            r.spec_pwd() is None,
            !r.spec_auto_commit(),
    {
        let storage = Arc::new(RwLock::new(StoreMap::new(), Ghost(WfMap {})));
        let nonce = generate_nonce();
        let path = Self::get_db_path_with_base_path(dbname, base_path);
        MicroKV { path, storage, nonce, pwd: None, is_auto_commit: false }
    }

    /// Build an empty, unencrypted store under the default workspace
    /// directory. Fails with a file error when no home directory can be
    /// resolved.
    pub fn new(dbname: &str) -> (r: Result<MicroKV, KVError>)
        ensures
            r matches Ok(kv) ==> kv.well_formed() && kv.spec_pwd() is None
                && !kv.spec_auto_commit() && exists|home: Seq<char>|
                kv.spec_path() == spec_db_path(spec_default_base(home), dbname@),
            r matches Err(e) ==> e.error == ErrorType::FileError,
    {
        match Self::default_base_path() {
            Some(base) => {
                let kv = Self::new_with_base_path(dbname, base.as_str());
                proof {
                    let home = choose|home: Seq<char>| base@ == spec_default_base(home);
                    assert(kv.spec_path() == spec_db_path(spec_default_base(home), dbname@));
                }
                Ok(kv)
            },
            None => Err(KVError::with_msg(
                ErrorType::FileError,
                "cannot resolve the home directory",
            )),
        }
    }

    /// The default workspace directory, `.microkv` under the home
    /// directory, when a home directory can be resolved.
    fn default_base_path() -> (r: Option<String>)
        ensures
            r matches Some(b) ==> exists|home: Seq<char>| b@ == spec_default_base(home),
    {
        match home_dir_string() {
            Some(home) => {
                proof {
                    reveal_strlit("/.microkv");
                }
                let mut base = home;
                let ghost home_view = base@;
                base.append("/.microkv");
                proof {
                    assert(base@ =~= spec_default_base(home_view));
                }
                Some(base)
            },
            None => None,
        }
    }

    /// The backing file path for a named store under the default workspace
    /// directory, when a home directory can be resolved.
    pub fn get_db_path(name: &str) -> (r: Option<String>)
        ensures
            r matches Some(p) ==> exists|home: Seq<char>|
                p@ == spec_db_path(spec_default_base(home), name@),
    {
        match Self::default_base_path() {
            Some(base) => Some(Self::get_db_path_with_base_path(name, base.as_str())),
            None => None,
        }
    }

    /// The backing file path for a named store under a base directory.
    pub fn get_db_path_with_base_path(name: &str, base_path: &str) -> (r: String)
        ensures
            r@ == spec_db_path(base_path@, name@),
    {
        let base_len = base_path.unicode_len();
        proof {
            reveal_strlit("/");
            reveal_strlit(".kv");
        }
        let mut path = base_path.to_owned();
        if base_len > 0 {
            if base_path.get_char(base_len - 1) != '/' {
                path.append("/");
            }
        }
        path.append(name);
        path.append(".kv");
        proof {
            assert(path@ =~= spec_db_path(base_path@, name@));
        }
        path
    }

    /// Attach a password: the cleartext is hashed to a 32-byte secret that
    /// keys every later encryption and decryption. Everything else about
    /// the handle stays as it was.
    pub fn with_pwd_clear(self, unsafe_pwd: &str) -> (r: MicroKV)
        ensures
            r.spec_pwd() == Some(sha256_of(unsafe_pwd.spec_bytes())),
            r.well_formed() == (self.spec_nonce().len() == NONCE_LEN),
            r.spec_path() == self.spec_path(),
            r.spec_nonce() == self.spec_nonce(),
            r.spec_auto_commit() == self.spec_auto_commit(),
            r.shares_storage(self),
    {
        let secret = sec_new(hash_password(unsafe_pwd));
        MicroKV { pwd: Some(secret), ..self }
    }

    /// Attach an already hashed 32-byte secret directly. Everything else
    /// about the handle stays as it was.
    pub fn with_pwd_hash(self, pwd_hash: [u8; 32]) -> (r: MicroKV)
        ensures
            r.spec_pwd() == Some(pwd_hash@),
            r.well_formed() == (self.spec_nonce().len() == NONCE_LEN),
            r.spec_path() == self.spec_path(),
            r.spec_nonce() == self.spec_nonce(),
            r.spec_auto_commit() == self.spec_auto_commit(),
            r.shares_storage(self),
    {
        let bytes = vstd::slice::slice_to_vec(pwd_hash.as_slice());
        let secret = sec_new(bytes);
        MicroKV { pwd: Some(secret), ..self }
    }

    /// Set whether callers are asked to persist after every mutation.
    pub fn set_auto_commit(self, enable: bool) -> (r: MicroKV)
        ensures
            r.spec_auto_commit() == enable,
            r.well_formed() == self.well_formed(),
            r.spec_path() == self.spec_path(),
            r.spec_nonce() == self.spec_nonce(),
            r.spec_pwd() == self.spec_pwd(),
            r.shares_storage(self),
    {
        MicroKV { is_auto_commit: enable, ..self }
    }

    /// Whether auto-commit is on.
    pub fn is_auto_commit(&self) -> (r: bool)
        ensures
            r == self.spec_auto_commit(),
    {
        self.is_auto_commit
    }

    /// The path of the backing file.
    pub fn file_path(&self) -> (r: &String)
        ensures
            r@ == self.spec_path(),
    {
        &self.path
    }

    /// A view of this store scoped to a namespace.
    pub fn namespace<'a>(&'a self, namespace: &str) -> (r: NamespaceMicrokv<'a>)
        ensures
            r.spec_namespace() == namespace@,
            r.store() == *self,
    {
        NamespaceMicrokv::new(namespace, self)
    }

    /// The default, unscoped view of this store.
    pub fn namespace_default<'a>(&'a self) -> (r: NamespaceMicrokv<'a>)
        ensures
            r.spec_namespace().len() == 0,
            r.store() == *self,
    {
        proof {
            reveal_strlit("");
        }
        self.namespace("")
    }

    /// Read a value within a namespace, under the shared lock. The result
    /// is the read outcome against the locked map state.
    pub fn namespace_get(&self, namespace: &str, key: &str) -> (r: Result<
        Option<Vec<u8>>,
        KVError,
    >)
        requires
            self.well_formed(),
        ensures
            exists|es: Seq<SpecEntry>|
                distinct_keys(es) && spec_get_outcome(
                    es,
                    crate::namespace::spec_format_key(namespace@, key@),
                    self.spec_pwd(),
                    self.spec_nonce(),
                    r,
                ),
            r matches Err(e) ==> e.error == ErrorType::CryptoError && self.spec_pwd() is Some,
    {
        let read_handle = (&*self.storage).acquire_read();
        let map_ref = read_handle.borrow();
        let out = map_ref.kv_get(&self.pwd, &self.nonce, namespace, key);
        read_handle.release_read();
        out
    }

    /// Store a value within a namespace, under the exclusive lock. With a
    /// well-formed handle this always succeeds; what the put does to the
    /// locked map state is specified on [`StoreMap::kv_put`].
    pub fn namespace_put(&self, namespace: &str, key: &str, value: &Vec<u8>) -> (r: Result<
        (),
        KVError,
    >)
        requires
            self.well_formed(),
        ensures
            r is Ok,
    {
        let (mut map_val, write_handle) = (&*self.storage).acquire_write();
        let out = map_val.kv_put(&self.pwd, &self.nonce, namespace, key, value);
        write_handle.release_write(map_val);
        out
    }

    /// Delete a logical key within a namespace, under the exclusive lock.
    pub fn namespace_delete(&self, namespace: &str, key: &str) -> (r: Result<(), KVError>)
        requires
            self.well_formed(),
        ensures
            r is Ok,
    {
        let (mut map_val, write_handle) = (&*self.storage).acquire_write();
        map_val.kv_delete(namespace, key);
        write_handle.release_write(map_val);
        Ok(())
    }

    /// Whether a logical key exists within a namespace, under the shared
    /// lock.
    pub fn namespace_exists(&self, namespace: &str, key: &str) -> (r: Result<bool, KVError>)
        requires
            self.well_formed(),
        ensures
            r matches Ok(present) ==> exists|es: Seq<SpecEntry>|
                distinct_keys(es) && present == crate::storage::spec_contains_key(
                    es,
                    crate::namespace::spec_format_key(namespace@, key@),
                ),
            r is Ok,
    {
        let read_handle = (&*self.storage).acquire_read();
        let map_ref = read_handle.borrow();
        let out = map_ref.kv_exists(namespace, key);
        read_handle.release_read();
        Ok(out)
    }

    /// The composite keys of a namespace in insertion order, each exactly
    /// once, under the shared lock.
    pub fn namespace_keys(&self, namespace: &str) -> (r: Result<Vec<String>, KVError>)
        requires
            self.well_formed(),
        ensures
            r matches Ok(ks) ==> crate::strkit::keys_distinct(crate::strkit::strings_view(ks@))
                && exists|es: Seq<SpecEntry>|
                distinct_keys(es) && crate::strkit::strings_view(ks@)
                    == crate::storage::spec_namespace_keys(es, namespace@),
            r is Ok,
    {
        let read_handle = (&*self.storage).acquire_read();
        let map_ref = read_handle.borrow();
        let out = map_ref.namespace_keys(namespace);
        read_handle.release_read();
        Ok(out)
    }

    /// The composite keys of a namespace in lexicographic order, each
    /// exactly once, under the shared lock. The canonical insertion order
    /// of the map is not touched.
    pub fn namespace_sorted_keys(&self, namespace: &str) -> (r: Result<Vec<String>, KVError>)
        requires
            self.well_formed(),
        ensures
            r matches Ok(ks) ==> crate::strkit::strings_sorted(ks@)
                && crate::strkit::keys_distinct(crate::strkit::strings_view(ks@)) && exists|
                es: Seq<SpecEntry>,
            |
                distinct_keys(es) && forall|k: Seq<char>|
                    #[trigger] crate::strkit::strings_view(ks@).contains(k)
                        == (crate::storage::spec_contains_key(es, k)
                        && crate::namespace::spec_key_in_namespace(namespace@, k)),
            r is Ok,
    {
        let read_handle = (&*self.storage).acquire_read();
        let map_ref = read_handle.borrow();
        let out = map_ref.sorted_keys_in_namespace(namespace);
        read_handle.release_read();
        Ok(out)
    }

    /// Remove every entry of a namespace, under the exclusive lock. The
    /// removed value buffers are zeroed as they drop.
    pub fn namespace_clear(&self, namespace: &str) -> (r: Result<(), KVError>)
        requires
            self.well_formed(),
        ensures
            r is Ok,
    {
        let (mut map_val, write_handle) = (&*self.storage).acquire_write();
        map_val.clear_namespace(namespace);
        write_handle.release_write(map_val);
        Ok(())
    }

    /// Read a value from the default namespace: the read outcome against
    /// the locked map state, under the key itself.
    pub fn get(&self, key: &str) -> (r: Result<Option<Vec<u8>>, KVError>)
        requires
            self.well_formed(),
        ensures
            exists|es: Seq<SpecEntry>|
                distinct_keys(es) && spec_get_outcome(
                    es,
                    key@,
                    self.spec_pwd(),
                    self.spec_nonce(),
                    r,
                ),
            r matches Err(e) ==> e.error == ErrorType::CryptoError && self.spec_pwd() is Some,
    {
        self.namespace_default().get(key)
    }

    /// Read a value from the default namespace, treating an absent key as
    /// an error.
    pub fn get_unwrap(&self, key: &str) -> (r: Result<Vec<u8>, KVError>)
        requires
            self.well_formed(),
        ensures
            exists|es: Seq<SpecEntry>|
                distinct_keys(es) && match r {
                    Ok(v) => spec_get_outcome(
                        es,
                        key@,
                        self.spec_pwd(),
                        self.spec_nonce(),
                        Ok(Some(v)),
                    ),
                    Err(e) => (e.error == ErrorType::KVError && crate::storage::spec_lookup(
                        es,
                        key@,
                    ) is None) || (e.error == ErrorType::CryptoError && spec_get_outcome(
                        es,
                        key@,
                        self.spec_pwd(),
                        self.spec_nonce(),
                        Err(e),
                    )),
                },
    {
        self.namespace_default().get_unwrap(key)
    }

    /// Store a value in the default namespace.
    pub fn put(&self, key: &str, value: &Vec<u8>) -> (r: Result<(), KVError>)
        requires
            self.well_formed(),
        ensures
            r is Ok,
    {
        self.namespace_default().put(key, value)
    }

    /// Delete a key from the default namespace.
    pub fn delete(&self, key: &str) -> (r: Result<(), KVError>)
        requires
            self.well_formed(),
        ensures
            r is Ok,
    {
        self.namespace_default().delete(key)
    }

    /// Whether a key exists in the default namespace.
    pub fn key_exists(&self, key: &str) -> (r: Result<bool, KVError>)
        requires
            self.well_formed(),
        ensures
            r matches Ok(present) ==> exists|es: Seq<SpecEntry>|
                distinct_keys(es) && present == crate::storage::spec_contains_key(es, key@),
            r is Ok,
    {
        self.namespace_default().key_exists(key)
    }

    /// All keys of the store, in insertion order, each exactly once.
    pub fn keys(&self) -> (r: Result<Vec<String>, KVError>)
        requires
            self.well_formed(),
        ensures
            r matches Ok(ks) ==> crate::strkit::keys_distinct(crate::strkit::strings_view(ks@)),
            r is Ok,
    {
        self.namespace_default().keys()
    }

    /// All keys of the store, in lexicographic order, each exactly once:
    /// the same key set that the unsorted listing returns.
    pub fn sorted_keys(&self) -> (r: Result<Vec<String>, KVError>)
        requires
            self.well_formed(),
        ensures
            r matches Ok(ks) ==> crate::strkit::strings_sorted(ks@)
                && crate::strkit::keys_distinct(crate::strkit::strings_view(ks@)) && exists|
                es: Seq<SpecEntry>,
            |
                distinct_keys(es) && forall|k: Seq<char>|
                    #[trigger] crate::strkit::strings_view(ks@).contains(k)
                        == crate::storage::spec_contains_key(es, k),
            r is Ok,
    {
        self.namespace_default().sorted_keys()
    }

    /// Remove every entry of the store. The removed value buffers are
    /// zeroed as they drop.
    pub fn clear(&self) -> (r: Result<(), KVError>)
        requires
            self.well_formed(),
        ensures
            r is Ok,
    {
        self.namespace_default().clear()
    }

    /// The serialized record of the store's durable fields: what a commit
    /// writes to the backing file. The password secret is never part of
    /// it. The shared lock is held only while the entries are copied out,
    /// and is released before the caller performs any file I/O.
    pub fn to_file_bytes(&self) -> (r: Vec<u8>)
        requires
            self.well_formed(),
        ensures
            exists|es: Seq<SpecEntry>|
                distinct_keys(es) && spec_store_fits(self.spec_path(), es) && r@
                    == spec_enc_store(self.spec_path(), es, self.spec_nonce()),
    {
        let read_handle = (&*self.storage).acquire_read();
        let map_ref = read_handle.borrow();
        let entries = map_ref.entries_snapshot();
        let ghost es = map_ref@;
        read_handle.release_read();
        let out = encode_store(&self.path, &entries, &self.nonce);
        proof {
            assert(entries_view(entries@) =~= es);
        }
        out
    }

    /// Rebuild a handle from the backing file's contents. A missing or
    /// unreadable file (`contents` absent) is a file error; a record that
    /// does not parse is a serialization error; a record is accepted
    /// exactly when it is a well-formed encoding with distinct keys. The
    /// rebuilt handle carries the persisted path, map and nonce, no
    /// password secret, and auto-commit off.
    pub fn open_from_contents(contents: Option<Vec<u8>>) -> (r: Result<MicroKV, KVError>)
        ensures
            contents is None ==> (r matches Err(e) && e.error == ErrorType::FileError),
            contents matches Some(b) ==> match r {
                Ok(kv) => kv.well_formed() && kv.spec_pwd() is None && !kv.spec_auto_commit()
                    && (spec_dec_store(b@) matches Some(v) && kv.spec_path() == v.0
                    && kv.spec_nonce() == v.2),
                Err(e) => e.error == ErrorType::SerializationError && match spec_dec_store(b@) {
                    None => true,
                    Some(v) => !distinct_keys(v.1),
                },
            },
    {
        match contents {
            None => Err(KVError::with_msg(
                ErrorType::FileError,
                "the store file is missing or unreadable",
            )),
            Some(file_bytes) => match decode_store(&file_bytes) {
                Ok(decoded) => {
                    let (path, store, nonce) = decoded;
                    let storage = Arc::new(RwLock::new(store, Ghost(WfMap {})));
                    Ok(MicroKV { path, storage, nonce, pwd: None, is_auto_commit: false })
                },
                Err(e) => Err(e),
            },
        }
    }

    /// Run a caller-supplied read-only operation on the storage map under
    /// the shared lock. Several readers may hold the lock at once. This
    /// always succeeds: the verified lock cannot be poisoned.
    pub fn lock_read<C, R>(&self, callback: C) -> (r: Result<R, KVError>) where
        C: Fn(&StoreMap) -> R,

        requires
            forall|m: &StoreMap| m.wf() ==> #[trigger] callback.requires((m,)),
        ensures
            r is Ok,
            r matches Ok(out) ==> exists|m: &StoreMap| m.wf() && callback.ensures((m,), out),
    {
        let read_handle = (&*self.storage).acquire_read();
        let map_ref = read_handle.borrow();
        let out = callback(map_ref);
        read_handle.release_read();
        Ok(out)
    }

    /// Run a caller-supplied operation on the storage map under the
    /// exclusive lock: no reader or writer runs beside it. The callback
    /// owns the map while the lock is held and hands back the map to store
    /// plus its own result; it must keep the map well formed, which is the
    /// lock's invariant. This always succeeds: the verified lock cannot be
    /// poisoned.
    pub fn lock_write<C, R>(&self, callback: C) -> (r: Result<R, KVError>) where
        C: Fn(StoreMap) -> (StoreMap, R),

        requires
            forall|m: StoreMap| m.wf() ==> #[trigger] callback.requires((m,)),
            forall|m: StoreMap, res: (StoreMap, R)|
                m.wf() && #[trigger] callback.ensures((m,), res) ==> res.0.wf(),
        ensures
            r is Ok,
            r matches Ok(out) ==> exists|m: StoreMap, m2: StoreMap|
                m.wf() && m2.wf() && #[trigger] callback.ensures((m,), (m2, out)),
    {
        let (map_val, write_handle) = (&*self.storage).acquire_write();
        let ghost before = map_val;
        let callback_out = callback(map_val);
        let ghost after = callback_out;
        let (new_map, out) = callback_out;
        proof {
            assert(callback.ensures((before,), after));
            assert(after == (after.0, after.1));
            assert(after.0.wf());
            assert(callback.ensures((before,), (after.0, out)));
        }
        write_handle.release_write(new_map);
        let result: Result<R, KVError> = Ok(out);
        proof {
            assert(result matches Ok(o) && callback.ensures((before,), (after.0, o)));
            assert(exists|m: StoreMap, m2: StoreMap|
                m.wf() && m2.wf() && #[trigger] callback.ensures(
                    (m,),
                    (m2, result->Ok_0),
                ));
        }
        result
    }
}

} // verus!
