//! Behavioral tests for the store: simple round trips, namespaces,
//! persistence and the crypto codec, exercised through the public API with
//! real values.

use microkv::errors::ErrorType;
use microkv::namespace::format_key;
use microkv::MicroKV;

// constants used throughout each test case
static KEY_NAME: &str = "some_key";
static TEST_PASSWORD: &str = "TEST_PASSWORD";

#[derive(Debug, Clone)]
struct TestStruct {
    pub id: u64,
    pub name: String,
}

#[test]
fn test_simple_integral() {
    let kv: MicroKV = MicroKV::new("test_simple_integral")
        .expect("cannot build the store")
        .with_pwd_clear(TEST_PASSWORD);

    // insert uint value
    let value: u64 = 12345;
    kv.put(KEY_NAME, &bincode::serialize(&value).unwrap())
        .expect("cannot insert value");

    // get key and validate
    let res: u64 =
        bincode::deserialize(&kv.get_unwrap(KEY_NAME).expect("cannot retrieve value")).unwrap();
    assert_eq!(value, res);

    // delete value
    kv.delete(KEY_NAME).expect("cannot remove value");

    // insert int value
    let value: i32 = -12345;
    kv.put(KEY_NAME, &bincode::serialize(&value).unwrap())
        .expect("cannot insert value");

    // get key and validate
    let res: i32 =
        bincode::deserialize(&kv.get_unwrap(KEY_NAME).expect("cannot retrieve value")).unwrap();
    assert_eq!(value, res);
}

#[test]
fn test_simple_string() {
    let kv: MicroKV = MicroKV::new("test_simple_string")
        .expect("cannot build the store")
        .with_pwd_clear(TEST_PASSWORD);

    // insert String value
    let value: String = String::from("my value");
    kv.put(KEY_NAME, &bincode::serialize(&value).unwrap())
        .expect("cannot insert value");

    // get key and validate
    let res: String =
        bincode::deserialize(&kv.get_unwrap(KEY_NAME).expect("cannot retrieve value")).unwrap();
    assert_eq!(value, res);
}

#[test]
fn test_complex_struct() {
    let kv: MicroKV = MicroKV::new("test_complex_struct")
        .expect("cannot build the store")
        .with_pwd_clear(TEST_PASSWORD);

    let value = TestStruct {
        id: 13,
        name: String::from("Bob"),
    };
    let encoded = bincode::serialize(&(value.id, value.name.clone())).unwrap();
    kv.put(KEY_NAME, &encoded).expect("cannot insert value");

    let raw = kv.get_unwrap(KEY_NAME).expect("cannot retrieve value");
    let (id, name): (u64, String) = bincode::deserialize(&raw).unwrap();
    let res = TestStruct { id, name };
    assert_eq!(value.id, res.id);
    assert_eq!(value.name, res.name);
}

#[test]
fn test_base_path_with_auto_commit() {
    let kv: MicroKV = MicroKV::new_with_base_path("test_base_path_with_auto_commit", "/tmp/microkv")
        .set_auto_commit(true)
        .with_pwd_clear(TEST_PASSWORD);

    assert!(kv.is_auto_commit());

    // insert String value
    let value: String = String::from("my value");
    kv.put(KEY_NAME, &bincode::serialize(&value).unwrap())
        .expect("cannot insert value");

    // get key and validate
    let res: Option<Vec<u8>> = kv.get(KEY_NAME).expect("cannot retrieve value");
    let decoded: String = bincode::deserialize(&res.expect("value missing")).unwrap();
    assert_eq!(value, decoded);
}

#[test]
fn test_namespace_with_base_path_and_store() {
    let kv = MicroKV::new_with_base_path("test_namespace_with_base_path_and_store", "/tmp/microkv")
        .set_auto_commit(true)
        .with_pwd_clear(TEST_PASSWORD);
    let namespace_default = kv.namespace_default();
    let namespace_one = kv.namespace("one");

    let enc = |s: &str| bincode::serialize(&s.to_string()).unwrap();
    let dec = |b: Vec<u8>| -> String { bincode::deserialize(&b).unwrap() };

    kv.put("foo", &enc("bar")).unwrap();
    namespace_default.put("egg", &enc("gge")).unwrap();

    namespace_one.put("zoo", &enc("big")).unwrap();

    assert_eq!(
        Some("bar".to_string()),
        namespace_default.get("foo").unwrap().map(&dec),
    );
    assert_eq!(Some("gge".to_string()), kv.get("egg").unwrap().map(&dec));
    let zoo_nsg_def: Option<String> = namespace_default.get("zoo").unwrap().map(&dec);
    assert_eq!(None, zoo_nsg_def);

    let foo_ns_one: Option<String> = namespace_one.get("foo").unwrap().map(&dec);
    let egg_ns_one: Option<String> = namespace_one.get("egg").unwrap().map(&dec);
    assert_eq!(None, foo_ns_one);
    assert_eq!(None, egg_ns_one);
    assert_eq!(
        Some("big".to_string()),
        namespace_one.get("zoo").unwrap().map(&dec)
    );

    let keys_df0 = kv.keys().unwrap();
    let keys_df1 = namespace_default.keys().unwrap();
    assert_eq!(keys_df0, keys_df1);
    let keys_ns_one = namespace_one.keys().unwrap();
    assert_ne!(keys_df0, keys_ns_one);

    assert!(keys_df0.contains(&"foo".to_string()));
    assert!(keys_df0.contains(&"egg".to_string()));
    assert!(keys_df1.contains(&"foo".to_string()));
    assert!(keys_df1.contains(&"egg".to_string()));
    assert_eq!(keys_ns_one, vec!["one@zoo"]);

    namespace_one.put("alp", &enc("first")).unwrap();
    assert_eq!(
        namespace_one.sorted_keys().unwrap(),
        vec!["one@alp", "one@zoo"]
    );
    assert_eq!(
        "big".to_string(),
        dec(namespace_one.get_unwrap("zoo").unwrap())
    );
    assert!(namespace_one.key_exists("zoo").unwrap());
    assert!(!namespace_one.key_exists("foo").unwrap());
}

#[test]
fn test_db_path_shapes() {
    assert_eq!(
        MicroKV::get_db_path_with_base_path("name", "/tmp/base"),
        "/tmp/base/name.kv"
    );
    assert_eq!(
        MicroKV::get_db_path_with_base_path("name", "/tmp/base/"),
        "/tmp/base/name.kv"
    );
}

#[test]
fn test_delete_and_exists() {
    let kv = MicroKV::new("test_delete_and_exists")
        .unwrap()
        .with_pwd_clear(TEST_PASSWORD);

    kv.put("k", &bincode::serialize(&7u64).unwrap()).unwrap();
    assert!(kv.key_exists("k").unwrap());

    kv.delete("k").unwrap();
    assert!(!kv.key_exists("k").unwrap());
    assert_eq!(None, kv.get("k").unwrap());

    let err = kv.get_unwrap("k").unwrap_err();
    assert_eq!(err.error, ErrorType::KVError);
}

#[test]
fn test_keys_enumeration() {
    let kv = MicroKV::new("test_keys_enumeration").unwrap();

    let payload = bincode::serialize(&1u8).unwrap();
    kv.put("banana", &payload).unwrap();
    kv.put("apple", &payload).unwrap();
    kv.put("cherry", &payload).unwrap();

    // insertion order, each key exactly once
    assert_eq!(kv.keys().unwrap(), vec!["banana", "apple", "cherry"]);

    // lexicographic order, same set; the canonical order is untouched
    assert_eq!(kv.sorted_keys().unwrap(), vec!["apple", "banana", "cherry"]);
    assert_eq!(kv.keys().unwrap(), vec!["banana", "apple", "cherry"]);

    // a re-put moves the key to the end of the insertion order
    kv.put("banana", &payload).unwrap();
    assert_eq!(kv.keys().unwrap(), vec!["apple", "cherry", "banana"]);
}

#[test]
fn test_namespace_isolation() {
    let kv = MicroKV::new("test_namespace_isolation").unwrap();
    let ns_a = kv.namespace("A");
    let ns_b = kv.namespace("B");

    ns_a.put("x", &bincode::serialize(&41u64).unwrap()).unwrap();

    assert_eq!(None, kv.get("x").unwrap());
    assert_eq!(None, ns_b.get("x").unwrap());
    assert!(ns_a.get("x").unwrap().is_some());

    assert_eq!(ns_a.keys().unwrap(), vec!["A@x"]);
    assert!(ns_b.keys().unwrap().is_empty());

    // clearing one namespace leaves the others alone
    kv.put("x", &bincode::serialize(&1u8).unwrap()).unwrap();
    ns_a.clear().unwrap();
    assert_eq!(None, ns_a.get("x").unwrap());
    assert!(kv.get("x").unwrap().is_some());
}

#[test]
fn test_persistence_roundtrip() {
    let kv = MicroKV::new_with_base_path("test_persistence_roundtrip", "/tmp/microkv")
        .with_pwd_clear("p@ss");

    kv.put("alpha", &bincode::serialize(&1u64).unwrap()).unwrap();
    kv.put("beta", &bincode::serialize(&"two".to_string()).unwrap())
        .unwrap();
    kv.namespace("caf\u{e9}")
        .put("gamma", &bincode::serialize(&3i32).unwrap())
        .unwrap();

    let record = kv.to_file_bytes();

    let reopened = MicroKV::open_from_contents(Some(record))
        .expect("a committed record must be readable")
        .with_pwd_clear("p@ss");

    assert_eq!(reopened.file_path(), kv.file_path());
    assert_eq!(reopened.keys().unwrap(), kv.keys().unwrap());

    let one: u64 = bincode::deserialize(&reopened.get_unwrap("alpha").unwrap()).unwrap();
    assert_eq!(one, 1u64);
    let two: String = bincode::deserialize(&reopened.get_unwrap("beta").unwrap()).unwrap();
    assert_eq!(two, "two");
    let three: i32 =
        bincode::deserialize(&reopened.namespace("caf\u{e9}").get_unwrap("gamma").unwrap())
            .unwrap();
    assert_eq!(three, 3);
}

#[test]
fn test_wrong_password() {
    let kv = MicroKV::new_with_base_path("test_wrong_password", "/tmp/microkv")
        .with_pwd_clear("correct horse");
    kv.put("secret", &bincode::serialize(&42u64).unwrap())
        .unwrap();
    let record = kv.to_file_bytes();

    let reopened = MicroKV::open_from_contents(Some(record))
        .unwrap()
        .with_pwd_clear("battery staple");

    let err = reopened.get("secret").unwrap_err();
    assert_eq!(err.error, ErrorType::CryptoError);
    let err = reopened.get_unwrap("secret").unwrap_err();
    assert_eq!(err.error, ErrorType::CryptoError);
}

#[test]
fn test_pwd_hash_interop() {
    // SHA-256("abc"), the classic test vector: a pre-hashed secret must
    // interoperate with the same password given in clear.
    let digest: [u8; 32] = [
        0xba, 0x78, 0x16, 0xbf, 0x8f, 0x01, 0xcf, 0xea, 0x41, 0x41, 0x40, 0xde, 0x5d, 0xae,
        0x22, 0x23, 0xb0, 0x03, 0x61, 0xa3, 0x96, 0x17, 0x7a, 0x9c, 0xb4, 0x10, 0xff, 0x61,
        0xf2, 0x00, 0x15, 0xad,
    ];

    let kv = MicroKV::new_with_base_path("test_pwd_hash_interop", "/tmp/microkv")
        .with_pwd_clear("abc");
    kv.put("k", &bincode::serialize(&"v".to_string()).unwrap())
        .unwrap();
    let record = kv.to_file_bytes();

    let reopened = MicroKV::open_from_contents(Some(record))
        .unwrap()
        .with_pwd_hash(digest);
    let got: String = bincode::deserialize(&reopened.get_unwrap("k").unwrap()).unwrap();
    assert_eq!(got, "v");
}

#[test]
fn test_decode_rejects_garbage() {
    let err = match MicroKV::open_from_contents(Some(vec![1, 2, 3])) {
        Ok(_) => panic!("garbage was accepted"),
        Err(e) => e,
    };
    assert_eq!(err.error, ErrorType::SerializationError);

    // a truncated but longer prefix is rejected too
    let err = match MicroKV::open_from_contents(Some(vec![0u8; 39])) {
        Ok(_) => panic!("a truncated record was accepted"),
        Err(e) => e,
    };
    assert_eq!(err.error, ErrorType::SerializationError);

    // a missing file is a file error, not a fresh store
    let err = match MicroKV::open_from_contents(None) {
        Ok(_) => panic!("a missing file opened as a store"),
        Err(e) => e,
    };
    assert_eq!(err.error, ErrorType::FileError);
    assert_eq!(
        err.display_text(),
        "FileError received from microkv with message: the store file is missing or unreadable"
    );
}

#[test]
fn test_example_scenario() {
    let kv = MicroKV::new("demo").unwrap().with_pwd_clear("p@ss");

    kv.put("k1", &bincode::serialize(&42u64).unwrap()).unwrap();
    let got: u64 = bincode::deserialize(&kv.get_unwrap("k1").unwrap()).unwrap();
    assert_eq!(got, 42u64);

    kv.put("k1", &bincode::serialize(&"overwritten".to_string()).unwrap())
        .unwrap();
    let got: String = bincode::deserialize(&kv.get_unwrap("k1").unwrap()).unwrap();
    assert_eq!(got, "overwritten");

    let keys = kv.keys().unwrap();
    assert_eq!(keys.iter().filter(|k| k.as_str() == "k1").count(), 1);
}

#[test]
fn test_format_key_shapes() {
    assert_eq!(format_key("one", "zoo"), "one@zoo");
    assert_eq!(format_key("", "zoo"), "zoo");
    assert_eq!(format_key("ns", ""), "ns@");
}

#[test]
fn test_empty_key_and_value() {
    let kv = MicroKV::new("test_empty_key_and_value")
        .unwrap()
        .with_pwd_clear(TEST_PASSWORD);
    let empty: Vec<u8> = Vec::new();
    kv.put("", &empty).unwrap();
    assert_eq!(kv.get_unwrap("").unwrap(), empty);
    assert_eq!(kv.keys().unwrap(), vec![""]);
}

#[test]
fn test_clear_everything() {
    let kv = MicroKV::new("test_clear_everything").unwrap();
    kv.put("a", &vec![1u8]).unwrap();
    kv.namespace("n").put("b", &vec![2u8]).unwrap();
    kv.clear().unwrap();
    assert!(kv.keys().unwrap().is_empty());
    assert!(!kv.key_exists("a").unwrap());
    assert!(!kv.namespace("n").key_exists("b").unwrap());
}

#[test]
fn test_unencrypted_roundtrip() {
    let kv = MicroKV::new("test_unencrypted_roundtrip").unwrap();
    let value = bincode::serialize(&"plain".to_string()).unwrap();
    kv.put(KEY_NAME, &value).unwrap();
    assert_eq!(kv.get_unwrap(KEY_NAME).unwrap(), value);

    // persistence without a password keeps the bytes as they are
    let record = kv.to_file_bytes();
    let reopened = MicroKV::open_from_contents(Some(record)).unwrap();
    assert_eq!(reopened.get_unwrap(KEY_NAME).unwrap(), value);
}
