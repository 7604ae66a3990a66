//! Persistence: the store's durable fields as one length-prefixed byte
//! record, and the parser that reads the record back.
//!
//! The record holds, in fixed order: the file path (8-byte little-endian
//! byte length, then the path's UTF-8 bytes), the entry count (8-byte
//! little-endian), each entry (length-prefixed key bytes, then
//! length-prefixed blob bytes), and the 24-byte public nonce. The password
//! secret is never part of it. Decoding an encoded record yields exactly
//! the encoded fields; the parser accepts nothing else.

use vstd::bytes::{
    lemma_auto_spec_u64_to_from_le_bytes, spec_u64_from_le_bytes, spec_u64_to_le_bytes,
    u64_from_le_bytes, u64_to_le_bytes,
};
use vstd::prelude::*;
use vstd::slice::{slice_subrange, slice_to_vec};
use vstd::string::{StringSliceAdditionalSpecFns, StrSliceExecFns};
use vstd::utf8::{
    decode_utf8, encode_utf8, encode_utf8_decode_utf8, encode_utf8_valid_utf8, valid_utf8,
};

use crate::crypto::NONCE_LEN;
use crate::errors::{ErrorType, KVError};
use crate::storage::{
    distinct_keys, lemma_push_distinct, lemma_remove_key_absent, spec_contains_key, SpecEntry,
    StoreMap,
};

verus! {

/// A byte string with its 8-byte little-endian length in front.
pub open spec fn spec_enc_bytes(b: Seq<u8>) -> Seq<u8> {
    spec_u64_to_le_bytes(b.len() as u64) + b
}

/// A string as its length-prefixed UTF-8 bytes.
pub open spec fn spec_enc_str(s: Seq<char>) -> Seq<u8> {
    spec_enc_bytes(encode_utf8(s))
}

/// One entry: length-prefixed key bytes, then length-prefixed blob bytes.
pub open spec fn spec_enc_entry(e: SpecEntry) -> Seq<u8> {
    spec_enc_str(e.0) + spec_enc_bytes(e.1)
}

/// All entries, in order.
pub open spec fn spec_enc_entries(es: Seq<SpecEntry>) -> Seq<u8>
    decreases es.len(),
{
    if es.len() == 0 {
        Seq::empty()
    } else {
        spec_enc_entry(es.first()) + spec_enc_entries(es.drop_first())
    }
}

/// The whole record: path, entry count, entries, nonce.
pub open spec fn spec_enc_store(path: Seq<char>, es: Seq<SpecEntry>, nonce: Seq<u8>) -> Seq<u8> {
    spec_enc_str(path) + spec_u64_to_le_bytes(es.len() as u64) + spec_enc_entries(es) + nonce
}

/// Whether an entry's lengths fit their 8-byte prefixes.
pub open spec fn spec_entry_fits(e: SpecEntry) -> bool {
    encode_utf8(e.0).len() <= u64::MAX && e.1.len() <= u64::MAX
}

/// Whether a record's lengths all fit their 8-byte prefixes.
pub open spec fn spec_store_fits(path: Seq<char>, es: Seq<SpecEntry>) -> bool {
    &&& encode_utf8(path).len() <= u64::MAX
    &&& es.len() <= u64::MAX
    &&& forall|i: int| 0 <= i < es.len() ==> spec_entry_fits(#[trigger] es[i])
}

/// Reading a length-prefixed byte string: the length, the bytes, the rest.
pub open spec fn spec_dec_lp_bytes(b: Seq<u8>) -> Option<(Seq<u8>, Seq<u8>)> {
    if b.len() < 8 {
        None
    } else {
        let n = spec_u64_from_le_bytes(b.subrange(0, 8));
        if b.len() - 8 < n {
            None
        } else {
            Some((b.subrange(8, 8 + n), b.skip(8 + n)))
        }
    }
}

/// Reading one entry: the key must be valid UTF-8.
pub open spec fn spec_dec_entry(b: Seq<u8>) -> Option<(SpecEntry, Seq<u8>)> {
    match spec_dec_lp_bytes(b) {
        None => None,
        Some(kb_rest) => if !valid_utf8(kb_rest.0) {
            None
        } else {
            match spec_dec_lp_bytes(kb_rest.1) {
                None => None,
                Some(vb_rest) => Some(((decode_utf8(kb_rest.0), vb_rest.0), vb_rest.1)),
            }
        },
    }
}

/// Reading `n` entries in a row: the entries and the remaining bytes.
pub open spec fn spec_dec_entries(b: Seq<u8>, n: nat) -> Option<(Seq<SpecEntry>, Seq<u8>)>
    decreases n,
{
    if n == 0 {
        Some((Seq::empty(), b))
    } else {
        match spec_dec_entry(b) {
            None => None,
            Some(e_rest) => match spec_dec_entries(e_rest.1, (n - 1) as nat) {
                None => None,
                Some(es_rest) => Some((seq![e_rest.0] + es_rest.0, es_rest.1)),
            },
        }
    }
}

/// Reading the whole record: path, entries, and exactly 24 nonce bytes at
/// the end.
pub open spec fn spec_dec_store(b: Seq<u8>) -> Option<(Seq<char>, Seq<SpecEntry>, Seq<u8>)> {
    match spec_dec_lp_bytes(b) {
        None => None,
        Some(pb_rest) => if !valid_utf8(pb_rest.0) {
            None
        } else if pb_rest.1.len() < 8 {
            None
        } else {
            let cnt = spec_u64_from_le_bytes(pb_rest.1.subrange(0, 8));
            match spec_dec_entries(pb_rest.1.skip(8), cnt as nat) {
                None => None,
                Some(es_rest) => if es_rest.1.len() == NONCE_LEN {
                    Some((decode_utf8(pb_rest.0), es_rest.0, es_rest.1))
                } else {
                    None
                },
            }
        },
    }
}

/// Appending one entry to an encoded run appends its encoding.
pub proof fn lemma_enc_entries_push(es: Seq<SpecEntry>, e: SpecEntry)
    ensures
        spec_enc_entries(es.push(e)) == spec_enc_entries(es) + spec_enc_entry(e),
    decreases es.len(),
{
    if es.len() == 0 {
        assert(es.push(e).drop_first() =~= es);
        assert(es.push(e).first() == e);
        assert(spec_enc_entries(es.push(e)) == spec_enc_entry(e) + spec_enc_entries(es));
        assert(spec_enc_entry(e) + spec_enc_entries(es) =~= spec_enc_entry(e));
        assert(spec_enc_entries(es) + spec_enc_entry(e) =~= spec_enc_entry(e));
    } else {
        assert(es.push(e).drop_first() =~= es.drop_first().push(e));
        assert(es.push(e).first() == es.first());
        lemma_enc_entries_push(es.drop_first(), e);
        assert(spec_enc_entries(es.push(e)) == spec_enc_entry(es.first()) + (spec_enc_entries(
            es.drop_first(),
        ) + spec_enc_entry(e)));
        assert(spec_enc_entry(es.first()) + (spec_enc_entries(es.drop_first()) + spec_enc_entry(
            e,
        )) =~= (spec_enc_entry(es.first()) + spec_enc_entries(es.drop_first())) + spec_enc_entry(
            e,
        ));
    }
}

/// Reading a length-prefixed byte string back out of its encoding yields
/// the bytes and whatever follows.
pub proof fn lemma_dec_lp_of_enc(b: Seq<u8>, tail: Seq<u8>)
    requires
        b.len() <= u64::MAX,
    ensures
        spec_dec_lp_bytes(spec_enc_bytes(b) + tail) == Some((b, tail)),
{
    lemma_auto_spec_u64_to_from_le_bytes();
    let all = spec_enc_bytes(b) + tail;
    let prefix = spec_u64_to_le_bytes(b.len() as u64);
    assert(prefix.len() == 8);
    assert(all.len() == 8 + b.len() + tail.len());
    assert(all.subrange(0, 8) =~= prefix);
    assert(spec_u64_from_le_bytes(all.subrange(0, 8)) == b.len() as u64);
    assert(all.subrange(8, 8 + b.len() as int) =~= b);
    assert(all.skip(8 + b.len() as int) =~= tail);
}

/// Reading a run of encoded entries back yields the entries and whatever
/// follows.
pub proof fn lemma_dec_entries_of_enc(es: Seq<SpecEntry>, tail: Seq<u8>)
    requires
        forall|i: int| 0 <= i < es.len() ==> spec_entry_fits(#[trigger] es[i]),
    ensures
        spec_dec_entries(spec_enc_entries(es) + tail, es.len()) == Some((es, tail)),
    decreases es.len(),
{
    broadcast use encode_utf8_valid_utf8;
    broadcast use encode_utf8_decode_utf8;

    if es.len() == 0 {
        assert(spec_enc_entries(es) + tail =~= tail);
        assert(spec_dec_entries(tail, 0) == Some((Seq::<SpecEntry>::empty(), tail)));
        assert(Seq::<SpecEntry>::empty() =~= es);
    } else {
        let e = es.first();
        let rest = es.drop_first();
        assert(spec_entry_fits(es[0]));
        let kb = encode_utf8(e.0);
        let after_key = spec_enc_bytes(e.1) + (spec_enc_entries(rest) + tail);
        assert(spec_enc_entries(es) + tail =~= spec_enc_bytes(kb) + after_key);
        lemma_dec_lp_of_enc(kb, after_key);
        assert(valid_utf8(kb));
        assert(decode_utf8(kb) == e.0);
        lemma_dec_lp_of_enc(e.1, spec_enc_entries(rest) + tail);
        assert(spec_dec_entry(spec_enc_entries(es) + tail) == Some((
            (e.0, e.1),
            spec_enc_entries(rest) + tail,
        )));
        assert((e.0, e.1) == e);
        assert(forall|i: int| 0 <= i < rest.len() ==> spec_entry_fits(#[trigger] rest[i])) by {
            assert(forall|i: int| 0 <= i < rest.len() ==> rest[i] == es[i + 1]);
        }
        lemma_dec_entries_of_enc(rest, tail);
        assert(seq![e] + rest =~= es);
    }
}

/// The persistence round trip: reading back an encoded record yields
/// exactly the encoded path, entries and nonce.
pub proof fn lemma_dec_enc_store(path: Seq<char>, es: Seq<SpecEntry>, nonce: Seq<u8>)
    requires
        spec_store_fits(path, es),
        nonce.len() == NONCE_LEN,
    ensures
        spec_dec_store(spec_enc_store(path, es, nonce)) == Some((path, es, nonce)),
{
    broadcast use encode_utf8_valid_utf8;
    broadcast use encode_utf8_decode_utf8;

    lemma_auto_spec_u64_to_from_le_bytes();
    let pb = encode_utf8(path);
    let cnt_bytes = spec_u64_to_le_bytes(es.len() as u64);
    let after_path = cnt_bytes + (spec_enc_entries(es) + nonce);
    assert(spec_enc_store(path, es, nonce) =~= spec_enc_bytes(pb) + after_path);
    lemma_dec_lp_of_enc(pb, after_path);
    assert(valid_utf8(pb));
    assert(decode_utf8(pb) == path);
    assert(cnt_bytes.len() == 8);
    assert(after_path.len() >= 8);
    assert(after_path.subrange(0, 8) =~= cnt_bytes);
    assert(spec_u64_from_le_bytes(after_path.subrange(0, 8)) == es.len() as u64);
    assert(after_path.skip(8) =~= spec_enc_entries(es) + nonce);
    lemma_dec_entries_of_enc(es, nonce);
}

/// Append the little-endian bytes of a length to the output.
fn push_u64(out: &mut Vec<u8>, x: u64)
    ensures
        final(out)@ == old(out)@ + spec_u64_to_le_bytes(x),
{
    let mut le_bytes = u64_to_le_bytes(x);
    out.append(&mut le_bytes);
}

/// Append a copy of the given bytes to the output.
fn push_slice(out: &mut Vec<u8>, b: &Vec<u8>)
    ensures
        final(out)@ == old(out)@ + b@,
{
    let mut i: usize = 0;
    while i < b.len()
        invariant
            i <= b@.len(),
            out@ == old(out)@ + b@.take(i as int),
        decreases b@.len() - i,
    {
        out.push(b[i]);
        proof {
            assert(old(out)@ + b@.take(i + 1) =~= (old(out)@ + b@.take(i as int)).push(
                b@[i as int],
            ));
        }
        i = i + 1;
    }
    proof {
        assert(b@.take(b@.len() as int) =~= b@);
    }
}

/// Read an 8-byte little-endian length at the given offset.
fn read_u64(bytes: &Vec<u8>, off: usize) -> (x: u64)
    requires
        off + 8 <= bytes@.len(),
    ensures
        x == spec_u64_from_le_bytes(bytes@.subrange(off as int, off as int + 8)),
{
    let total = bytes.len();
    u64_from_le_bytes(slice_subrange(bytes.as_slice(), off, off + 8))
}

/// Copy `n` bytes starting at the given offset.
fn read_vec(bytes: &Vec<u8>, off: usize, n: usize) -> (r: Vec<u8>)
    requires
        off + n <= bytes@.len(),
    ensures
        r@ == bytes@.subrange(off as int, off as int + n as int),
{
    let total = bytes.len();
    slice_to_vec(slice_subrange(bytes.as_slice(), off, off + n))
}

/// Relies on std's `String::from_utf8`: it succeeds exactly on valid
/// UTF-8 and returns the string those bytes encode.
#[verifier::external_body]
fn string_from_utf8(bytes: Vec<u8>) -> (r: Option<String>)
    ensures
        r matches Some(s) ==> encode_utf8(s@) == bytes@,
        r is None ==> !valid_utf8(bytes@),
{
    String::from_utf8(bytes).ok()
}

/// The modeled entries of a plain entry list.
pub open spec fn entries_view(entries: Seq<(String, Vec<u8>)>) -> Seq<SpecEntry> {
    entries.map_values(|p: (String, Vec<u8>)| (p.0@, p.1@))
}

/// The error every rejected record reports.
fn parse_error() -> (r: KVError)
    ensures
        r.error == ErrorType::SerializationError,
{
    KVError::with_msg(ErrorType::SerializationError, "cannot deserialize the store file")
}

/// Encode the durable fields of a store as one record.
pub fn encode_store(path: &String, entries: &Vec<(String, Vec<u8>)>, nonce: &Vec<u8>) -> (r: Vec<
    u8,
>)
    ensures
        r@ == spec_enc_store(path@, entries_view(entries@), nonce@),
        spec_store_fits(path@, entries_view(entries@)),
{
    let ghost es = entries_view(entries@);
    let mut out: Vec<u8> = Vec::new();
    let path_bytes = path.as_str().as_bytes_vec();
    push_u64(&mut out, path_bytes.len() as u64);
    push_slice(&mut out, &path_bytes);
    proof {
        assert(out@ =~= spec_enc_str(path@));
    }
    push_u64(&mut out, entries.len() as u64);
    let ghost header = out@;
    let mut i: usize = 0;
    proof {
        assert(spec_enc_entries(es.take(0)) =~= Seq::<u8>::empty());
        assert(out@ =~= header + spec_enc_entries(es.take(0)));
    }
    while i < entries.len()
        invariant
            i <= entries@.len(),
            es == entries_view(entries@),
            out@ == header + spec_enc_entries(es.take(i as int)),
            forall|j: int| 0 <= j < i ==> spec_entry_fits(#[trigger] es[j]),
        decreases entries@.len() - i,
    {
        let key_bytes = entries[i].0.as_str().as_bytes_vec();
        push_u64(&mut out, key_bytes.len() as u64);
        push_slice(&mut out, &key_bytes);
        push_u64(&mut out, entries[i].1.len() as u64);
        push_slice(&mut out, &entries[i].1);
        proof {
            assert(es[i as int] == (entries@[i as int].0@, entries@[i as int].1@));
            assert(spec_entry_fits(es[i as int]));
            assert(out@ =~= header + (spec_enc_entries(es.take(i as int)) + spec_enc_entry(
                es[i as int],
            )));
            assert(es.take(i + 1) =~= es.take(i as int).push(es[i as int]));
            lemma_enc_entries_push(es.take(i as int), es[i as int]);
        }
        i = i + 1;
    }
    push_slice(&mut out, nonce);
    proof {
        assert(es.take(es.len() as int) =~= es);
        assert(out@ =~= spec_enc_store(path@, es, nonce@));
    }
    out
}

/// Parse a record back into a path, a storage map and a nonce. A record
/// is accepted exactly when it is a well-formed encoding whose keys are
/// distinct; the parsed map then holds exactly the encoded entries, in
/// their encoded order.
pub fn decode_store(bytes: &Vec<u8>) -> (r: Result<(String, StoreMap, Vec<u8>), KVError>)
    ensures
        r matches Ok(t) ==> t.1.wf() && spec_dec_store(bytes@) == Some((t.0@, t.1@, t.2@))
            && t.2@.len() == NONCE_LEN,
        r matches Err(e) ==> e.error == ErrorType::SerializationError && match spec_dec_store(
            bytes@,
        ) {
            None => true,
            Some(v) => !distinct_keys(v.1),
        },
{
    if bytes.len() < 8 {
        return Err(parse_error());
    }
    let plen64 = read_u64(bytes, 0);
    proof {
        assert(bytes@.subrange(0, 8) == bytes@.subrange(0int, 0int + 8));
    }
    if plen64 > (bytes.len() - 8) as u64 {
        return Err(parse_error());
    }
    let plen = plen64 as usize;
    let path_bytes = read_vec(bytes, 8, plen);
    let ghost pb_view = path_bytes@;
    let ghost rest1 = bytes@.skip(8 + plen as int);
    proof {
        assert(spec_dec_lp_bytes(bytes@) == Some((pb_view, rest1)));
    }
    let path = match string_from_utf8(path_bytes) {
        Some(s) => s,
        None => {
            return Err(parse_error());
        },
    };
    proof {
        broadcast use encode_utf8_valid_utf8;
        broadcast use encode_utf8_decode_utf8;

        assert(valid_utf8(pb_view));
        assert(decode_utf8(pb_view) == path@);
    }
    let mut cur: usize = 8 + plen;
    if bytes.len() - cur < 8 {
        return Err(parse_error());
    }
    let cnt64 = read_u64(bytes, cur);
    proof {
        assert(bytes@.subrange(cur as int, cur as int + 8) =~= rest1.subrange(0, 8));
    }
    cur = cur + 8;
    let ghost entries_tail = bytes@.skip(cur as int);
    proof {
        assert(entries_tail =~= rest1.skip(8));
    }
    let mut store = StoreMap::new();
    let mut i: u64 = 0;
    while i < cnt64
        invariant
            i <= cnt64,
            cur <= bytes@.len(),
            store.wf(),
            spec_dec_lp_bytes(bytes@) == Some((pb_view, rest1)),
            valid_utf8(pb_view),
            decode_utf8(pb_view) == path@,
            rest1.len() >= 8,
            spec_u64_from_le_bytes(rest1.subrange(0, 8)) == cnt64,
            entries_tail == rest1.skip(8),
            entries_tail == bytes@.skip(8 + plen as int + 8),
            8 + plen as int + 8 <= cur as int,
            match spec_dec_entries(bytes@.skip(cur as int), (cnt64 - i) as nat) {
                Some(p) => spec_dec_entries(entries_tail, cnt64 as nat) == Some((
                    store@ + p.0,
                    p.1,
                )),
                None => spec_dec_entries(entries_tail, cnt64 as nat) is None,
            },
        decreases cnt64 - i,
    {
        let ghost before_cur = cur as int;
        let ghost chunk = bytes@.skip(before_cur);
        let ghost n_left = (cnt64 - i) as nat;
        if bytes.len() - cur < 8 {
            proof {
                assert(spec_dec_entry(chunk) is None);
                assert(spec_dec_entries(chunk, n_left) is None);
            }
            return Err(parse_error());
        }
        let klen64 = read_u64(bytes, cur);
        proof {
            assert(bytes@.subrange(cur as int, cur as int + 8) =~= chunk.subrange(0, 8));
        }
        if klen64 > (bytes.len() - cur - 8) as u64 {
            proof {
                assert(spec_dec_lp_bytes(chunk) is None);
                assert(spec_dec_entries(chunk, n_left) is None);
            }
            return Err(parse_error());
        }
        let klen = klen64 as usize;
        let key_bytes = read_vec(bytes, cur + 8, klen);
        let ghost kb_view = key_bytes@;
        let ghost after_key = bytes@.skip(cur as int + 8 + klen as int);
        proof {
            assert(kb_view =~= chunk.subrange(8, 8 + klen64 as int));
            assert(after_key =~= chunk.skip(8 + klen64 as int));
            assert(spec_dec_lp_bytes(chunk) == Some((kb_view, after_key)));
        }
        let key = match string_from_utf8(key_bytes) {
            Some(s) => s,
            None => {
                proof {
                    assert(spec_dec_entry(chunk) is None);
                    assert(spec_dec_entries(chunk, n_left) is None);
                }
                return Err(parse_error());
            },
        };
        proof {
            broadcast use encode_utf8_valid_utf8;
            broadcast use encode_utf8_decode_utf8;

            assert(valid_utf8(kb_view));
            assert(decode_utf8(kb_view) == key@);
        }
        let key_end = cur + 8 + klen;
        if bytes.len() - key_end < 8 {
            proof {
                assert(spec_dec_lp_bytes(after_key) is None);
                assert(spec_dec_entry(chunk) is None);
                assert(spec_dec_entries(chunk, n_left) is None);
            }
            return Err(parse_error());
        }
        let vlen64 = read_u64(bytes, key_end);
        proof {
            assert(bytes@.subrange(key_end as int, key_end as int + 8) =~= after_key.subrange(
                0,
                8,
            ));
        }
        if vlen64 > (bytes.len() - key_end - 8) as u64 {
            proof {
                assert(spec_dec_lp_bytes(after_key) is None);
                assert(spec_dec_entry(chunk) is None);
                assert(spec_dec_entries(chunk, n_left) is None);
            }
            return Err(parse_error());
        }
        let vlen = vlen64 as usize;
        let blob = read_vec(bytes, key_end + 8, vlen);
        let ghost vb_view = blob@;
        let ghost after_value = bytes@.skip(key_end as int + 8 + vlen as int);
        proof {
            assert(vb_view =~= after_key.subrange(8, 8 + vlen64 as int));
            assert(after_value =~= after_key.skip(8 + vlen64 as int));
            assert(spec_dec_lp_bytes(after_key) == Some((vb_view, after_value)));
            assert(spec_dec_entry(chunk) == Some(((key@, vb_view), after_value)));
        }
        if store.has_key(&key) {
            proof {
                let p = choose|p: (Seq<SpecEntry>, Seq<u8>)|
                    spec_dec_entries(chunk, n_left) == Some(p);
                if spec_dec_entries(chunk, n_left) is Some {
                    let full = choose|full: (Seq<SpecEntry>, Seq<u8>)|
                        spec_dec_entries(entries_tail, cnt64 as nat) == Some(full);
                    let es_all = full.0;
                    let idx = choose|idx: int|
                        0 <= idx < store@.len() && store@[idx].0 == key@;
                    assert(es_all[idx] == store@[idx]);
                    assert(es_all[store@.len() as int] == (spec_dec_entries(
                        chunk,
                        n_left,
                    )->Some_0).0[0]);
                    assert(!distinct_keys(es_all));
                }
            }
            return Err(parse_error());
        }
        let ghost store_before = store@;
        store.put_blob(key, blob);
        proof {
            lemma_remove_key_absent(store_before, key@);
            assert(store@ == store_before.push((key@, vb_view)));
            let rec = spec_dec_entries(after_value, (n_left - 1) as nat);
            match rec {
                Some(p2) => {
                    assert(spec_dec_entries(chunk, n_left) == Some((
                        seq![(key@, vb_view)] + p2.0,
                        p2.1,
                    )));
                    assert(store_before + (seq![(key@, vb_view)] + p2.0) =~= store@ + p2.0);
                },
                None => {
                    assert(spec_dec_entries(chunk, n_left) is None);
                },
            }
        }
        cur = key_end + 8 + vlen;
        i = i + 1;
    }
    proof {
        assert((cnt64 - i) as nat == 0);
        assert(spec_dec_entries(bytes@.skip(cur as int), 0) == Some((
            Seq::<SpecEntry>::empty(),
            bytes@.skip(cur as int),
        )));
        assert(store@ + Seq::<SpecEntry>::empty() =~= store@);
        assert(spec_dec_entries(entries_tail, cnt64 as nat) == Some((
            store@,
            bytes@.skip(cur as int),
        )));
    }
    if bytes.len() - cur != NONCE_LEN {
        return Err(parse_error());
    }
    let nonce = read_vec(bytes, cur, NONCE_LEN);
    proof {
        assert(nonce@ =~= bytes@.skip(cur as int));
    }
    Ok((path, store, nonce))
}

} // verus!
