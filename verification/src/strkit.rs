//! String helpers proved over character sequences: lexicographic order,
//! prefix tests, and sorting of key lists.

use vstd::prelude::*;

verus! {

/// Lexicographic "less or equal" over character sequences, ordering
/// characters by their code points. For strings of valid Unicode this
/// coincides with the byte-wise ordering of their UTF-8 encodings, which is
/// the ordering `str` comparison in Rust uses.
pub open spec fn chars_le(a: Seq<char>, b: Seq<char>) -> bool
    decreases a.len(),
{
    if a.len() == 0 {
        true
    } else if b.len() == 0 {
        false
    } else if a[0] == b[0] {
        chars_le(a.drop_first(), b.drop_first())
    } else {
        a[0] < b[0]
    }
}

/// The order is reflexive.
pub proof fn lemma_chars_le_refl(a: Seq<char>)
    ensures
        chars_le(a, a),
    decreases a.len(),
{
    if a.len() > 0 {
        lemma_chars_le_refl(a.drop_first());
    }
}

/// The order is total: any two character sequences compare one way or the
/// other.
pub proof fn lemma_chars_le_total(a: Seq<char>, b: Seq<char>)
    ensures
        chars_le(a, b) || chars_le(b, a),
    decreases a.len(),
{
    if a.len() == 0 {
    } else if b.len() == 0 {
    } else if a[0] == b[0] {
        lemma_chars_le_total(a.drop_first(), b.drop_first());
    }
}

/// The order is transitive.
pub proof fn lemma_chars_le_trans(a: Seq<char>, b: Seq<char>, c: Seq<char>)
    requires
        chars_le(a, b),
        chars_le(b, c),
    ensures
        chars_le(a, c),
    decreases a.len(),
{
    if a.len() == 0 {
    } else if b.len() == 0 {
    } else if c.len() == 0 {
    } else {
        if a[0] == b[0] && b[0] == c[0] {
            lemma_chars_le_trans(a.drop_first(), b.drop_first(), c.drop_first());
        }
    }
}

/// Compare two strings in the lexicographic order of their characters.
pub fn str_le(a: &str, b: &str) -> (r: bool)
    ensures
        r == chars_le(a@, b@),
{
    let a_len = a.unicode_len();
    let b_len = b.unicode_len();
    let mut i: usize = 0;
    proof {
        assert(a@.skip(0) =~= a@);
        assert(b@.skip(0) =~= b@);
    }
    while i < a_len && i < b_len
        invariant
            a_len == a@.len(),
            b_len == b@.len(),
            i <= a_len,
            i <= b_len,
            chars_le(a@, b@) == chars_le(a@.skip(i as int), b@.skip(i as int)),
        decreases a_len - i,
    {
        let ca = a.get_char(i);
        let cb = b.get_char(i);
        if ca != cb {
            proof {
                assert(a@.skip(i as int)[0] == ca);
                assert(b@.skip(i as int)[0] == cb);
            }
            return ca < cb;
        }
        proof {
            assert(a@.skip(i as int).drop_first() =~= a@.skip(i + 1));
            assert(b@.skip(i as int).drop_first() =~= b@.skip(i + 1));
            assert(a@.skip(i as int)[0] == b@.skip(i as int)[0]);
        }
        i = i + 1;
    }
    proof {
        if i == a_len {
            assert(a@.skip(i as int).len() == 0);
        } else {
            assert(b@.skip(i as int).len() == 0);
            assert(a@.skip(i as int).len() > 0);
        }
    }
    a_len <= b_len
}

/// Whether `p` is a prefix of `s`.
pub open spec fn spec_starts_with(s: Seq<char>, p: Seq<char>) -> bool {
    p.len() <= s.len() && s.subrange(0, p.len() as int) == p
}

/// Test whether the string `s` starts with the string `p`.
pub fn str_starts_with(s: &str, p: &str) -> (r: bool)
    ensures
        r == spec_starts_with(s@, p@),
{
    let s_len = s.unicode_len();
    let p_len = p.unicode_len();
    if p_len > s_len {
        return false;
    }
    let mut i: usize = 0;
    while i < p_len
        invariant
            s_len == s@.len(),
            p_len == p@.len(),
            p_len <= s_len,
            i <= p_len,
            forall|j: int| 0 <= j < i ==> s@[j] == p@[j],
        decreases p_len - i,
    {
        if s.get_char(i) != p.get_char(i) {
            proof {
                assert(s@.subrange(0, p@.len() as int)[i as int] == s@[i as int]);
            }
            return false;
        }
        i = i + 1;
    }
    proof {
        assert(s@.subrange(0, p@.len() as int) =~= p@);
    }
    true
}

/// The character sequences of a list of strings, in order.
pub open spec fn strings_view(v: Seq<String>) -> Seq<Seq<char>> {
    v.map_values(|s: String| s@)
}

/// No two entries of a key list read the same.
pub open spec fn keys_distinct(ks: Seq<Seq<char>>) -> bool {
    forall|i: int, j: int| 0 <= i < j < ks.len() ==> ks[i] != ks[j]
}

/// A key list is sorted when every earlier entry compares "less or equal" to
/// every later one.
pub open spec fn strings_sorted(s: Seq<String>) -> bool {
    forall|i: int, j: int| 0 <= i < j < s.len() ==> chars_le(s[i]@, s[j]@)
}

/// Sort a list of strings into lexicographic order. The result holds exactly
/// the same strings, with multiplicity.
pub fn sort_strings(keys: Vec<String>) -> (r: Vec<String>)
    ensures
        strings_sorted(r@),
        r@.to_multiset() == keys@.to_multiset(),
{
    broadcast use vstd::seq_lib::group_to_multiset_ensures;

    let mut rest = keys;
    let mut out: Vec<String> = Vec::new();
    proof {
        assert(out@.to_multiset().add(rest@.to_multiset()) =~= keys@.to_multiset()) by {
            assert(out@.to_multiset().len() == 0);
        }
    }
    while rest.len() > 0
        invariant
            strings_sorted(out@),
            out@.to_multiset().add(rest@.to_multiset()) == keys@.to_multiset(),
            forall|i: int, j: int|
                0 <= i < out@.len() && 0 <= j < rest@.len() ==> chars_le(
                    out@[i]@,
                    rest@[j]@,
                ),
        decreases rest.len(),
    {
        let mut min_idx: usize = 0;
        let mut k: usize = 1;
        proof {
            lemma_chars_le_refl(rest@[0]@);
        }
        while k < rest.len()
            invariant
                rest@.len() > 0,
                min_idx < rest@.len(),
                k <= rest@.len(),
                forall|j: int| 0 <= j < k ==> chars_le(rest@[min_idx as int]@, rest@[j]@),
            decreases rest.len() - k,
        {
            if str_le(rest[k].as_str(), rest[min_idx].as_str()) {
                proof {
                    assert forall|j: int| 0 <= j < k implies chars_le(
                        rest@[k as int]@,
                        rest@[j]@,
                    ) by {
                        lemma_chars_le_trans(rest@[k as int]@, rest@[min_idx as int]@, rest@[j]@);
                    }
                    lemma_chars_le_refl(rest@[k as int]@);
                }
                min_idx = k;
            } else {
                proof {
                    lemma_chars_le_total(rest@[k as int]@, rest@[min_idx as int]@);
                }
            }
            k = k + 1;
        }
        let ghost old_out = out@;
        let ghost old_rest = rest@;
        let picked = rest.remove(min_idx);
        out.push(picked);
        proof {
            assert(out@ =~= old_out.push(picked));
            assert(rest@ =~= old_rest.remove(min_idx as int));
            old_out.to_multiset_ensures();
            old_rest.to_multiset_ensures();
            assert(old_rest[min_idx as int] == picked);
            assert(old_rest.contains(picked));
            assert(old_rest.to_multiset().count(picked) > 0);
            assert(out@.to_multiset() =~= old_out.to_multiset().insert(picked));
            assert(rest@.to_multiset() =~= old_rest.to_multiset().remove(picked));
            assert(out@.to_multiset().add(rest@.to_multiset()) =~= old_out.to_multiset().add(
                old_rest.to_multiset(),
            ));
            assert forall|i: int, j: int|
                0 <= i < out@.len() && 0 <= j < rest@.len() implies chars_le(
                out@[i]@,
                rest@[j]@,
            ) by {
                let jj = if j < min_idx {
                    j
                } else {
                    j + 1
                };
                assert(rest@[j] == old_rest[jj]);
                if i < old_out.len() {
                    assert(chars_le(out@[i]@, old_rest[jj]@));
                } else {
                    assert(out@[i] == picked);
                    assert(chars_le(picked@, old_rest[jj]@));
                }
            }
            assert(strings_sorted(out@)) by {
                assert forall|i: int, j: int| 0 <= i < j < out@.len() implies chars_le(
                    out@[i]@,
                    out@[j]@,
                ) by {
                    if j < old_out.len() {
                    } else {
                        assert(out@[j] == picked);
                        assert(old_rest[min_idx as int] == picked);
                        assert(chars_le(out@[i]@, picked@));
                    }
                }
            }
        }
    }
    proof {
        assert(rest@.to_multiset().len() == 0);
        assert(out@.to_multiset() =~= keys@.to_multiset());
    }
    out
}

} // verus!
