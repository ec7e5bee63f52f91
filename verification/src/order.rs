//! The order of keys: strings compared byte by byte in their UTF-8 form,
//! as an ordered key-value store lays them out.

use vstd::prelude::*;
use vstd::utf8::encode_utf8;

verus! {

/// How one key stands to another.
#[derive(Clone, Copy, Debug, PartialEq, Eq, Structural)]
pub enum Rank {
    Before,
    Same,
    After,
}

/// The first `n` bytes of `a` and `b` agree.
pub open spec fn common_prefix(a: Seq<u8>, b: Seq<u8>, n: int) -> bool {
    &&& 0 <= n <= a.len()
    &&& n <= b.len()
    &&& forall|j: int| 0 <= j < n ==> a[j] == b[j]
}

/// `a` and `b` agree on `n` bytes, and there `a` ends or has the smaller byte.
pub open spec fn precedes_at(a: Seq<u8>, b: Seq<u8>, n: int) -> bool {
    &&& common_prefix(a, b, n)
    &&& n < b.len()
    &&& n < a.len() ==> a[n] < b[n]
}

/// `a` comes strictly before `b` in lexicographic order.
pub open spec fn precedes(a: Seq<u8>, b: Seq<u8>) -> bool {
    exists|n: int| precedes_at(a, b, n)
}

/// The string `a` comes strictly before the string `b`.
pub open spec fn str_precedes(a: Seq<char>, b: Seq<char>) -> bool {
    precedes(encode_utf8(a), encode_utf8(b))
}

pub proof fn lemma_precedes_irreflexive(a: Seq<u8>)
    ensures
        !precedes(a, a),
{
}

pub proof fn lemma_precedes_transitive(a: Seq<u8>, b: Seq<u8>, c: Seq<u8>)
    requires
        precedes(a, b),
        precedes(b, c),
    ensures
        precedes(a, c),
{
    let n = choose|n: int| precedes_at(a, b, n);
    let m = choose|m: int| precedes_at(b, c, m);
    let k = if n <= m {
        n
    } else {
        m
    };
    assert(precedes_at(a, c, k));
}

pub proof fn lemma_precedes_asymmetric(a: Seq<u8>, b: Seq<u8>)
    requires
        precedes(a, b),
    ensures
        !precedes(b, a),
        a != b,
{
    if precedes(b, a) {
        lemma_precedes_transitive(a, b, a);
    }
}

proof fn lemma_precedes_total_from(a: Seq<u8>, b: Seq<u8>, n: int)
    requires
        common_prefix(a, b, n),
        a != b,
    ensures
        precedes(a, b) || precedes(b, a),
    decreases a.len() - n,
{
    if n == a.len() {
        if n == b.len() {
            assert(a =~= b);
        } else {
            assert(precedes_at(a, b, n));
        }
    } else if n == b.len() {
        assert(precedes_at(b, a, n));
    } else if a[n] < b[n] {
        assert(precedes_at(a, b, n));
    } else if b[n] < a[n] {
        assert(precedes_at(b, a, n));
    } else {
        lemma_precedes_total_from(a, b, n + 1);
    }
}

/// Of two different keys one comes before the other.
pub proof fn lemma_precedes_total(a: Seq<u8>, b: Seq<u8>)
    requires
        a != b,
    ensures
        precedes(a, b) || precedes(b, a),
{
    lemma_precedes_total_from(a, b, 0);
}

/// Different strings have different keys.
pub proof fn lemma_key_injective(a: Seq<char>, b: Seq<char>)
    requires
        encode_utf8(a) == encode_utf8(b),
    ensures
        a == b,
{
    vstd::utf8::encode_utf8_decode_utf8(a);
    vstd::utf8::encode_utf8_decode_utf8(b);
}

pub proof fn lemma_str_precedes_transitive(a: Seq<char>, b: Seq<char>, c: Seq<char>)
    requires
        str_precedes(a, b),
        str_precedes(b, c),
    ensures
        str_precedes(a, c),
{
    lemma_precedes_transitive(encode_utf8(a), encode_utf8(b), encode_utf8(c));
}

/// Exactly one of: `a` before `b`, `a` equal to `b`, `b` before `a`.
pub proof fn lemma_str_trichotomy(a: Seq<char>, b: Seq<char>)
    ensures
        str_precedes(a, b) ==> a != b && !str_precedes(b, a),
        a != b ==> str_precedes(a, b) || str_precedes(b, a),
{
    if str_precedes(a, b) {
        lemma_precedes_asymmetric(encode_utf8(a), encode_utf8(b));
    }
    if a != b {
        if encode_utf8(a) == encode_utf8(b) {
            lemma_key_injective(a, b);
        }
        lemma_precedes_total(encode_utf8(a), encode_utf8(b));
    }
}

/// Compares two byte strings lexicographically.
pub fn compare_bytes(a: &[u8], b: &[u8]) -> (r: Rank)
    ensures
        (r is Before) == precedes(a@, b@),
        (r is Same) == (a@ == b@),
        (r is After) == precedes(b@, a@),
{
    let mut i: usize = 0;
    while i < a.len() && i < b.len()
        invariant
            common_prefix(a@, b@, i as int),
        decreases a.len() - i,
    {
        if a[i] < b[i] {
            proof {
                assert(precedes_at(a@, b@, i as int));
                lemma_precedes_asymmetric(a@, b@);
            }
            return Rank::Before;
        }
        if b[i] < a[i] {
            proof {
                assert(precedes_at(b@, a@, i as int));
                lemma_precedes_asymmetric(b@, a@);
            }
            return Rank::After;
        }
        i = i + 1;
    }
    if i < b.len() {
        proof {
            assert(precedes_at(a@, b@, i as int));
            lemma_precedes_asymmetric(a@, b@);
        }
        Rank::Before
    } else if i < a.len() {
        proof {
            assert(precedes_at(b@, a@, i as int));
            lemma_precedes_asymmetric(b@, a@);
        }
        Rank::After
    } else {
        proof {
            assert(a@ =~= b@);
            lemma_precedes_irreflexive(a@);
        }
        Rank::Same
    }
}

/// Compares two strings by their UTF-8 bytes.
pub fn compare(a: &str, b: &str) -> (r: Rank)
    ensures
        (r is Before) == str_precedes(a@, b@),
        (r is Same) == (a@ == b@),
        (r is After) == str_precedes(b@, a@),
{
    proof {
        if encode_utf8(a@) == encode_utf8(b@) {
            lemma_key_injective(a@, b@);
        }
    }
    compare_bytes(a.as_bytes(), b.as_bytes())
}

/// Whether `a` comes strictly before `b`.
pub fn comes_before(a: &str, b: &str) -> (r: bool)
    ensures
        r == str_precedes(a@, b@),
{
    match compare(a, b) {
        Rank::Before => true,
        _ => false,
    }
}

/// Whether two strings are equal.
pub fn same(a: &str, b: &str) -> (r: bool)
    ensures
        r == (a@ == b@),
{
    match compare(a, b) {
        Rank::Same => true,
        _ => false,
    }
}

} // verus!
