//! The order of strings by their encoded bytes.

use vstd::prelude::*;
use vstd::string::*;
use vstd::utf8::*;

verus! {

/// How one string stands to another.
#[derive(Clone, Copy, Debug, PartialEq, Eq, Structural)]
pub enum Rank {
    Before,
    Same,
    After,
}

/// `a` comes before `b` because of position `k`: the two agree on every
/// earlier byte, and there `a` has ended while `b` goes on, or `a` holds the
/// smaller byte.
pub open spec fn bytes_before_at(a: Seq<u8>, b: Seq<u8>, k: int) -> bool {
    &&& 0 <= k <= a.len()
    &&& k < b.len()
    &&& forall|j: int| 0 <= j < k ==> a[j] == b[j]
    &&& (k == a.len() || a[k] < b[k])
}

/// The lexicographic order on byte sequences.
pub open spec fn bytes_before(a: Seq<u8>, b: Seq<u8>) -> bool {
    exists|k: int| bytes_before_at(a, b, k)
}

/// The order on strings: that of their UTF-8 encodings, which is the order
/// of `str` itself.
pub open spec fn str_before(a: Seq<char>, b: Seq<char>) -> bool {
    bytes_before(encode_utf8(a), encode_utf8(b))
}

/// A sequence of strings in strictly rising order.
pub open spec fn strictly_sorted(names: Seq<Seq<char>>) -> bool {
    forall|i: int, j: int| 0 <= i < j < names.len() ==> str_before(names[i], names[j])
}

/// A sequence of strings in rising order: no string comes before an earlier
/// one. A string may stand in it more than once.
pub open spec fn rising(names: Seq<Seq<char>>) -> bool {
    forall|i: int, j: int| 0 <= i < j < names.len() ==> !str_before(names[j], names[i])
}

pub proof fn lemma_bytes_before_irreflexive(a: Seq<u8>)
    ensures
        !bytes_before(a, a),
{
}

pub proof fn lemma_bytes_before_transitive(a: Seq<u8>, b: Seq<u8>, c: Seq<u8>)
    requires
        bytes_before(a, b),
        bytes_before(b, c),
    ensures
        bytes_before(a, c),
{
    let k1 = choose|k: int| bytes_before_at(a, b, k);
    let k2 = choose|k: int| bytes_before_at(b, c, k);
    let k = if k1 <= k2 { k1 } else { k2 };
    assert(bytes_before_at(a, c, k));
}

pub proof fn lemma_bytes_before_asymmetric(a: Seq<u8>, b: Seq<u8>)
    requires
        bytes_before(a, b),
    ensures
        !bytes_before(b, a),
{
    if bytes_before(b, a) {
        lemma_bytes_before_transitive(a, b, a);
        lemma_bytes_before_irreflexive(a);
    }
}

/// Two strings with the same encoding are the same string.
pub proof fn lemma_encoding_injective(a: Seq<char>, b: Seq<char>)
    requires
        encode_utf8(a) == encode_utf8(b),
    ensures
        a == b,
{
    encode_utf8_decode_utf8(a);
    encode_utf8_decode_utf8(b);
}

pub proof fn lemma_str_before_irreflexive(a: Seq<char>)
    ensures
        !str_before(a, a),
{
    lemma_bytes_before_irreflexive(encode_utf8(a));
}

pub proof fn lemma_str_before_transitive(a: Seq<char>, b: Seq<char>, c: Seq<char>)
    requires
        str_before(a, b),
        str_before(b, c),
    ensures
        str_before(a, c),
{
    lemma_bytes_before_transitive(encode_utf8(a), encode_utf8(b), encode_utf8(c));
}

pub proof fn lemma_str_before_asymmetric(a: Seq<char>, b: Seq<char>)
    requires
        str_before(a, b),
    ensures
        !str_before(b, a),
        a != b,
{
    lemma_bytes_before_asymmetric(encode_utf8(a), encode_utf8(b));
    lemma_bytes_before_irreflexive(encode_utf8(a));
}

/// Of two different strings one comes before the other.
pub proof fn lemma_str_before_total(a: Seq<char>, b: Seq<char>)
    ensures
        a == b || str_before(a, b) || str_before(b, a),
{
    let x = encode_utf8(a);
    let y = encode_utf8(b);
    if x == y {
        lemma_encoding_injective(a, b);
    } else {
        lemma_first_difference(x, y, 0);
    }
}

proof fn lemma_first_difference(x: Seq<u8>, y: Seq<u8>, k: int)
    requires
        0 <= k <= x.len(),
        k <= y.len(),
        forall|j: int| 0 <= j < k ==> x[j] == y[j],
        x != y,
    ensures
        bytes_before(x, y) || bytes_before(y, x),
    decreases x.len() - k,
{
    if k == x.len() {
        if k == y.len() {
            assert(x =~= y);
        } else {
            assert(bytes_before_at(x, y, k));
        }
    } else if k == y.len() {
        assert(bytes_before_at(y, x, k));
    } else if x[k] < y[k] {
        assert(bytes_before_at(x, y, k));
    } else if y[k] < x[k] {
        assert(bytes_before_at(y, x, k));
    } else {
        lemma_first_difference(x, y, k + 1);
    }
}

/// Two strictly sorted sequences with the same elements are equal: to say
/// of a list of names that it is strictly sorted and which names it holds is
/// to say what the list is.
pub proof fn law_sorted_list_is_unique(s: Seq<Seq<char>>, t: Seq<Seq<char>>)
    requires
        strictly_sorted(s),
        strictly_sorted(t),
        s.to_set() == t.to_set(),
    ensures
        s == t,
    decreases s.len(),
{
    if s.len() == 0 {
        if t.len() > 0 {
            assert(t.to_set().contains(t[0]));
            assert(s.to_set().contains(t[0]));
        }
        assert(s =~= t);
    } else if t.len() == 0 {
        assert(s.to_set().contains(s[0]));
        assert(t.to_set().contains(s[0]));
    } else {
        // The least element of each is its first, so the two firsts agree.
        assert(s.to_set().contains(s[0]));
        assert(t.to_set().contains(s[0]));
        let j = choose|j: int| 0 <= j < t.len() && t[j] == s[0];
        assert(t.to_set().contains(t[0]));
        assert(s.to_set().contains(t[0]));
        let i = choose|i: int| 0 <= i < s.len() && s[i] == t[0];
        if j > 0 && i > 0 {
            lemma_str_before_asymmetric(s[0], s[i]);
        }
        if j > 0 && i == 0 {
            lemma_str_before_irreflexive(t[0]);
        }
        assert(s[0] == t[0]);
        let s1 = s.drop_first();
        let t1 = t.drop_first();
        assert forall|v: Seq<char>| s1.to_set().contains(v) <==> t1.to_set().contains(v) by {
            if s1.to_set().contains(v) {
                let p = choose|p: int| 0 <= p < s1.len() && s1[p] == v;
                assert(s[p + 1] == v);
                lemma_str_before_asymmetric(s[0], v);
                assert(s.to_set().contains(v));
                assert(t.to_set().contains(v));
                let q = choose|q: int| 0 <= q < t.len() && t[q] == v;
                assert(t1[q - 1] == v);
            }
            if t1.to_set().contains(v) {
                let p = choose|p: int| 0 <= p < t1.len() && t1[p] == v;
                assert(t[p + 1] == v);
                lemma_str_before_asymmetric(t[0], v);
                assert(t.to_set().contains(v));
                assert(s.to_set().contains(v));
                let q = choose|q: int| 0 <= q < s.len() && s[q] == v;
                assert(s1[q - 1] == v);
            }
        }
        assert(s1.to_set() =~= t1.to_set());
        assert forall|a: int, b: int| 0 <= a < b < s1.len() implies str_before(s1[a], s1[b]) by {
            assert(s1[a] == s[a + 1] && s1[b] == s[b + 1]);
        }
        assert forall|a: int, b: int| 0 <= a < b < t1.len() implies str_before(t1[a], t1[b]) by {
            assert(t1[a] == t[a + 1] && t1[b] == t[b + 1]);
        }
        law_sorted_list_is_unique(s1, t1);
        assert(s =~= seq![s[0]] + s1);
        assert(t =~= seq![t[0]] + t1);
    }
}

/// Compares two byte strings lexicographically.
pub fn rank_bytes(a: &[u8], b: &[u8]) -> (r: Rank)
    ensures
        r == Rank::Before <==> bytes_before(a@, b@),
        r == Rank::Same <==> a@ == b@,
        r == Rank::After <==> bytes_before(b@, a@),
{
    let mut i: usize = 0;
    while i < a.len() && i < b.len()
        invariant
            i <= a.len(),
            i <= b.len(),
            forall|j: int| 0 <= j < i ==> a@[j] == b@[j],
        decreases a.len() - i,
    {
        if a[i] < b[i] {
            proof {
                assert(bytes_before_at(a@, b@, i as int));
                lemma_bytes_before_asymmetric(a@, b@);
            }
            return Rank::Before;
        }
        if a[i] > b[i] {
            proof {
                assert(bytes_before_at(b@, a@, i as int));
                lemma_bytes_before_asymmetric(b@, a@);
            }
            return Rank::After;
        }
        i = i + 1;
    }
    if i < b.len() {
        proof {
            assert(bytes_before_at(a@, b@, i as int));
            lemma_bytes_before_asymmetric(a@, b@);
        }
        Rank::Before
    } else if i < a.len() {
        proof {
            assert(bytes_before_at(b@, a@, i as int));
            lemma_bytes_before_asymmetric(b@, a@);
        }
        Rank::After
    } else {
        proof {
            assert(a@ =~= b@);
            lemma_bytes_before_irreflexive(a@);
        }
        Rank::Same
    }
}

/// Compares two strings as `str` orders them.
pub fn rank_str(a: &str, b: &str) -> (r: Rank)
    ensures
        r == Rank::Before <==> str_before(a@, b@),
        r == Rank::Same <==> a@ == b@,
        r == Rank::After <==> str_before(b@, a@),
{
    let r = rank_bytes(a.as_bytes(), b.as_bytes());
    proof {
        if a@ == b@ {
            lemma_str_before_irreflexive(a@);
        }
        if encode_utf8(a@) == encode_utf8(b@) {
            lemma_encoding_injective(a@, b@);
        }
    }
    r
}

/// Whether two strings are the same.
pub fn same_str(a: &str, b: &str) -> (r: bool)
    ensures
        r == (a@ == b@),
{
    match rank_str(a, b) {
        Rank::Same => true,
        _ => false,
    }
}

} // verus!
