//! Byte strings and their lexicographic order.

use vstd::prelude::*;

verus! {

/// `i` is the first position at which `a` and `b` part, and `a` is the
/// smaller one there: either `a` ends at `i` while `b` goes on, or both go on
/// and `a` holds the smaller byte.
pub open spec fn parts_below_at(a: Seq<u8>, b: Seq<u8>, i: int) -> bool {
    &&& 0 <= i <= a.len()
    &&& i < b.len()
    &&& forall|j: int| 0 <= j < i ==> a[j] == b[j]
    &&& (i < a.len() ==> a[i] < b[i])
}

/// Strict lexicographic order on byte strings, a proper prefix coming before
/// each of its extensions.
pub open spec fn lex_lt(a: Seq<u8>, b: Seq<u8>) -> bool {
    exists|i: int| #[trigger] parts_below_at(a, b, i)
}

/// `p` is a prefix of `s`, `s` itself included.
pub open spec fn is_prefix(p: Seq<u8>, s: Seq<u8>) -> bool {
    &&& p.len() <= s.len()
    &&& forall|j: int| 0 <= j < p.len() ==> p[j] == s[j]
}

/// No byte string comes before itself.
pub proof fn lemma_lex_lt_irreflexive(a: Seq<u8>)
    ensures
        !lex_lt(a, a),
{
    if lex_lt(a, a) {
        let i = choose|i: int| #[trigger] parts_below_at(a, a, i);
        assert(parts_below_at(a, a, i));
    }
}

/// The order is transitive.
pub proof fn lemma_lex_lt_transitive(a: Seq<u8>, b: Seq<u8>, c: Seq<u8>)
    requires
        lex_lt(a, b),
        lex_lt(b, c),
    ensures
        lex_lt(a, c),
{
    let i = choose|i: int| #[trigger] parts_below_at(a, b, i);
    let k = choose|k: int| #[trigger] parts_below_at(b, c, k);
    let m = if i <= k { i } else { k };
    assert(parts_below_at(a, c, m));
}

/// Of two byte strings at most one comes before the other.
pub proof fn lemma_lex_lt_asymmetric(a: Seq<u8>, b: Seq<u8>)
    requires
        lex_lt(a, b),
    ensures
        !lex_lt(b, a),
{
    if lex_lt(b, a) {
        lemma_lex_lt_transitive(a, b, a);
        lemma_lex_lt_irreflexive(a);
    }
}

/// How one byte string stands to another in the lexicographic order.
#[derive(Clone, Copy, Debug)]
pub enum ByteOrder {
    Before,
    Same,
    After,
}

/// Compares two byte strings lexicographically.
pub fn compare_bytes(a: &[u8], b: &[u8]) -> (r: ByteOrder)
    ensures
        r is Before <==> lex_lt(a@, b@),
        r is Same <==> a@ == b@,
        r is After <==> lex_lt(b@, a@),
{
    let n: usize = if a.len() <= b.len() { a.len() } else { b.len() };
    let mut i: usize = 0;
    while i < n
        invariant
            i <= n,
            n <= a.len(),
            n <= b.len(),
            n == a.len() || n == b.len(),
            forall|j: int| 0 <= j < i ==> a@[j] == b@[j],
        decreases n - i,
    {
        if a[i] < b[i] {
            proof {
                assert(parts_below_at(a@, b@, i as int));
                lemma_lex_lt_asymmetric(a@, b@);
                lemma_lex_lt_irreflexive(a@);
            }
            return ByteOrder::Before;
        }
        if a[i] > b[i] {
            proof {
                assert(parts_below_at(b@, a@, i as int));
                lemma_lex_lt_asymmetric(b@, a@);
                lemma_lex_lt_irreflexive(a@);
            }
            return ByteOrder::After;
        }
        i += 1;
    }
    if a.len() < b.len() {
        proof {
            assert(parts_below_at(a@, b@, n as int));
            lemma_lex_lt_asymmetric(a@, b@);
            lemma_lex_lt_irreflexive(a@);
        }
        ByteOrder::Before
    } else if a.len() > b.len() {
        proof {
            assert(parts_below_at(b@, a@, n as int));
            lemma_lex_lt_asymmetric(b@, a@);
            lemma_lex_lt_irreflexive(a@);
        }
        ByteOrder::After
    } else {
        proof {
            assert(a@ =~= b@);
            lemma_lex_lt_irreflexive(a@);
        }
        ByteOrder::Same
    }
}

/// A prefix of a byte string is that string or comes before it.
pub proof fn lemma_prefix_not_after(p: Seq<u8>, s: Seq<u8>)
    requires
        is_prefix(p, s),
    ensures
        p == s || lex_lt(p, s),
{
    if p.len() == s.len() {
        assert(p =~= s);
    } else {
        assert(parts_below_at(p, s, p.len() as int));
    }
}

/// The byte strings that begin with `p` stand together in the order: what
/// lies between `p` and one of them begins with `p` too.
pub proof fn lemma_prefix_between(p: Seq<u8>, x: Seq<u8>, y: Seq<u8>)
    requires
        lex_lt(p, x),
        lex_lt(x, y),
        is_prefix(p, y),
    ensures
        is_prefix(p, x),
{
    let d = choose|d: int| #[trigger] parts_below_at(p, x, d);
    let e = choose|e: int| #[trigger] parts_below_at(x, y, e);
    if d < p.len() {
        assert(p[d] < x[d]);
        assert(p[d] == y[d]);
        if e < d {
            assert(x[e] == p[e]);
            assert(p[e] == y[e]);
        }
        assert(false);
    }
}

/// Whether `s` begins with `p`.
pub fn starts_with(s: &[u8], p: &[u8]) -> (b: bool)
    ensures
        b == is_prefix(p@, s@),
{
    if p.len() > s.len() {
        return false;
    }
    let mut i: usize = 0;
    while i < p.len()
        invariant
            i <= p.len() <= s.len(),
            forall|j: int| 0 <= j < i ==> p@[j] == s@[j],
        decreases p.len() - i,
    {
        if p[i] != s[i] {
            return false;
        }
        i += 1;
    }
    true
}

} // verus!
