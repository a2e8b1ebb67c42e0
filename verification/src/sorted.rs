//! Vectors kept strictly sorted by a byte-string key.
//!
//! A strictly sorted vector holds no key twice, and its order is fixed by the
//! set of its keys alone: two such vectors with the same keys are the same
//! sequence. The frozen sets of this crate are stored that way.

use vstd::prelude::*;
use crate::bytes::{compare_bytes, lemma_lex_lt_asymmetric, lemma_lex_lt_irreflexive, lemma_lex_lt_transitive, lex_lt, ByteOrder};

verus! {

/// A value that is ordered and found again by a byte string.
pub trait ByteKey {
    /// The byte string that stands for the value.
    spec fn key(&self) -> Seq<u8>;

    /// The bytes of the key.
    fn key_bytes(&self) -> (r: &[u8])
        ensures
            r@ == self.key(),
    ;
}

/// The keys of a sequence of values, in the order of the values.
pub open spec fn keys_of<T: ByteKey>(s: Seq<T>) -> Seq<Seq<u8>> {
    Seq::new(s.len(), |i: int| s[i].key())
}

/// The set of byte strings that occur in `ks`.
pub open spec fn set_of(ks: Seq<Seq<u8>>) -> Set<Seq<u8>> {
    Set::new(|k: Seq<u8>| exists|i: int| 0 <= i < ks.len() && #[trigger] ks[i] == k)
}

/// Every byte string of `ks` comes before each one behind it.
pub open spec fn strictly_sorted(ks: Seq<Seq<u8>>) -> bool {
    forall|i: int, j: int| 0 <= i < j < ks.len() ==> lex_lt(#[trigger] ks[i], #[trigger] ks[j])
}

/// A strictly sorted sequence holds each of its members once.
pub proof fn lemma_sorted_no_duplicates(ks: Seq<Seq<u8>>)
    requires
        strictly_sorted(ks),
    ensures
        forall|i: int, j: int|
            0 <= i < ks.len() && 0 <= j < ks.len() && #[trigger] ks[i] == #[trigger] ks[j] ==> i
                == j,
{
    assert forall|i: int, j: int|
        0 <= i < ks.len() && 0 <= j < ks.len() && #[trigger] ks[i] == #[trigger] ks[j] implies i
        == j by {
        lemma_lex_lt_irreflexive(ks[i]);
        if i < j {
            assert(lex_lt(ks[i], ks[j]));
        } else if j < i {
            assert(lex_lt(ks[j], ks[i]));
        }
    }
}

/// Two strictly sorted sequences with the same members are equal: the order of
/// a frozen set does not depend on the order in which it was filled.
pub proof fn lemma_sorted_determined_by_set(a: Seq<Seq<u8>>, b: Seq<Seq<u8>>)
    requires
        strictly_sorted(a),
        strictly_sorted(b),
        set_of(a) == set_of(b),
    ensures
        a == b,
    decreases a.len(),
{
    if a.len() == 0 {
        if b.len() > 0 {
            assert(b[0] == b[0]);
            assert(set_of(b).contains(b[0]));
            assert(set_of(a).contains(b[0]));
        }
        assert(a =~= b);
    } else {
        let x = a.last();
        assert(a[a.len() - 1] == x);
        assert(set_of(a).contains(x));
        assert(set_of(b).contains(x));
        let jb = choose|j: int| 0 <= j < b.len() && #[trigger] b[j] == x;
        let y = b.last();
        assert(b[b.len() - 1] == y);
        assert(set_of(b).contains(y));
        assert(set_of(a).contains(y));
        let ja = choose|j: int| 0 <= j < a.len() && #[trigger] a[j] == y;
        // x and y are the greatest members of one set
        assert(x == y) by {
            if jb < b.len() - 1 {
                assert(lex_lt(b[jb], b[b.len() - 1]));
                if ja < a.len() - 1 {
                    assert(lex_lt(a[ja], a[a.len() - 1]));
                    lemma_lex_lt_asymmetric(x, y);
                }
            }
        }
        let a0 = a.drop_last();
        let b0 = b.drop_last();
        lemma_sorted_no_duplicates(a);
        lemma_sorted_no_duplicates(b);
        assert forall|k: Seq<u8>| set_of(a0).contains(k) == set_of(b0).contains(k) by {
            if set_of(a0).contains(k) {
                let i = choose|i: int| 0 <= i < a0.len() && #[trigger] a0[i] == k;
                assert(a[i] == k);
                assert(set_of(a).contains(k));
                let j = choose|j: int| 0 <= j < b.len() && #[trigger] b[j] == k;
                if j == b.len() - 1 {
                    assert(a[i] == a[a.len() - 1]);
                }
                assert(b0[j] == k);
            }
            if set_of(b0).contains(k) {
                let i = choose|i: int| 0 <= i < b0.len() && #[trigger] b0[i] == k;
                assert(b[i] == k);
                assert(set_of(b).contains(k));
                let j = choose|j: int| 0 <= j < a.len() && #[trigger] a[j] == k;
                if j == a.len() - 1 {
                    assert(b[i] == b[b.len() - 1]);
                }
                assert(a0[j] == k);
            }
        }
        assert(set_of(a0) =~= set_of(b0));
        assert(strictly_sorted(a0)) by {
            assert forall|i: int, j: int| 0 <= i < j < a0.len() implies lex_lt(
                #[trigger] a0[i],
                #[trigger] a0[j],
            ) by {
                assert(lex_lt(a[i], a[j]));
            }
        }
        assert(strictly_sorted(b0)) by {
            assert forall|i: int, j: int| 0 <= i < j < b0.len() implies lex_lt(
                #[trigger] b0[i],
                #[trigger] b0[j],
            ) by {
                assert(lex_lt(b[i], b[j]));
            }
        }
        lemma_sorted_determined_by_set(a0, b0);
        assert(a =~= a0.push(x));
        assert(b =~= b0.push(y));
    }
}

/// Where `k` stands in a strictly sorted vector: `Ok` with its index if it is
/// there, `Err` with the index at which it would have to be put if it is not.
pub fn search<T: ByteKey>(v: &Vec<T>, k: &[u8]) -> (r: Result<usize, usize>)
    requires
        strictly_sorted(keys_of(v@)),
    ensures
        match r {
            Ok(i) => i < v.len() && v@[i as int].key() == k@,
            Err(i) => {
                &&& i <= v.len()
                &&& !set_of(keys_of(v@)).contains(k@)
                &&& forall|j: int| 0 <= j < i ==> lex_lt(#[trigger] v@[j].key(), k@)
                &&& forall|j: int| i <= j < v.len() ==> lex_lt(k@, #[trigger] v@[j].key())
            },
        },
{
    let ghost ks = keys_of(v@);
    let mut lo: usize = 0;
    let mut hi: usize = v.len();
    while lo < hi
        invariant
            lo <= hi <= v.len(),
            ks == keys_of(v@),
            strictly_sorted(ks),
            forall|j: int| 0 <= j < lo ==> lex_lt(#[trigger] v@[j].key(), k@),
            forall|j: int| hi <= j < v.len() ==> lex_lt(k@, #[trigger] v@[j].key()),
        decreases hi - lo,
    {
        let mid: usize = lo + (hi - lo) / 2;
        match compare_bytes(v[mid].key_bytes(), k) {
            ByteOrder::Same => {
                return Ok(mid);
            },
            ByteOrder::Before => {
                proof {
                    assert forall|j: int| 0 <= j < mid + 1 implies lex_lt(
                        #[trigger] v@[j].key(),
                        k@,
                    ) by {
                        if j < mid {
                            assert(lex_lt(ks[j], ks[mid as int]));
                            lemma_lex_lt_transitive(v@[j].key(), v@[mid as int].key(), k@);
                        }
                    }
                }
                lo = mid + 1;
            },
            ByteOrder::After => {
                proof {
                    assert forall|j: int| mid <= j < v.len() implies lex_lt(
                        k@,
                        #[trigger] v@[j].key(),
                    ) by {
                        if mid < j {
                            assert(lex_lt(ks[mid as int], ks[j]));
                            lemma_lex_lt_transitive(k@, v@[mid as int].key(), v@[j].key());
                        }
                    }
                }
                hi = mid;
            },
        }
    }
    proof {
        if set_of(ks).contains(k@) {
            let j = choose|j: int| 0 <= j < ks.len() && #[trigger] ks[j] == k@;
            lemma_lex_lt_irreflexive(k@);
            if j < lo {
                assert(lex_lt(v@[j].key(), k@));
            } else {
                assert(lex_lt(k@, v@[j].key()));
            }
        }
    }
    Err(lo)
}

/// Puts `x` into a strictly sorted vector unless its key is there already, and
/// says whether it was put in.
pub fn insert_unique<T: ByteKey>(v: &mut Vec<T>, x: T) -> (added: bool)
    requires
        strictly_sorted(keys_of(old(v)@)),
    ensures
        strictly_sorted(keys_of(final(v)@)),
        set_of(keys_of(final(v)@)) == set_of(keys_of(old(v)@)).insert(x.key()),
        added == !set_of(keys_of(old(v)@)).contains(x.key()),
        !added ==> final(v)@ == old(v)@,
{
    let ghost before = v@;
    let ghost kb = keys_of(before);
    let r = search(v, x.key_bytes());
    match r {
        Ok(i) => {
            proof {
                assert(kb[i as int] == x.key());
                assert(set_of(kb).contains(x.key()));
                assert(set_of(kb).insert(x.key()) =~= set_of(kb));
            }
            false
        },
        Err(i) => {
            v.insert(i, x);
            proof {
                let ka = keys_of(v@);
                assert(v@ == before.insert(i as int, x));
                assert forall|p: int, q: int| 0 <= p < q < ka.len() implies lex_lt(
                    #[trigger] ka[p],
                    #[trigger] ka[q],
                ) by {
                    let pp = if p < i { p } else { p - 1 };
                    let qq = if q < i { q } else { q - 1 };
                    if p == i {
                        assert(ka[q] == before[qq].key());
                    } else if q == i {
                        assert(ka[p] == before[pp].key());
                    } else {
                        assert(ka[p] == kb[pp]);
                        assert(ka[q] == kb[qq]);
                        assert(lex_lt(kb[pp], kb[qq]));
                    }
                }
                assert forall|k: Seq<u8>| set_of(ka).contains(k) == set_of(kb).insert(
                    x.key(),
                ).contains(k) by {
                    if set_of(ka).contains(k) {
                        let p = choose|p: int| 0 <= p < ka.len() && #[trigger] ka[p] == k;
                        if p != i {
                            let pp = if p < i { p } else { p - 1 };
                            assert(kb[pp] == k);
                        }
                    }
                    if set_of(kb).contains(k) {
                        let p = choose|p: int| 0 <= p < kb.len() && #[trigger] kb[p] == k;
                        let pp = if p < i { p } else { p + 1 };
                        assert(ka[pp] == k);
                    }
                    if k == x.key() {
                        assert(ka[i as int] == k);
                    }
                }
                assert(set_of(ka) =~= set_of(kb).insert(x.key()));
            }
            true
        },
    }
}

/// `a` with `x` put behind it holds the members of `a`, and `x`.
pub proof fn lemma_set_of_push(a: Seq<Seq<u8>>, x: Seq<u8>)
    ensures
        set_of(a.push(x)) == set_of(a).insert(x),
{
    let b = a.push(x);
    assert forall|k: Seq<u8>| set_of(b).contains(k) == set_of(a).insert(x).contains(k) by {
        if set_of(b).contains(k) {
            let i = choose|i: int| 0 <= i < b.len() && #[trigger] b[i] == k;
            if i < a.len() {
                assert(a[i] == k);
            }
        }
        if set_of(a).contains(k) {
            let i = choose|i: int| 0 <= i < a.len() && #[trigger] a[i] == k;
            assert(b[i] == k);
        }
        if k == x {
            assert(b[a.len() as int] == k);
        }
    }
    assert(set_of(b) =~= set_of(a).insert(x));
}


/// One sequence behind another holds the members of both.
proof fn lemma_set_of_concat(a: Seq<Seq<u8>>, b: Seq<Seq<u8>>)
    ensures
        set_of(a + b) == set_of(a).union(set_of(b)),
{
    let c = a + b;
    assert forall|k: Seq<u8>| set_of(c).contains(k) == set_of(a).union(set_of(b)).contains(k) by {
        if set_of(c).contains(k) {
            let i = choose|i: int| 0 <= i < c.len() && #[trigger] c[i] == k;
            if i < a.len() {
                assert(a[i] == k);
            } else {
                assert(b[i - a.len()] == k);
            }
        }
        if set_of(a).contains(k) {
            let i = choose|i: int| 0 <= i < a.len() && #[trigger] a[i] == k;
            assert(c[i] == k);
        }
        if set_of(b).contains(k) {
            let i = choose|i: int| 0 <= i < b.len() && #[trigger] b[i] == k;
            assert(c[a.len() + i] == k);
        }
    }
    assert(set_of(c) =~= set_of(a).union(set_of(b)));
}

/// The sequence without members has no member.
proof fn lemma_set_of_empty(a: Seq<Seq<u8>>)
    requires
        a.len() == 0,
    ensures
        set_of(a) == Set::<Seq<u8>>::empty(),
{
    assert(set_of(a) =~= Set::<Seq<u8>>::empty());
}

/// Every byte string of `ks` comes after each one behind it.
spec fn strictly_descending(ks: Seq<Seq<u8>>) -> bool {
    forall|i: int, j: int| 0 <= i < j < ks.len() ==> lex_lt(#[trigger] ks[j], #[trigger] ks[i])
}

/// Every member of the first `n` of `ks` comes before `x`.
spec fn all_before(ks: Seq<Seq<u8>>, n: int, x: Seq<u8>) -> bool {
    forall|j: int| 0 <= j < n ==> lex_lt(#[trigger] ks[j], x)
}

/// Merges two strictly sorted vectors into one that holds the keys of both,
/// each once.
pub fn merge_unique<T: ByteKey>(a: Vec<T>, b: Vec<T>) -> (out: Vec<T>)
    requires
        strictly_sorted(keys_of(a@)),
        strictly_sorted(keys_of(b@)),
    ensures
        strictly_sorted(keys_of(out@)),
        set_of(keys_of(out@)) == set_of(keys_of(a@)).union(set_of(keys_of(b@))),
{
    let ghost a0 = keys_of(a@);
    let ghost b0 = keys_of(b@);
    let mut a = a;
    let mut b = b;
    // the greatest keys first
    let mut rev: Vec<T> = Vec::new();
    proof {
        lemma_set_of_empty(keys_of(rev@));
        assert(set_of(a0).union(set_of(b0)).union(Set::<Seq<u8>>::empty()) =~= set_of(a0).union(
            set_of(b0),
        ));
    }
    while a.len() > 0 || b.len() > 0
        invariant
            strictly_sorted(a0),
            strictly_sorted(b0),
            a@.len() <= a0.len(),
            b@.len() <= b0.len(),
            keys_of(a@) == a0.take(a@.len() as int),
            keys_of(b@) == b0.take(b@.len() as int),
            strictly_descending(keys_of(rev@)),
            rev@.len() > 0 ==> all_before(a0, a@.len() as int, keys_of(rev@).last()),
            rev@.len() > 0 ==> all_before(b0, b@.len() as int, keys_of(rev@).last()),
            set_of(keys_of(a@)).union(set_of(keys_of(b@))).union(set_of(keys_of(rev@))) == set_of(
                a0,
            ).union(set_of(b0)),
        decreases a@.len() + b@.len(),
    {
        let ghost ka = keys_of(a@);
        let ghost kb = keys_of(b@);
        let ghost kr = keys_of(rev@);
        let ghost na = a@.len() as int;
        let ghost nb = b@.len() as int;
        let from_a: bool;
        let from_b: bool;
        if a.len() == 0 {
            from_a = false;
            from_b = true;
        } else if b.len() == 0 {
            from_a = true;
            from_b = false;
        } else {
            proof {
                assert(ka[na - 1] == a0[na - 1]);
                assert(kb[nb - 1] == b0[nb - 1]);
            }
            match compare_bytes(a[a.len() - 1].key_bytes(), b[b.len() - 1].key_bytes()) {
                ByteOrder::After => {
                    from_a = true;
                    from_b = false;
                },
                ByteOrder::Before => {
                    from_a = false;
                    from_b = true;
                },
                ByteOrder::Same => {
                    from_a = true;
                    from_b = true;
                },
            }
        }
        // the greatest key that is left
        let ghost x = if from_a { a0[na - 1] } else { b0[nb - 1] };
        proof {
            if na > 0 {
                assert(ka[na - 1] == a0[na - 1]);
            }
            if nb > 0 {
                assert(kb[nb - 1] == b0[nb - 1]);
            }
            assert forall|j: int| 0 <= j < na && !(from_a && j == na - 1) implies lex_lt(
                #[trigger] a0[j],
                x,
            ) by {
                if from_a {
                    assert(lex_lt(a0[j], a0[na - 1]));
                } else if j < na - 1 {
                    // x is the last of b, and the last of a comes before it
                    assert(lex_lt(a0[j], a0[na - 1]));
                    lemma_lex_lt_transitive(a0[j], a0[na - 1], x);
                }
            }
            assert forall|j: int| 0 <= j < nb && !(from_b && j == nb - 1) implies lex_lt(
                #[trigger] b0[j],
                x,
            ) by {
                if from_b {
                    assert(lex_lt(b0[j], b0[nb - 1]));
                } else if j < nb - 1 {
                    // x is the last of a, and the last of b comes before it
                    assert(lex_lt(b0[j], b0[nb - 1]));
                    lemma_lex_lt_transitive(b0[j], b0[nb - 1], x);
                }
            }
            if kr.len() > 0 {
                if from_a {
                    assert(lex_lt(a0[na - 1], kr.last()));
                } else {
                    assert(lex_lt(b0[nb - 1], kr.last()));
                }
            }
        }
        if from_a && from_b {
            b.pop();
            let item = a.pop().unwrap();
            rev.push(item);
        } else if from_a {
            let item = a.pop().unwrap();
            rev.push(item);
        } else {
            let item = b.pop().unwrap();
            rev.push(item);
        }
        proof {
            let ka2 = keys_of(a@);
            let kb2 = keys_of(b@);
            let kr2 = keys_of(rev@);
            assert(kr2 =~= kr.push(x));
            lemma_set_of_push(kr, x);
            assert(ka2 =~= a0.take(a@.len() as int));
            assert(kb2 =~= b0.take(b@.len() as int));
            if from_a {
                assert(ka =~= ka2.push(x));
                lemma_set_of_push(ka2, x);
            } else {
                assert(ka2 =~= ka);
            }
            if from_b {
                assert(kb =~= kb2.push(x));
                lemma_set_of_push(kb2, x);
            } else {
                assert(kb2 =~= kb);
            }
            assert(set_of(ka2).union(set_of(kb2)).union(set_of(kr2)) =~= set_of(ka).union(
                set_of(kb),
            ).union(set_of(kr)));
            assert forall|i: int, j: int| 0 <= i < j < kr2.len() implies lex_lt(
                #[trigger] kr2[j],
                #[trigger] kr2[i],
            ) by {
                if j == kr.len() {
                    if i < kr.len() - 1 {
                        assert(lex_lt(kr[kr.len() - 1], kr[i]));
                        lemma_lex_lt_transitive(x, kr.last(), kr[i]);
                    }
                } else {
                    assert(lex_lt(kr[j], kr[i]));
                }
            }
            assert(kr2.last() == x);
        }
    }
    let ghost krf = keys_of(rev@);
    let ghost n = krf.len() as int;
    proof {
        lemma_set_of_empty(keys_of(a@));
        lemma_set_of_empty(keys_of(b@));
        assert(set_of(a0).union(set_of(b0)) =~= set_of(krf));
    }
    let mut out: Vec<T> = Vec::new();
    while rev.len() > 0
        invariant
            n == krf.len(),
            rev@.len() <= n,
            forall|j: int| 0 <= j < rev@.len() ==> (#[trigger] rev@[j]).key() == krf[j],
            out@.len() == n - rev@.len(),
            forall|i: int| 0 <= i < out@.len() ==> (#[trigger] out@[i]).key() == krf[n - 1 - i],
        decreases rev@.len(),
    {
        let item = rev.pop().unwrap();
        out.push(item);
    }
    proof {
        let ko = keys_of(out@);
        assert forall|i: int, j: int| 0 <= i < j < ko.len() implies lex_lt(
            #[trigger] ko[i],
            #[trigger] ko[j],
        ) by {
            assert(ko[i] == krf[n - 1 - i]);
            assert(ko[j] == krf[n - 1 - j]);
            assert(lex_lt(krf[n - 1 - i], krf[n - 1 - j]));
        }
        assert forall|k: Seq<u8>| set_of(ko).contains(k) == set_of(krf).contains(k) by {
            if set_of(ko).contains(k) {
                let i = choose|i: int| 0 <= i < ko.len() && #[trigger] ko[i] == k;
                assert(krf[n - 1 - i] == k);
            }
            if set_of(krf).contains(k) {
                let i = choose|i: int| 0 <= i < krf.len() && #[trigger] krf[i] == k;
                assert(ko[n - 1 - i] == k);
            }
        }
        assert(set_of(ko) =~= set_of(krf));
    }
    out
}

/// Sorts a vector by its keys and keeps one value of each key: the result
/// ascends strictly and holds the keys of `v`.
pub fn sort_unique<T: ByteKey>(v: Vec<T>) -> (out: Vec<T>)
    ensures
        strictly_sorted(keys_of(out@)),
        set_of(keys_of(out@)) == set_of(keys_of(v@)),
    decreases v@.len(),
{
    let ghost all = keys_of(v@);
    let mut left = v;
    if left.len() <= 1 {
        return left;
    }
    let mid: usize = left.len() / 2;
    let right = left.split_off(mid);
    proof {
        assert(all =~= keys_of(left@) + keys_of(right@));
        lemma_set_of_concat(keys_of(left@), keys_of(right@));
    }
    let a = sort_unique(left);
    let b = sort_unique(right);
    merge_unique(a, b)
}

} // verus!
