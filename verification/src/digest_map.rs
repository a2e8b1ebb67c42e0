//! Maps keyed by a digest.

use vstd::prelude::*;
use crate::nibbles::Nibbles;
use crate::prefix_set::{PrefixSet, PrefixSetMut};
use crate::primitives::B256;
use crate::bytes::lex_lt;
use crate::sorted::{
    keys_of, lemma_sorted_no_duplicates, search, set_of, strictly_sorted, ByteKey,
};

verus! {

/// A place at which `k` stands in `ks`.
pub open spec fn index_of(ks: Seq<Seq<u8>>, k: Seq<u8>) -> int {
    choose|i: int| 0 <= i < ks.len() && #[trigger] ks[i] == k
}

/// A map from 256-bit digests to values, the digests stored once each and in
/// ascending order, every value beside its digest.
#[derive(Debug)]
pub struct B256Map<V> {
    keys: Vec<B256>,
    values: Vec<V>,
}

impl<V: View> View for B256Map<V> {
    type V = Map<Seq<u8>, V::V>;

    open spec fn view(&self) -> Map<Seq<u8>, V::V> {
        Map::new(
            |k: Seq<u8>| set_of(self.digests()).contains(k),
            |k: Seq<u8>| self.value_at(index_of(self.digests(), k))@,
        )
    }
}

impl<V: View> B256Map<V> {
    /// The digests of the map in the order in which they are stored.
    pub closed spec fn digests(&self) -> Seq<Seq<u8>> {
        keys_of(self.keys@)
    }

    /// The value stored beside the digest at place `i`.
    pub closed spec fn value_at(&self, i: int) -> V {
        self.values@[i]
    }

    /// The digests are stored in strictly ascending order, and each has its
    /// value.
    pub closed spec fn wf(&self) -> bool {
        &&& strictly_sorted(self.digests())
        &&& self.values@.len() == self.keys@.len()
    }

    /// In a well-formed map the digests ascend strictly.
    pub proof fn lemma_digests_sorted(&self)
        requires
            self.wf(),
        ensures
            strictly_sorted(self.digests()),
    {
    }

    /// The digest at place `i` is mapped to the value at place `i`.
    pub proof fn lemma_entry(&self, i: int)
        requires
            self.wf(),
            0 <= i < self.digests().len(),
        ensures
            self@.contains_key(self.digests()[i]),
            self@[self.digests()[i]] == self.value_at(i)@,
    {
        let ks = self.digests();
        lemma_sorted_no_duplicates(ks);
        assert(ks[i] == ks[i]);
        assert(set_of(ks).contains(ks[i]));
        assert(index_of(ks, ks[i]) == i);
    }

    /// A map that holds nothing.
    pub fn new() -> (m: B256Map<V>)
        ensures
            m.wf(),
            m.digests() == Seq::<Seq<u8>>::empty(),
            m@ == Map::<Seq<u8>, V::V>::empty(),
    {
        let m = B256Map { keys: Vec::new(), values: Vec::new() };
        assert(m.digests() =~= Seq::<Seq<u8>>::empty());
        assert(m@ =~= Map::<Seq<u8>, V::V>::empty());
        m
    }

    /// The number of digests that the map holds.
    pub fn len(&self) -> (n: usize)
        ensures
            n == self.digests().len(),
    {
        self.keys.len()
    }

    /// Whether the map holds nothing.
    pub fn is_empty(&self) -> (b: bool)
        ensures
            b == (self.digests().len() == 0),
            b == (self@ == Map::<Seq<u8>, V::V>::empty()),
    {
        proof {
            if self.digests().len() > 0 {
                assert(self.digests()[0] == self.digests()[0]);
                assert(self@.contains_key(self.digests()[0]));
            } else {
                assert(self@ =~= Map::<Seq<u8>, V::V>::empty());
            }
        }
        self.keys.len() == 0
    }

    /// The digest at place `i` of the ascending order.
    pub fn key_at(&self, i: usize) -> (d: &B256)
        requires
            i < self.digests().len(),
        ensures
            d@ == self.digests()[i as int],
    {
        &self.keys[i]
    }

    /// The value beside the digest at place `i` of the ascending order.
    pub fn value(&self, i: usize) -> (v: &V)
        requires
            self.wf(),
            i < self.digests().len(),
        ensures
            *v == self.value_at(i as int),
            v@ == self@[self.digests()[i as int]],
    {
        proof {
            self.lemma_entry(i as int);
        }
        &self.values[i]
    }

    /// The value that `digest` is mapped to, if it is mapped.
    pub fn get(&self, digest: &B256) -> (r: Option<&V>)
        requires
            self.wf(),
        ensures
            r is Some <==> self@.contains_key(digest@),
            r matches Some(v) ==> v@ == self@[digest@],
    {
        match search(&self.keys, digest.as_slice()) {
            Ok(i) => {
                proof {
                    assert(self.digests()[i as int] == digest@);
                    self.lemma_entry(i as int);
                }
                Some(&self.values[i])
            },
            Err(_) => None,
        }
    }
}

/// Every set of the map is well formed and holds a path: an account is only
/// mapped once a slot of it was seen.
pub open spec fn storage_sets_wf(m: &B256Map<PrefixSet>) -> bool {
    forall|i: int|
        0 <= i < m.digests().len() ==> (#[trigger] m.value_at(i)).wf() && m.value_at(i)@
            != Set::<Seq<u8>>::empty()
}

impl B256Map<PrefixSetMut> {
    /// Every set of the map holds a path.
    pub closed spec fn sets_filled(&self) -> bool {
        forall|i: int|
            0 <= i < self.values@.len() ==> (#[trigger] self.values@[i])@ != Set::<
                Seq<u8>,
            >::empty()
    }

    /// A map without digests has no set that could be empty.
    pub proof fn lemma_empty_is_filled(&self)
        requires
            self.wf(),
            self.digests().len() == 0,
        ensures
            self.sets_filled(),
    {
    }

    /// Puts `path` into the set of `account`, which is made first if the
    /// account has none yet.
    pub fn insert_path(&mut self, account: B256, path: Nibbles)
        requires
            old(self).wf(),
            old(self).sets_filled(),
        ensures
            final(self).wf(),
            final(self).sets_filled(),
            final(self)@ == old(self)@.insert(
                account@,
                (if old(self)@.contains_key(account@) {
                    old(self)@[account@]
                } else {
                    Set::<Seq<u8>>::empty()
                }).insert(path@),
            ),
    {
        let ghost before = *self;
        let ghost kb = self.digests();
        proof {
            lemma_sorted_no_duplicates(kb);
        }
        match search(&self.keys, account.as_slice()) {
            Ok(i) => {
                proof {
                    before.lemma_entry(i as int);
                }
                self.values[i].insert(path);
                proof {
                    assert(self.digests() == kb);
                    assert(self.values@[i as int]@.contains(path@));
                    let target = before@.insert(account@, before@[account@].insert(path@));
                    assert forall|k: Seq<u8>| #[trigger] self@.contains_key(k) implies self@[k]
                        == target[k] by {
                        let j = index_of(kb, k);
                        assert(self.value_at(j) == self.values@[j]);
                        assert(before.value_at(j) == before.values@[j]);
                    }
                    assert(self@ =~= target);
                }
            },
            Err(i) => {
                let mut fresh = PrefixSetMut::new();
                fresh.insert(path);
                assert(fresh@.contains(path@));
                self.keys.insert(i, account);
                self.values.insert(i, fresh);
                proof {
                    let ka = self.digests();
                    assert forall|p: int, q: int| 0 <= p < q < ka.len() implies lex_lt(
                        #[trigger] ka[p],
                        #[trigger] ka[q],
                    ) by {
                        let pp = if p < i { p } else { p - 1 };
                        let qq = if q < i { q } else { q - 1 };
                        if p == i {
                            assert(ka[q] == before.keys@[qq].key());
                        } else if q == i {
                            assert(ka[p] == before.keys@[pp].key());
                        } else {
                            assert(ka[p] == kb[pp]);
                            assert(ka[q] == kb[qq]);
                            assert(lex_lt(kb[pp], kb[qq]));
                        }
                    }
                    lemma_sorted_no_duplicates(ka);
                    let target = before@.insert(
                        account@,
                        Set::<Seq<u8>>::empty().insert(path@),
                    );
                    assert forall|k: Seq<u8>| self@.contains_key(k) == target.contains_key(k) by {
                        if set_of(ka).contains(k) {
                            let p = choose|p: int| 0 <= p < ka.len() && #[trigger] ka[p] == k;
                            if p != i {
                                let pp = if p < i { p } else { p - 1 };
                                assert(kb[pp] == k);
                            }
                        }
                        if set_of(kb).contains(k) {
                            let p = choose|p: int| 0 <= p < kb.len() && #[trigger] kb[p] == k;
                            let pp = if p < i { p } else { p + 1 };
                            assert(ka[pp] == k);
                        }
                        if k == account@ {
                            assert(ka[i as int] == k);
                        }
                    }
                    assert forall|k: Seq<u8>| #[trigger] self@.contains_key(k) implies self@[k]
                        == target[k] by {
                        let j = index_of(ka, k);
                        assert(self.value_at(j) == self.values@[j]);
                        if j == i {
                            assert(fresh@ =~= Set::<Seq<u8>>::empty().insert(path@));
                        } else {
                            let jj = if j < i { j } else { j - 1 };
                            assert(kb[jj] == k);
                            before.lemma_entry(jj);
                            assert(before.value_at(jj) == before.values@[jj]);
                        }
                    }
                    assert(self@ =~= target);
                    assert forall|j: int| 0 <= j < self.values@.len() implies (
                    #[trigger] self.values@[j])@ != Set::<Seq<u8>>::empty() by {
                        if j != i {
                            let jj = if j < i { j } else { j - 1 };
                            assert(self.values@[j] == before.values@[jj]);
                        }
                    }
                }
            },
        }
    }

    /// Freezes every set of the map. The frozen map has the digests of this
    /// one, and beside each the frozen form of its set.
    pub fn freeze(self) -> (frozen: B256Map<PrefixSet>)
        requires
            self.wf(),
            self.sets_filled(),
        ensures
            frozen.wf(),
            storage_sets_wf(&frozen),
            frozen.digests() == self.digests(),
            frozen@ == self@,
    {
        let ghost orig = self.values@;
        let ghost n = orig.len() as int;
        let keys = self.keys;
        let mut values = self.values;
        let mut reversed: Vec<PrefixSet> = Vec::new();
        while values.len() > 0
            invariant
                values@.len() <= n,
                n == orig.len(),
                forall|j: int| 0 <= j < values@.len() ==> values@[j] == orig[j],
                reversed@.len() == n - values@.len(),
                forall|j: int|
                    0 <= j < reversed@.len() ==> (#[trigger] reversed@[j]).wf() && reversed@[j]@
                        == orig[n - 1 - j]@,
            decreases values.len(),
        {
            let set = values.pop().unwrap();
            reversed.push(set.freeze());
        }
        let ghost turned = reversed@;
        let mut sets: Vec<PrefixSet> = Vec::new();
        while reversed.len() > 0
            invariant
                reversed@.len() <= n,
                turned.len() == n,
                forall|j: int| 0 <= j < reversed@.len() ==> reversed@[j] == turned[j],
                sets@.len() == n - reversed@.len(),
                forall|j: int| 0 <= j < sets@.len() ==> #[trigger] sets@[j] == turned[n - 1 - j],
            decreases reversed.len(),
        {
            let set = reversed.pop().unwrap();
            sets.push(set);
        }
        let frozen = B256Map { keys, values: sets };
        proof {
            assert forall|i: int| 0 <= i < frozen.digests().len() implies (
            #[trigger] frozen.value_at(i)).wf() && frozen.value_at(i)@ != Set::<
                Seq<u8>,
            >::empty() by {
                assert(sets@[i] == turned[n - 1 - i]);
                assert(turned[n - 1 - i]@ == orig[i]@);
            }
            assert forall|k: Seq<u8>| #[trigger] frozen@.contains_key(k) implies frozen@[k]
                == self@[k] by {
                let j = index_of(self.digests(), k);
                assert(sets@[j] == turned[n - 1 - j]);
                assert(turned[n - 1 - j]@ == orig[j]@);
            }
            assert(frozen@ =~= self@);
        }
        frozen
    }
}

} // verus!
