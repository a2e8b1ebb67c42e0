//! Sets of trie paths: a form that is filled, and a frozen form that is read.

use vstd::prelude::*;
use crate::bytes::{
    is_prefix, lemma_lex_lt_asymmetric, lemma_lex_lt_irreflexive, lemma_prefix_between,
    lemma_prefix_not_after, lex_lt, starts_with,
};
use crate::nibbles::Nibbles;
use crate::sorted::{
    keys_of, lemma_set_of_push, search, set_of, sort_unique, strictly_sorted, ByteKey,
};

verus! {

/// A set of trie paths that is still being filled. The order of insertion
/// does not matter to what it holds, and a path put in twice is held once.
#[derive(Debug, Default)]
pub struct PrefixSetMut {
    keys: Vec<Nibbles>,
}

impl View for PrefixSetMut {
    type V = Set<Seq<u8>>;

    open spec fn view(&self) -> Set<Seq<u8>> {
        set_of(self.inserted())
    }
}

impl PrefixSetMut {
    /// The paths that were put in, in the order of insertion, with repeats.
    pub closed spec fn inserted(&self) -> Seq<Seq<u8>> {
        keys_of(self.keys@)
    }

    /// A set that holds nothing.
    pub fn new() -> (s: PrefixSetMut)
        ensures
            s.inserted() == Seq::<Seq<u8>>::empty(),
            s@ == Set::<Seq<u8>>::empty(),
    {
        let s = PrefixSetMut { keys: Vec::new() };
        assert(s.inserted() =~= Seq::<Seq<u8>>::empty());
        assert(s@ =~= Set::<Seq<u8>>::empty());
        s
    }

    /// Puts a path into the set.
    pub fn insert(&mut self, nibbles: Nibbles)
        ensures
            final(self).inserted() == old(self).inserted().push(nibbles@),
            final(self)@ == old(self)@.insert(nibbles@),
    {
        self.keys.push(nibbles);
        proof {
            assert(self.inserted() =~= old(self).inserted().push(nibbles@));
            lemma_set_of_push(old(self).inserted(), nibbles@);
        }
    }

    /// The number of insertions so far, repeats counted.
    pub fn len(&self) -> (n: usize)
        ensures
            n == self.inserted().len(),
    {
        self.keys.len()
    }

    /// Whether nothing was put in yet.
    pub fn is_empty(&self) -> (b: bool)
        ensures
            b == (self.inserted().len() == 0),
            b == (self@ == Set::<Seq<u8>>::empty()),
    {
        proof {
            if self.inserted().len() > 0 {
                assert(self.inserted()[0] == self.inserted()[0]);
                assert(self@.contains(self.inserted()[0]));
            } else {
                assert(self@ =~= Set::<Seq<u8>>::empty());
            }
        }
        self.keys.len() == 0
    }

    /// Turns the set into its frozen form, which holds the same paths, each
    /// once and in ascending order. There is no way back.
    pub fn freeze(self) -> (frozen: PrefixSet)
        ensures
            frozen.wf(),
            frozen@ == self@,
    {
        let keys = sort_unique(self.keys);
        PrefixSet { keys }
    }
}

/// A frozen set of trie paths: each path once, in ascending order.
#[derive(Debug, Default)]
pub struct PrefixSet {
    keys: Vec<Nibbles>,
}

impl View for PrefixSet {
    type V = Set<Seq<u8>>;

    open spec fn view(&self) -> Set<Seq<u8>> {
        set_of(self.paths())
    }
}

impl PrefixSet {
    /// The paths of the set in the order in which they are stored.
    pub closed spec fn paths(&self) -> Seq<Seq<u8>> {
        keys_of(self.keys@)
    }

    /// The paths are stored in strictly ascending order, so none occurs twice.
    pub open spec fn wf(&self) -> bool {
        strictly_sorted(self.paths())
    }

    /// The number of paths in the set.
    pub fn len(&self) -> (n: usize)
        ensures
            n == self.paths().len(),
    {
        self.keys.len()
    }

    /// Whether the set holds no path.
    pub fn is_empty(&self) -> (b: bool)
        ensures
            b == (self.paths().len() == 0),
            b == (self@ == Set::<Seq<u8>>::empty()),
    {
        proof {
            if self.paths().len() > 0 {
                assert(self.paths()[0] == self.paths()[0]);
                assert(self@.contains(self.paths()[0]));
            } else {
                assert(self@ =~= Set::<Seq<u8>>::empty());
            }
        }
        self.keys.len() == 0
    }

    /// The path at place `i` of the ascending order.
    pub fn get(&self, i: usize) -> (p: &Nibbles)
        requires
            i < self.paths().len(),
        ensures
            p@ == self.paths()[i as int],
    {
        &self.keys[i]
    }

    /// Whether a path of the set begins with `prefix`: whether the subtree
    /// below `prefix` holds a change.
    pub fn contains(&self, prefix: &Nibbles) -> (b: bool)
        requires
            self.wf(),
        ensures
            b == exists|i: int|
                0 <= i < self.paths().len() && is_prefix(prefix@, #[trigger] self.paths()[i]),
    {
        let ghost paths = self.paths();
        match search(&self.keys, prefix.as_slice()) {
            Ok(i) => {
                assert(is_prefix(prefix@, paths[i as int]));
                true
            },
            Err(i) => {
                let b = i < self.keys.len() && starts_with(
                    self.keys[i].as_slice(),
                    prefix.as_slice(),
                );
                proof {
                    if b {
                        assert(is_prefix(prefix@, paths[i as int]));
                    }
                    if exists|m: int|
                        0 <= m < paths.len() && is_prefix(prefix@, #[trigger] paths[m]) {
                        let m = choose|m: int|
                            0 <= m < paths.len() && is_prefix(prefix@, #[trigger] paths[m]);
                        lemma_prefix_not_after(prefix@, paths[m]);
                        if m < i {
                            assert(lex_lt(self.keys@[m].key(), prefix@));
                            lemma_lex_lt_irreflexive(prefix@);
                            if lex_lt(prefix@, paths[m]) {
                                lemma_lex_lt_asymmetric(prefix@, paths[m]);
                            }
                        } else if m > i {
                            assert(lex_lt(prefix@, self.keys@[i as int].key()));
                            assert(lex_lt(paths[i as int], paths[m]));
                            lemma_prefix_between(prefix@, paths[i as int], paths[m]);
                        }
                        assert(b);
                    }
                }
                b
            },
        }
    }

    /// Whether `path` is in the set.
    pub fn contains_path(&self, path: &Nibbles) -> (b: bool)
        requires
            self.wf(),
        ensures
            b == self@.contains(path@),
    {
        match search(&self.keys, path.as_slice()) {
            Ok(i) => {
                assert(self.paths()[i as int] == path@);
                true
            },
            Err(_) => false,
        }
    }
}

} // verus!
