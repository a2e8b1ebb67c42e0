//! Trie paths: byte strings taken apart into half-bytes.

use vstd::prelude::*;
use crate::sorted::ByteKey;

verus! {

/// The nibbles of `bytes`: of each byte first the high half, then the low one.
pub open spec fn unpack_spec(bytes: Seq<u8>) -> Seq<u8> {
    Seq::new(
        2 * bytes.len(),
        |i: int|
            if i % 2 == 0 {
                (bytes[i / 2] / 16) as u8
            } else {
                (bytes[i / 2] % 16) as u8
            },
    )
}

/// Every member of `s` is a nibble, a value below 16.
pub open spec fn all_nibbles(s: Seq<u8>) -> bool {
    forall|i: int| 0 <= i < s.len() ==> #[trigger] s[i] < 16
}

/// A path into the trie, one nibble per step.
#[derive(Clone, Debug, PartialEq, Eq)]
pub struct Nibbles {
    nibbles: Vec<u8>,
}

impl View for Nibbles {
    type V = Seq<u8>;

    closed spec fn view(&self) -> Seq<u8> {
        self.nibbles@
    }
}

impl ByteKey for Nibbles {
    open spec fn key(&self) -> Seq<u8> {
        self@
    }

    fn key_bytes(&self) -> (r: &[u8]) {
        self.nibbles.as_slice()
    }
}

impl Nibbles {
    /// The path that `data` spells out, two nibbles for each byte.
    pub fn unpack(data: &[u8]) -> (r: Nibbles)
        ensures
            r@ == unpack_spec(data@),
            all_nibbles(r@),
    {
        let mut nibbles: Vec<u8> = Vec::new();
        let mut i: usize = 0;
        while i < data.len()
            invariant
                i <= data.len(),
                nibbles@.len() == 2 * i,
                forall|j: int| 0 <= j < 2 * i ==> #[trigger] nibbles@[j] == unpack_spec(data@)[j],
            decreases data.len() - i,
        {
            let b: u8 = data[i];
            nibbles.push(b / 16);
            nibbles.push(b % 16);
            i += 1;
        }
        assert(nibbles@ =~= unpack_spec(data@));
        Nibbles { nibbles }
    }

    /// The path with the given nibbles, or `None` where one of them is no
    /// nibble: a value of 16 or more.
    pub fn from_nibbles(nibbles: Vec<u8>) -> (r: Option<Nibbles>)
        ensures
            r is Some <==> all_nibbles(nibbles@),
            r matches Some(path) ==> path@ == nibbles@,
    {
        let mut i: usize = 0;
        while i < nibbles.len()
            invariant
                i <= nibbles@.len(),
                forall|j: int| 0 <= j < i ==> #[trigger] nibbles@[j] < 16,
            decreases nibbles@.len() - i,
        {
            if nibbles[i] >= 16 {
                return None;
            }
            i += 1;
        }
        Some(Nibbles { nibbles })
    }

    /// The number of nibbles in the path.
    pub fn len(&self) -> (n: usize)
        ensures
            n == self@.len(),
    {
        self.nibbles.len()
    }

    /// The nibbles of the path, one per byte.
    pub fn as_slice(&self) -> (s: &[u8])
        ensures
            s@ == self@,
    {
        self.nibbles.as_slice()
    }
}

} // verus!
