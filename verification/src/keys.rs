use vstd::prelude::*;

verus! {

/// A fixed-width 256-bit identity key, held as four 64-bit words with `w0`
/// most significant. Keys are compared lexicographically, word by word, which
/// gives the deterministic entry order the codec depends on.
#[derive(Clone, Copy, Debug, PartialEq, Eq, Structural, Hash)]
pub struct Key {
    pub w0: u64,
    pub w1: u64,
    pub w2: u64,
    pub w3: u64,
}

/// The strict lexicographic order on keys, most significant word first.
pub open spec fn key_lt(a: Key, b: Key) -> bool {
    a.w0 < b.w0 || (a.w0 == b.w0 && (a.w1 < b.w1 || (a.w1 == b.w1 && (a.w2 < b.w2 || (a.w2
        == b.w2 && a.w3 < b.w3)))))
}

impl Key {
    /// Decides the strict key order `key_lt`.
    pub fn less_than(&self, other: &Key) -> (r: bool)
        ensures
            r == key_lt(*self, *other),
    {
        self.w0 < other.w0 || (self.w0 == other.w0 && (self.w1 < other.w1 || (self.w1 == other.w1
            && (self.w2 < other.w2 || (self.w2 == other.w2 && self.w3 < other.w3)))))
    }
}

/// `key_lt` is a strict total order: exactly one of `a < b`, `b < a`, `a == b`
/// holds, and the order is transitive.
pub proof fn lemma_key_order(a: Key, b: Key, c: Key)
    ensures
        key_lt(a, b) || key_lt(b, a) || a == b,
        key_lt(a, b) ==> !key_lt(b, a) && a != b,
        key_lt(a, b) && key_lt(b, c) ==> key_lt(a, c),
{
}

} // verus!
