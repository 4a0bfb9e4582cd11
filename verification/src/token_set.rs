//! Sets of kinds, as bits of one word.

use vstd::prelude::*;
use crate::syntax_kind::{lemma_index_injective, SyntaxKind};

verus! {

/// A set of syntax kinds, held as one bit per kind.
#[derive(Clone, Copy, Debug)]
pub struct TokenSet {
    mask: u64,
}

spec fn bit(k: SyntaxKind) -> u64 {
    1u64 << (k.spec_index() as u64)
}

proof fn lemma_bits(m: u64, n: u64, a: u64, b: u64)
    requires
        a < 64,
        b < 64,
    ensures
        0u64 & (1u64 << b) == 0,
        ((m | (1u64 << a)) & (1u64 << b) != 0) == ((m & (1u64 << b) != 0) || a == b),
        ((m | n) & (1u64 << b) != 0) == ((m & (1u64 << b) != 0) || (n & (1u64 << b) != 0)),
{
    assert(0u64 & (1u64 << b) == 0) by (bit_vector);
    assert(((m | (1u64 << a)) & (1u64 << b) != 0) == ((m & (1u64 << b) != 0) || a == b))
        by (bit_vector)
        requires
            a < 64,
            b < 64,
    ;
    assert(((m | n) & (1u64 << b) != 0) == ((m & (1u64 << b) != 0) || (n & (1u64 << b) != 0)))
        by (bit_vector);
}

impl TokenSet {
    /// Whether `k` is a member of the set.
    pub closed spec fn has(self, k: SyntaxKind) -> bool {
        self.mask & bit(k) != 0
    }

    /// The members, as a set.
    pub open spec fn kinds(self) -> Set<SyntaxKind> {
        Set::new(|k: SyntaxKind| self.has(k))
    }

    /// The set without members.
    pub fn empty() -> (r: TokenSet)
        ensures
            forall|k: SyntaxKind| !r.has(k),
    {
        let r = TokenSet { mask: 0 };
        proof {
            assert forall|k: SyntaxKind| !r.has(k) by {
                lemma_bits(0, 0, 0, k.spec_index() as u64);
            }
        }
        r
    }

    /// The set of the kinds listed in `kinds`.
    pub fn new(kinds: &[SyntaxKind]) -> (r: TokenSet)
        ensures
            forall|k: SyntaxKind| #[trigger] r.has(k) <==> kinds@.contains(k),
    {
        let mut r = TokenSet::empty();
        let mut i: usize = 0;
        while i < kinds.len()
            invariant
                i <= kinds.len(),
                forall|k: SyntaxKind| r.has(k) <==> kinds@.take(i as int).contains(k),
            decreases kinds.len() - i,
        {
            let next = r.with(kinds[i]);
            proof {
                assert forall|k: SyntaxKind| next.has(k) <==> kinds@.take(i + 1).contains(k) by {
                    assert(kinds@.take(i + 1) =~= kinds@.take(i as int).push(kinds@[i as int]));
                    if kinds@.take(i as int).contains(k) {
                        let j = choose|j: int|
                            0 <= j < kinds@.take(i as int).len() && kinds@.take(i as int)[j] == k;
                        assert(kinds@.take(i + 1)[j] == k);
                    }
                    if k == kinds@[i as int] {
                        assert(kinds@.take(i + 1)[i as int] == k);
                    }
                }
            }
            r = next;
            i = i + 1;
        }
        proof {
            assert(kinds@.take(i as int) =~= kinds@);
        }
        r
    }

    /// The set with `kind` added.
    pub fn with(self, kind: SyntaxKind) -> (r: TokenSet)
        ensures
            forall|k: SyntaxKind| #[trigger] r.has(k) <==> (self.has(k) || k == kind),
    {
        let shift: u64 = kind.index() as u64;
        let r = TokenSet { mask: self.mask | (1u64 << shift) };
        proof {
            assert forall|k: SyntaxKind| r.has(k) <==> (self.has(k) || k == kind) by {
                lemma_bits(self.mask, 0, shift, k.spec_index() as u64);
                if k.spec_index() == kind.spec_index() {
                    lemma_index_injective(k, kind);
                }
            }
        }
        r
    }

    /// The members of either set.
    pub fn union(self, other: TokenSet) -> (r: TokenSet)
        ensures
            forall|k: SyntaxKind| #[trigger] r.has(k) <==> (self.has(k) || other.has(k)),
    {
        let r = TokenSet { mask: self.mask | other.mask };
        proof {
            assert forall|k: SyntaxKind| r.has(k) <==> (self.has(k) || other.has(k)) by {
                lemma_bits(self.mask, other.mask, 0, k.spec_index() as u64);
            }
        }
        r
    }

    /// Membership test.
    pub fn contains(self, kind: SyntaxKind) -> (r: bool)
        ensures
            r == self.has(kind),
    {
        let shift: u64 = kind.index() as u64;
        self.mask & (1u64 << shift) != 0
    }
}

} // verus!
