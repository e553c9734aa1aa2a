use vstd::prelude::*;
use crate::bits::bit;
use crate::types::{CAP, L1_SIZE, L2_SIZE};

verus! {

/// The three tiers of one side's occupancy bitmap, as words.
pub struct Tiers {
    /// One bit per slot.
    pub l1: Seq<u64>,
    /// One bit per first-tier word.
    pub l2: Seq<u64>,
    /// One bit per second-tier word.
    pub root: u64,
}

impl Tiers {
    /// Bit `i` of the first tier: slot `i` is marked occupied.
    pub open spec fn occupied(self, i: int) -> bool {
        bit(self.l1[i / 64], (i % 64) as u64)
    }

    /// Each second-tier bit is set exactly when its first-tier word is non-zero, and each
    /// root bit exactly when its second-tier word is non-zero (no root bit names a word
    /// beyond the second tier).
    pub open spec fn upper_tiers_consistent(self) -> bool {
        &&& self.l1.len() == L1_SIZE
        &&& self.l2.len() == L2_SIZE
        &&& forall|j: int|
            0 <= j < L1_SIZE ==> bit(self.l2[j / 64], (j % 64) as u64) == (#[trigger] self.l1[j]
                != 0)
        &&& forall|k: u64| k < 64 ==> #[trigger] bit(self.root, k) == (k < L2_SIZE && self.l2[k as int] != 0)
    }

    /// The whole bitmap agrees with the slot quantities: a first-tier bit is set exactly
    /// when its slot holds a non-zero quantity, and the upper tiers agree with the lower.
    pub open spec fn consistent_with(self, quantities: Seq<u64>) -> bool {
        &&& self.upper_tiers_consistent()
        &&& forall|i: int| 0 <= i < CAP ==> #[trigger] self.occupied(i) == (quantities[i] > 0)
    }
}

} // verus!
