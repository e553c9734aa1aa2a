use vstd::prelude::*;
use crate::bits::{
    bit, lemma_bit_clear, lemma_bit_set, lemma_highest_bit, lemma_lowest_bit, lemma_mask_above,
    lemma_mask_below, lemma_zero_has_no_bit,
};
use crate::tiers::Tiers;
use crate::types::{CAP, L1_SIZE, L2_SIZE};

verus! {

/// Three-tier occupancy bitmap over the slots of one side.
pub struct Occupancy {
    pub l1: Vec<u64>,
    pub l2: Vec<u64>,
    pub root: u64,
}

/// A set bit makes its word non-zero.
proof fn lemma_bit_nonzero(w: u64, c: u64)
    requires
        bit(w, c),
    ensures
        w != 0,
{
    if w == 0 {
        lemma_zero_has_no_bit(c);
    }
}

/// Two different indices in one word sit at different bits of it.
proof fn lemma_same_word_other_bit(a: int, b: int)
    requires
        0 <= a,
        0 <= b,
        a != b,
        a / 64 == b / 64,
    ensures
        a % 64 != b % 64,
{
}

impl Occupancy {
    pub open spec fn tiers(&self) -> Tiers {
        Tiers { l1: self.l1@, l2: self.l2@, root: self.root }
    }

    pub open spec fn wf(&self) -> bool {
        self.tiers().upper_tiers_consistent()
    }

    pub open spec fn occupied(&self, i: int) -> bool {
        self.tiers().occupied(i)
    }

    /// An empty bitmap.
    pub fn new() -> (r: Self)
        ensures
            r.wf(),
            forall|i: int| 0 <= i < CAP ==> !#[trigger] r.occupied(i),
    {
        let mut l1: Vec<u64> = Vec::new();
        let mut n: usize = 0;
        while n < L1_SIZE
            invariant
                n <= L1_SIZE,
                l1@.len() == n,
                forall|j: int| 0 <= j < n ==> l1@[j] == 0,
            decreases L1_SIZE - n,
        {
            l1.push(0u64);
            n = n + 1;
        }
        let mut l2: Vec<u64> = Vec::new();
        let mut m: usize = 0;
        while m < L2_SIZE
            invariant
                m <= L2_SIZE,
                l2@.len() == m,
                forall|k: int| 0 <= k < m ==> l2@[k] == 0,
            decreases L2_SIZE - m,
        {
            l2.push(0u64);
            m = m + 1;
        }
        let r = Occupancy { l1, l2, root: 0 };
        proof {
            assert forall|j: int| 0 <= j < L1_SIZE implies bit(r.l2@[j / 64], (j % 64) as u64) == (
            #[trigger] r.l1@[j] != 0) by {
                lemma_zero_has_no_bit((j % 64) as u64);
            }
            assert forall|k: u64| k < 64 implies #[trigger] bit(r.root, k) == (k < L2_SIZE
                && r.l2@[k as int] != 0) by {
                lemma_zero_has_no_bit(k);
            }
            assert forall|i: int| 0 <= i < CAP implies !#[trigger] r.occupied(i) by {
                lemma_zero_has_no_bit((i % 64) as u64);
            }
        }
        r
    }

    /// Marks slot `idx` occupied, setting the upper-tier bits that become due.
    pub fn insert(&mut self, idx: usize)
        requires
            old(self).wf(),
            idx < CAP,
            !old(self).occupied(idx as int),
        ensures
            final(self).wf(),
            forall|i: int|
                0 <= i < CAP ==> #[trigger] final(self).occupied(i) == (old(self).occupied(i) || i
                    == idx),
    {
        let ghost pre = self.tiers();
        let j = idx / 64;
        let b = (idx % 64) as u64;
        let w1 = self.l1[j];
        self.l1.set(j, w1 | (1u64 << b));
        let k = j / 64;
        let c = (j % 64) as u64;
        assert(j < L1_SIZE && k < L2_SIZE);
        let w2 = self.l2[k];
        let ghost mid = self.tiers();
        if (w2 >> c) & 1u64 != 1u64 {
            self.l2.set(k, w2 | (1u64 << c));
            self.root = self.root | (1u64 << (k as u64));
        }
        proof {
            let post = self.tiers();
            lemma_bit_set(w1, b, b);
            lemma_bit_nonzero(post.l1[j as int], b);
            assert forall|i: int| 0 <= i < CAP implies #[trigger] post.occupied(i) == (
            pre.occupied(i) || i == idx) by {
                if i / 64 == j as int {
                    lemma_bit_set(w1, b, (i % 64) as u64);
                }
            }
            assert forall|jj: int| 0 <= jj < L1_SIZE implies bit(post.l2[jj / 64], (jj % 64) as u64)
                == (#[trigger] post.l1[jj] != 0) by {
                if jj / 64 == k as int {
                    if jj != j as int {
                        lemma_same_word_other_bit(jj, j as int);
                    }
                    if !bit(w2, c) {
                        lemma_bit_set(w2, c, (jj % 64) as u64);
                    }
                }
            }
            assert forall|kk: u64| kk < 64 implies #[trigger] bit(post.root, kk) == (kk < L2_SIZE
                && post.l2[kk as int] != 0) by {
                assert(bit(pre.root, kk) == (kk < L2_SIZE && pre.l2[kk as int] != 0));
                if !bit(w2, c) {
                    lemma_bit_set(pre.root, k as u64, kk);
                    lemma_bit_set(w2, c, c);
                    if kk == k as u64 {
                        lemma_bit_nonzero(post.l2[k as int], c);
                    } else if kk < L2_SIZE {
                        assert(post.l2[kk as int] == pre.l2[kk as int]);
                    }
                } else {
                    assert(post.root == pre.root);
                    assert(post.l2 == pre.l2);
                }
            }
        }
    }

    /// Marks slot `idx` empty, clearing the upper-tier bits whose words become zero.
    pub fn remove(&mut self, idx: usize)
        requires
            old(self).wf(),
            idx < CAP,
            old(self).occupied(idx as int),
        ensures
            final(self).wf(),
            forall|i: int|
                0 <= i < CAP ==> #[trigger] final(self).occupied(i) == (old(self).occupied(i) && i
                    != idx),
    {
        let ghost pre = self.tiers();
        let j = idx / 64;
        let b = (idx % 64) as u64;
        let w1 = self.l1[j] & !(1u64 << b);
        self.l1.set(j, w1);
        let k = j / 64;
        let c = (j % 64) as u64;
        assert(j < L1_SIZE && k < L2_SIZE);
        let ghost w2_old = self.l2@[k as int];
        let ghost root_old = self.root;
        if w1 == 0 {
            let w2 = self.l2[k] & !(1u64 << c);
            self.l2.set(k, w2);
            if w2 == 0 {
                self.root = self.root & !(1u64 << (k as u64));
            }
        }
        proof {
            let post = self.tiers();
            lemma_bit_nonzero(pre.l1[j as int], b);
            assert(bit(w2_old, c));
            lemma_bit_nonzero(w2_old, c);
            assert forall|i: int| 0 <= i < CAP implies #[trigger] post.occupied(i) == (
            pre.occupied(i) && i != idx) by {
                if i / 64 == j as int {
                    lemma_bit_clear(pre.l1[j as int], b, (i % 64) as u64);
                }
            }
            assert forall|jj: int| 0 <= jj < L1_SIZE implies bit(post.l2[jj / 64], (jj % 64) as u64)
                == (#[trigger] post.l1[jj] != 0) by {
                if jj / 64 == k as int && w1 == 0 {
                    if jj != j as int {
                        lemma_same_word_other_bit(jj, j as int);
                    }
                    lemma_bit_clear(w2_old, c, (jj % 64) as u64);
                }
            }
            assert forall|kk: u64| kk < 64 implies #[trigger] bit(post.root, kk) == (kk < L2_SIZE
                && post.l2[kk as int] != 0) by {
                assert(bit(pre.root, kk) == (kk < L2_SIZE && pre.l2[kk as int] != 0));
                assert(root_old == pre.root);
                if w1 == 0 && post.l2[k as int] == 0 {
                    lemma_bit_clear(root_old, k as u64, kk);
                    if kk != k as u64 && kk < L2_SIZE {
                        assert(post.l2[kk as int] == pre.l2[kk as int]);
                    }
                } else {
                    assert(post.root == root_old);
                    if kk < L2_SIZE && kk != k as u64 {
                        assert(post.l2[kk as int] == pre.l2[kk as int]);
                    }
                }
            }
        }
    }

    /// No slot is occupied when the root word is zero.
    proof fn lemma_root_zero_empty(&self)
        requires
            self.wf(),
            self.root == 0,
        ensures
            forall|i: int| 0 <= i < CAP ==> !#[trigger] self.occupied(i),
    {
        assert forall|i: int| 0 <= i < CAP implies !#[trigger] self.occupied(i) by {
            let j = i / 64;
            let k = (j / 64) as u64;
            lemma_zero_has_no_bit(k);
            assert(bit(self.tiers().root, k) == (k < L2_SIZE && self.tiers().l2[k as int] != 0));
            lemma_zero_has_no_bit((j % 64) as u64);
            assert(bit(self.tiers().l2[j / 64], (j % 64) as u64) == (self.tiers().l1[j] != 0));
            lemma_zero_has_no_bit((i % 64) as u64);
        }
    }

    /// The highest occupied slot, found by three scans for the most significant set bit.
    pub fn highest(&self) -> (r: Option<usize>)
        requires
            self.wf(),
        ensures
            match r {
                None => forall|i: int| 0 <= i < CAP ==> !#[trigger] self.occupied(i),
                Some(i) => i < CAP && self.occupied(i as int) && forall|j: int|
                    i < j < CAP ==> !#[trigger] self.occupied(j),
            },
    {
        if self.root == 0 {
            proof {
                self.lemma_root_zero_empty();
            }
            return None;
        }
        proof {
            lemma_highest_bit(self.root);
        }
        let k: usize = 63 - self.root.leading_zeros() as usize;
        assert(bit(self.tiers().root, k as u64) == (k < L2_SIZE && self.tiers().l2[k as int] != 0));
        let w2 = self.l2[k];
        proof {
            lemma_highest_bit(w2);
        }
        let jo: usize = 63 - w2.leading_zeros() as usize;
        let j: usize = k * 64 + jo;
        assert(j / 64 == k && j % 64 == jo);
        assert(bit(self.tiers().l2[j as int / 64], (j as int % 64) as u64) == (self.tiers().l1[j as int] != 0));
        let w1 = self.l1[j];
        proof {
            lemma_highest_bit(w1);
        }
        let b: usize = 63 - w1.leading_zeros() as usize;
        let i: usize = j * 64 + b;
        assert(i / 64 == j && i % 64 == b);
        proof {
            assert forall|x: int| i < x < CAP implies !#[trigger] self.occupied(x) by {
                let xj = x / 64;
                let xk = xj / 64;
                if xj == j {
                    assert(!bit(w1, (x % 64) as u64));
                } else {
                    assert(xj > j);
                    if xk == k {
                        assert(xj % 64 > jo);
                        assert(!bit(w2, (xj % 64) as u64));
                    } else {
                        assert(xk > k);
                        assert(!bit(self.tiers().root, xk as u64));
                        assert(bit(self.tiers().root, xk as u64) == (xk < L2_SIZE && self.tiers().l2[xk] != 0));
                        lemma_zero_has_no_bit((xj % 64) as u64);
                    }
                    assert(bit(self.tiers().l2[xj / 64], (xj % 64) as u64) == (self.tiers().l1[xj] != 0));
                    lemma_zero_has_no_bit((x % 64) as u64);
                }
            }
        }
        Some(i)
    }

    /// The lowest occupied slot, found by three scans for the least significant set bit.
    pub fn lowest(&self) -> (r: Option<usize>)
        requires
            self.wf(),
        ensures
            match r {
                None => forall|i: int| 0 <= i < CAP ==> !#[trigger] self.occupied(i),
                Some(i) => i < CAP && self.occupied(i as int) && forall|j: int|
                    0 <= j < i ==> !#[trigger] self.occupied(j),
            },
    {
        if self.root == 0 {
            proof {
                self.lemma_root_zero_empty();
            }
            return None;
        }
        proof {
            lemma_lowest_bit(self.root);
        }
        let k: usize = self.root.trailing_zeros() as usize;
        assert(bit(self.tiers().root, k as u64) == (k < L2_SIZE && self.tiers().l2[k as int] != 0));
        let w2 = self.l2[k];
        proof {
            lemma_lowest_bit(w2);
        }
        let jo: usize = w2.trailing_zeros() as usize;
        let j: usize = k * 64 + jo;
        assert(j / 64 == k && j % 64 == jo);
        assert(bit(self.tiers().l2[j as int / 64], (j as int % 64) as u64) == (self.tiers().l1[j as int] != 0));
        let w1 = self.l1[j];
        proof {
            lemma_lowest_bit(w1);
        }
        let b: usize = w1.trailing_zeros() as usize;
        let i: usize = j * 64 + b;
        assert(i / 64 == j && i % 64 == b);
        proof {
            assert forall|x: int| 0 <= x < i implies !#[trigger] self.occupied(x) by {
                let xj = x / 64;
                let xk = xj / 64;
                if xj == j {
                    assert(!bit(w1, (x % 64) as u64));
                } else {
                    assert(xj < j);
                    if xk == k {
                        assert(xj % 64 < jo);
                        assert(!bit(w2, (xj % 64) as u64));
                    } else {
                        assert(xk < k);
                        assert(!bit(self.tiers().root, xk as u64));
                        assert(bit(self.tiers().root, xk as u64) == (xk < L2_SIZE && self.tiers().l2[xk] != 0));
                        lemma_zero_has_no_bit((xj % 64) as u64);
                    }
                    assert(bit(self.tiers().l2[xj / 64], (xj % 64) as u64) == (self.tiers().l1[xj] != 0));
                    lemma_zero_has_no_bit((x % 64) as u64);
                }
            }
        }
        Some(i)
    }

    /// The nearest occupied slot strictly below `start`, scanning first-tier words downwards.
    pub fn next_below(&self, start: usize) -> (r: Option<usize>)
        requires
            self.wf(),
            start < CAP,
        ensures
            match r {
                None => forall|i: int| 0 <= i < start ==> !#[trigger] self.occupied(i),
                Some(i) => i < start && self.occupied(i as int) && forall|j: int|
                    i < j < start ==> !#[trigger] self.occupied(j),
            },
    {
        let j0: usize = start / 64;
        let b: u64 = (start % 64) as u64;
        proof {
            lemma_mask_below(0, b, 0);
        }
        let w = self.l1[j0] & ((1u64 << b) - 1u64);
        if w != 0 {
            proof {
                lemma_highest_bit(w);
            }
            let o: usize = 63 - w.leading_zeros() as usize;
            let i: usize = j0 * 64 + o;
            proof {
                lemma_mask_below(self.tiers().l1[j0 as int], b, o as u64);
                assert(i as int / 64 == j0 && i as int % 64 == o);
                assert forall|x: int| i < x < start implies !#[trigger] self.occupied(x) by {
                    lemma_mask_below(self.tiers().l1[j0 as int], b, (x % 64) as u64);
                }
            }
            return Some(i);
        }
        proof {
            assert forall|x: int| j0 * 64 <= x < start implies !#[trigger] self.occupied(x) by {
                lemma_mask_below(self.tiers().l1[j0 as int], b, (x % 64) as u64);
                lemma_zero_has_no_bit((x % 64) as u64);
            }
        }
        let mut j: usize = j0;
        while j > 0
            invariant
                j <= j0,
                j0 < L1_SIZE,
                j0 * 64 <= start,
                self.wf(),
                forall|x: int| j * 64 <= x < start ==> !#[trigger] self.occupied(x),
            decreases j,
        {
            j = j - 1;
            let w1 = self.l1[j];
            if w1 != 0 {
                proof {
                    lemma_highest_bit(w1);
                }
                let o: usize = 63 - w1.leading_zeros() as usize;
                let i: usize = j * 64 + o;
                proof {
                    assert(i as int / 64 == j && i as int % 64 == o);
                    assert forall|x: int| i < x < start implies !#[trigger] self.occupied(x) by {
                        if x < (j + 1) * 64 {
                            assert(x / 64 == j);
                        }
                    }
                }
                return Some(i);
            }
            proof {
                assert forall|x: int| j * 64 <= x < start implies !#[trigger] self.occupied(x) by {
                    if x < (j + 1) * 64 {
                        assert(x / 64 == j);
                        lemma_zero_has_no_bit((x % 64) as u64);
                    }
                }
            }
        }
        None
    }

    /// The nearest occupied slot strictly above `start`, scanning first-tier words upwards.
    pub fn next_above(&self, start: usize) -> (r: Option<usize>)
        requires
            self.wf(),
            start < CAP,
        ensures
            match r {
                None => forall|i: int| start < i < CAP ==> !#[trigger] self.occupied(i),
                Some(i) => start < i < CAP && self.occupied(i as int) && forall|j: int|
                    start < j < i ==> !#[trigger] self.occupied(j),
            },
    {
        let j0: usize = start / 64;
        let b: u64 = (start % 64) as u64;
        let w = self.l1[j0] & ((0xffff_ffff_ffff_ffffu64 << b) << 1u64);
        if w != 0 {
            proof {
                lemma_lowest_bit(w);
            }
            let o: usize = w.trailing_zeros() as usize;
            let i: usize = j0 * 64 + o;
            proof {
                lemma_mask_above(self.tiers().l1[j0 as int], b, o as u64);
                assert(i as int / 64 == j0 && i as int % 64 == o);
                assert forall|x: int| start < x < i implies !#[trigger] self.occupied(x) by {
                    lemma_mask_above(self.tiers().l1[j0 as int], b, (x % 64) as u64);
                }
            }
            return Some(i);
        }
        proof {
            assert forall|x: int| start < x < (j0 + 1) * 64 implies !#[trigger] self.occupied(x) by {
                lemma_mask_above(self.tiers().l1[j0 as int], b, (x % 64) as u64);
                lemma_zero_has_no_bit((x % 64) as u64);
            }
        }
        let mut j: usize = j0 + 1;
        while j < L1_SIZE
            invariant
                j0 < j <= L1_SIZE,
                start < (j0 + 1) * 64,
                self.wf(),
                forall|x: int| start < x < j * 64 ==> !#[trigger] self.occupied(x),
            decreases L1_SIZE - j,
        {
            let w1 = self.l1[j];
            if w1 != 0 {
                proof {
                    lemma_lowest_bit(w1);
                }
                let o: usize = w1.trailing_zeros() as usize;
                let i: usize = j * 64 + o;
                proof {
                    assert(i as int / 64 == j && i as int % 64 == o);
                    assert forall|x: int| start < x < i implies !#[trigger] self.occupied(x) by {
                        if x >= j * 64 {
                            assert(x / 64 == j);
                        }
                    }
                }
                return Some(i);
            }
            proof {
                assert forall|x: int| start < x < (j + 1) * 64 implies !#[trigger] self.occupied(x) by {
                    if x >= j * 64 {
                        assert(x / 64 == j);
                        lemma_zero_has_no_bit((x % 64) as u64);
                    }
                }
            }
            j = j + 1;
        }
        None
    }
}

} // verus!
