use vstd::prelude::*;
use crate::frac::{Frac, frac_le, frac_lt};

verus! {

/// A cluster hierarchy over original item indices: either a single item, or
/// the merge of two subtrees at a given height (half the linkage distance at
/// which they were combined).
pub enum ClusterTree {
    Leaf(usize),
    Merge(Box<ClusterTree>, Box<ClusterTree>, Frac),
}

impl ClusterTree {
    /// The original item indices of this subtree, in left-to-right order:
    /// a leaf contributes itself, a merge the left indices then the right.
    pub open spec fn leaf_seq(self) -> Seq<int>
        decreases self,
    {
        match self {
            ClusterTree::Leaf(i) => seq![i as int],
            ClusterTree::Merge(l, r, _) => (*l).leaf_seq() + (*r).leaf_seq(),
        }
    }

    /// Every leaf index lies below `n`.
    pub open spec fn wf_under(self, n: int) -> bool {
        forall|k: int| 0 <= k < self.leaf_seq().len() ==> 0 <= #[trigger] self.leaf_seq()[k] < n
    }

    /// Every merge height has a positive denominator.
    pub open spec fn heights_wf(self) -> bool
        decreases self,
    {
        match self {
            ClusterTree::Leaf(_) => true,
            ClusterTree::Merge(l, r, h) => h.wf() && (*l).heights_wf() && (*r).heights_wf(),
        }
    }

    /// Every merge height inside `self` is at most `bn/bd`.
    pub open spec fn heights_le(self, bn: int, bd: int) -> bool
        decreases self,
    {
        match self {
            ClusterTree::Leaf(_) => true,
            ClusterTree::Merge(l, r, h) => frac_le(h.num as int, h.den as int, bn, bd)
                && (*l).heights_le(bn, bd) && (*r).heights_le(bn, bd),
        }
    }

    /// Merge heights never decrease from child to parent: each merge is at
    /// least as high as every merge inside either of its subtrees.
    pub open spec fn heights_mono(self) -> bool
        decreases self,
    {
        match self {
            ClusterTree::Leaf(_) => true,
            ClusterTree::Merge(l, r, h) => (*l).heights_mono() && (*r).heights_mono()
                && (*l).heights_le(h.num as int, h.den as int)
                && (*r).heights_le(h.num as int, h.den as int),
        }
    }

    pub proof fn lemma_leaf_seq_nonempty(self)
        ensures
            self.leaf_seq().len() >= 1,
        decreases self,
    {
        match self {
            ClusterTree::Leaf(_) => {}
            ClusterTree::Merge(l, r, _) => {
                (*l).lemma_leaf_seq_nonempty();
                (*r).lemma_leaf_seq_nonempty();
            }
        }
    }

    /// A larger bound also bounds the heights, when the old bound is at most
    /// the new one as a rational.
    pub proof fn lemma_heights_le_mono(self, an: int, ad: int, bn: int, bd: int)
        requires
            self.heights_wf(),
            self.heights_le(an, ad),
            frac_le(an, ad, bn, bd),
            ad >= 1,
            bd >= 1,
        ensures
            self.heights_le(bn, bd),
        decreases self,
    {
        match self {
            ClusterTree::Leaf(_) => {}
            ClusterTree::Merge(l, r, h) => {
                (*l).lemma_heights_le_mono(an, ad, bn, bd);
                (*r).lemma_heights_le_mono(an, ad, bn, bd);
                lemma_frac_le_trans(h.num as int, h.den as int, an, ad, bn, bd);
            }
        }
    }

    /// The original item indices of this subtree, in left-to-right order.
    pub fn leaf_indices(&self) -> (r: Vec<usize>)
        ensures
            r@.map_values(|x: usize| x as int) == self.leaf_seq(),
        decreases self,
    {
        match self {
            ClusterTree::Leaf(i) => {
                let mut v: Vec<usize> = Vec::new();
                v.push(*i);
                proof {
                    assert(v@.map_values(|x: usize| x as int) =~= self.leaf_seq());
                }
                v
            }
            ClusterTree::Merge(l, r, _) => {
                let mut v = l.leaf_indices();
                let mut w = r.leaf_indices();
                v.append(&mut w);
                proof {
                    assert(v@.map_values(|x: usize| x as int) =~= self.leaf_seq());
                }
                v
            }
        }
    }

    /// The number of leaves in this subtree.
    pub fn size(&self) -> (r: usize)
        requires
            self.leaf_seq().len() <= usize::MAX,
        ensures
            r == self.leaf_seq().len(),
        decreases self,
    {
        match self {
            ClusterTree::Leaf(_) => 1,
            ClusterTree::Merge(l, r, _) => {
                let a = l.size();
                let b = r.size();
                a + b
            }
        }
    }
}

/// Transitivity of the cross-multiplied order on rationals.
pub proof fn lemma_frac_le_trans(an: int, ad: int, bn: int, bd: int, cn: int, cd: int)
    by (nonlinear_arith)
    requires
        ad >= 1,
        bd >= 1,
        cd >= 1,
        frac_le(an, ad, bn, bd),
        frac_le(bn, bd, cn, cd),
    ensures
        frac_le(an, ad, cn, cd),
{
}

/// A strict step followed by a non-strict step stays strict.
pub proof fn lemma_frac_lt_le_trans(an: int, ad: int, bn: int, bd: int, cn: int, cd: int)
    by (nonlinear_arith)
    requires
        ad >= 1,
        bd >= 1,
        cd >= 1,
        frac_lt(an, ad, bn, bd),
        frac_le(bn, bd, cn, cd),
    ensures
        frac_lt(an, ad, cn, cd),
{
}

} // verus!
