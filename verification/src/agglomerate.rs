use vstd::prelude::*;
use vstd::multiset::Multiset;
use crate::frac::{Frac, frac_le, frac_lt};
use crate::tree::ClusterTree;
use crate::linkage::{
    mat_view, matrix_wf, sym_matrix, idxs_under, cross_sum, link_num, link_den,
    average_linkage, lemma_cross_sum_bounds, lemma_cross_sum_concat_right, lemma_cross_sym,
    MAX_ITEMS,
};

verus! {

/// Lexicographic order on scan positions: `(a, b)` is visited before `(c, e)`.
pub open spec fn lex_before(a: int, b: int, c: int, e: int) -> bool {
    a < c || (a == c && b < e)
}

/// `(i, j)` is the first pair, in scan order `i` ascending then `j`
/// ascending, whose average linkage distance is minimal: every pair is at
/// least as far apart, and every earlier pair strictly farther.
pub open spec fn is_first_min(d: Seq<Seq<u32>>, cs: Seq<ClusterTree>, i: int, j: int) -> bool {
    &&& 0 <= i < j < cs.len()
    &&& forall|a: int, b: int|
        0 <= a < b < cs.len() ==> frac_le(
            link_num(d, cs[i], cs[j]),
            link_den(cs[i], cs[j]),
            #[trigger] link_num(d, cs[a], cs[b]),
            link_den(cs[a], cs[b]),
        )
    &&& forall|a: int, b: int|
        0 <= a < b < cs.len() && lex_before(a, b, i, j) ==> frac_lt(
            link_num(d, cs[i], cs[j]),
            link_den(cs[i], cs[j]),
            #[trigger] link_num(d, cs[a], cs[b]),
            link_den(cs[a], cs[b]),
        )
}

pub proof fn lemma_first_min_unique(
    d: Seq<Seq<u32>>,
    cs: Seq<ClusterTree>,
    i1: int,
    j1: int,
    i2: int,
    j2: int,
)
    requires
        is_first_min(d, cs, i1, j1),
        is_first_min(d, cs, i2, j2),
    ensures
        i1 == i2 && j1 == j2,
{
    if lex_before(i1, j1, i2, j2) {
        assert(frac_lt(
            link_num(d, cs[i2], cs[j2]), link_den(cs[i2], cs[j2]),
            link_num(d, cs[i1], cs[j1]), link_den(cs[i1], cs[j1]),
        ));
        assert(frac_le(
            link_num(d, cs[i1], cs[j1]), link_den(cs[i1], cs[j1]),
            link_num(d, cs[i2], cs[j2]), link_den(cs[i2], cs[j2]),
        ));
        assert(false);
    } else if lex_before(i2, j2, i1, j1) {
        assert(frac_lt(
            link_num(d, cs[i1], cs[j1]), link_den(cs[i1], cs[j1]),
            link_num(d, cs[i2], cs[j2]), link_den(cs[i2], cs[j2]),
        ));
        assert(frac_le(
            link_num(d, cs[i2], cs[j2]), link_den(cs[i2], cs[j2]),
            link_num(d, cs[i1], cs[j1]), link_den(cs[i1], cs[j1]),
        ));
        assert(false);
    }
}

/// The merge of two chosen clusters, at half their linkage distance.
pub open spec fn merged_pair(d: Seq<Seq<u32>>, a: ClusterTree, b: ClusterTree) -> ClusterTree {
    ClusterTree::Merge(
        Box::new(a),
        Box::new(b),
        Frac { num: link_num(d, a, b) as u64, den: (2 * link_den(a, b)) as u64 },
    )
}

/// The first minimal pair of the working collection, `(0, 1)` if none exists.
pub open spec fn first_min_pair(d: Seq<Seq<u32>>, cs: Seq<ClusterTree>) -> (int, int) {
    if exists|p: (int, int)| is_first_min(d, cs, p.0, p.1) {
        choose|p: (int, int)| is_first_min(d, cs, p.0, p.1)
    } else {
        (0, 1)
    }
}

/// One agglomeration step: take out the first minimal pair, put back their merge.
pub open spec fn merge_step(d: Seq<Seq<u32>>, cs: Seq<ClusterTree>) -> Seq<ClusterTree>
    recommends
        cs.len() >= 2,
{
    let p = first_min_pair(d, cs);
    cs.remove(p.1).remove(p.0).push(merged_pair(d, cs[p.0], cs[p.1]))
}

/// The whole agglomeration, as a function of the input alone: merge the first
/// minimal pair until one cluster remains.
pub open spec fn cluster_spec(d: Seq<Seq<u32>>, cs: Seq<ClusterTree>) -> ClusterTree
    decreases cs.len(),
{
    if cs.len() <= 1 {
        cs[0]
    } else {
        cluster_spec(d, merge_step(d, cs))
    }
}

/// The initial working collection: one leaf per index.
pub open spec fn init_leaves(n: int) -> Seq<ClusterTree> {
    Seq::new(n as nat, |i: int| ClusterTree::Leaf(i as usize))
}

/// The indices `0, 1, ..., n - 1` in order.
pub open spec fn idx_seq(n: int) -> Seq<int> {
    Seq::new(n as nat, |i: int| i)
}

proof fn lemma_idx_seq_counts(n: int, v: int)
    requires
        0 <= n,
    ensures
        idx_seq(n).to_multiset().count(v) == if 0 <= v < n {
            1int
        } else {
            0int
        },
    decreases n,
{
    broadcast use vstd::seq_lib::group_to_multiset_ensures;
    broadcast use vstd::multiset::group_multiset_axioms;

    if n == 0 {
        assert(idx_seq(0).to_multiset().len() == 0);
        vstd::multiset::lemma_multiset_empty_len(idx_seq(0).to_multiset());
    } else {
        lemma_idx_seq_counts(n - 1, v);
        assert(idx_seq(n) =~= idx_seq(n - 1).push(n - 1));
        assert(idx_seq(n).to_multiset() =~= idx_seq(n - 1).to_multiset().insert(n - 1));
    }
}

/// A permutation, made explicit: a tree whose leaf multiset is exactly the
/// indices below `n` — as `cluster` returns — holds each such index exactly
/// once, and no other index at all.
pub proof fn lemma_each_index_once(t: ClusterTree, n: int, v: int)
    requires
        0 <= n,
        t.leaf_seq().to_multiset() == idx_seq(n).to_multiset(),
    ensures
        t.leaf_seq().to_multiset().count(v) == if 0 <= v < n {
            1int
        } else {
            0int
        },
{
    lemma_idx_seq_counts(n, v);
}

/// All original item indices held by the working collection, as a multiset.
pub open spec fn leaves_ms(cs: Seq<ClusterTree>) -> Multiset<int>
    decreases cs.len(),
{
    if cs.len() == 0 {
        Multiset::empty()
    } else {
        leaves_ms(cs.drop_last()).add(cs.last().leaf_seq().to_multiset())
    }
}

/// Total number of leaves held by the working collection.
pub open spec fn total_size(cs: Seq<ClusterTree>) -> int
    decreases cs.len(),
{
    if cs.len() == 0 {
        0
    } else {
        total_size(cs.drop_last()) + cs.last().leaf_seq().len()
    }
}

proof fn lemma_total_size_nonneg(cs: Seq<ClusterTree>)
    ensures
        total_size(cs) >= 0,
    decreases cs.len(),
{
    if cs.len() > 0 {
        lemma_total_size_nonneg(cs.drop_last());
    }
}

pub proof fn lemma_total_size_member(cs: Seq<ClusterTree>, k: int)
    requires
        0 <= k < cs.len(),
    ensures
        cs[k].leaf_seq().len() <= total_size(cs),
    decreases cs.len(),
{
    if k == cs.len() - 1 {
        lemma_total_size_nonneg(cs.drop_last());
    } else {
        lemma_total_size_member(cs.drop_last(), k);
        assert(cs.drop_last()[k] == cs[k]);
        cs.last().lemma_leaf_seq_nonempty();
    }
}

proof fn lemma_removed_ms(cs: Seq<ClusterTree>, i: int)
    requires
        0 <= i < cs.len(),
    ensures
        leaves_ms(cs) =~= leaves_ms(cs.remove(i)).add(cs[i].leaf_seq().to_multiset()),
        total_size(cs) == total_size(cs.remove(i)) + cs[i].leaf_seq().len(),
    decreases cs.len(),
{
    broadcast use vstd::multiset::group_multiset_axioms;

    if i == cs.len() - 1 {
        assert(cs.remove(i) =~= cs.drop_last());
    } else {
        lemma_removed_ms(cs.drop_last(), i);
        assert(cs.remove(i).drop_last() =~= cs.drop_last().remove(i));
        assert(cs.remove(i).last() == cs.last());
        assert(cs.drop_last()[i] == cs[i]);
    }
}

proof fn lemma_pushed_ms(cs: Seq<ClusterTree>, t: ClusterTree)
    ensures
        leaves_ms(cs.push(t)) =~= leaves_ms(cs).add(t.leaf_seq().to_multiset()),
        total_size(cs.push(t)) == total_size(cs) + t.leaf_seq().len(),
{
    assert(cs.push(t).drop_last() =~= cs);
    assert(cs.push(t).last() == t);
}

proof fn lemma_init_leaves(n: int)
    requires
        0 <= n <= MAX_ITEMS,
    ensures
        leaves_ms(init_leaves(n)) =~= idx_seq(n).to_multiset(),
        total_size(init_leaves(n)) == n,
    decreases n,
{
    broadcast use vstd::seq_lib::group_to_multiset_ensures;
    broadcast use vstd::multiset::group_multiset_axioms;

    if n == 0 {
        assert(idx_seq(0).to_multiset().len() == 0);
        vstd::multiset::lemma_multiset_empty_len(idx_seq(0).to_multiset());
    } else {
        lemma_init_leaves(n - 1);
        assert(init_leaves(n).drop_last() =~= init_leaves(n - 1));
        assert(init_leaves(n).last() == ClusterTree::Leaf((n - 1) as usize));
        let last_leaves = ClusterTree::Leaf((n - 1) as usize).leaf_seq();
        assert(last_leaves =~= Seq::<int>::empty().push(n - 1));
        assert(Seq::<int>::empty().to_multiset().len() == 0);
        vstd::multiset::lemma_multiset_empty_len(Seq::<int>::empty().to_multiset());
        assert(last_leaves.to_multiset() =~= Multiset::<int>::empty().insert(n - 1));
        assert(idx_seq(n) =~= idx_seq(n - 1).push(n - 1));
        assert(idx_seq(n).to_multiset() =~= idx_seq(n - 1).to_multiset().insert(n - 1));
        assert(leaves_ms(init_leaves(n)) =~= idx_seq(n).to_multiset());
    }
}

/// Positions of the survivors after the pair `(i, j)` is taken out.
proof fn lemma_remove2(cs: Seq<ClusterTree>, i: int, j: int)
    requires
        0 <= i < j < cs.len(),
    ensures
        cs.remove(j).remove(i).len() == cs.len() - 2,
        forall|k: int| 0 <= k < i ==> #[trigger] cs.remove(j).remove(i)[k] == cs[k],
        forall|k: int| i <= k < j - 1 ==> #[trigger] cs.remove(j).remove(i)[k] == cs[k + 1],
        forall|k: int|
            j - 1 <= k < cs.len() - 2 ==> #[trigger] cs.remove(j).remove(i)[k] == cs[k + 2],
{
    cs.remove_ensures(j);
    cs.remove(j).remove_ensures(i);
}

/// The mean of two rationals that are both at least `mn/md` is at least `mn/md`.
proof fn lemma_weighted_mean(mn: int, md: int, x1: int, y1: int, x2: int, y2: int)
    by (nonlinear_arith)
    requires
        md >= 1,
        y1 >= 1,
        y2 >= 1,
        frac_le(mn, md, x1, y1),
        frac_le(mn, md, x2, y2),
    ensures
        frac_le(mn, md, x1 + x2, y1 + y2),
{
}

proof fn lemma_link_den_pos(x: ClusterTree, y: ClusterTree)
    requires
        x.leaf_seq().len() >= 1,
        y.leaf_seq().len() >= 1,
    ensures
        link_den(x, y) >= 1,
{
    assert(x.leaf_seq().len() * y.leaf_seq().len() >= 1) by (nonlinear_arith)
        requires
            x.leaf_seq().len() >= 1,
            y.leaf_seq().len() >= 1,
    ;
}

fn find_min_pair(d: &Vec<Vec<u32>>, cs: &Vec<ClusterTree>) -> (r: (usize, usize, Frac))
    requires
        matrix_wf(mat_view(*d)),
        mat_view(*d).len() <= MAX_ITEMS,
        cs@.len() >= 2,
        forall|k: int|
            0 <= k < cs@.len() ==> (#[trigger] cs@[k]).wf_under(mat_view(*d).len() as int),
        forall|k: int|
            0 <= k < cs@.len() ==> 1 <= (#[trigger] cs@[k]).leaf_seq().len() <= MAX_ITEMS,
    ensures
        is_first_min(mat_view(*d), cs@, r.0 as int, r.1 as int),
        r.2.num as int == link_num(mat_view(*d), cs@[r.0 as int], cs@[r.1 as int]),
        r.2.den as int == link_den(cs@[r.0 as int], cs@[r.1 as int]),
        r.2.den >= 1,
{
    let ghost dv = mat_view(*d);
    let mut bi: usize = 0;
    let mut bj: usize = 1;
    proof {
        assert(cs@[0].wf_under(dv.len() as int));
        assert(cs@[1].wf_under(dv.len() as int));
    }
    let mut bd = average_linkage(d, &cs[0], &cs[1]);
    let mut i: usize = 0;
    while i < cs.len()
        invariant
            dv == mat_view(*d),
            matrix_wf(dv),
            dv.len() <= MAX_ITEMS,
            cs@.len() >= 2,
            forall|k: int|
                0 <= k < cs@.len() ==> (#[trigger] cs@[k]).wf_under(dv.len() as int),
            forall|k: int|
                0 <= k < cs@.len() ==> 1 <= (#[trigger] cs@[k]).leaf_seq().len() <= MAX_ITEMS,
            i <= cs@.len(),
            0 <= bi < bj < cs@.len(),
            bd.num as int == link_num(dv, cs@[bi as int], cs@[bj as int]),
            bd.den as int == link_den(cs@[bi as int], cs@[bj as int]),
            bd.den >= 1,
            (bi as int) < i || (i == 0 && bi == 0 && bj == 1),
            forall|a: int, b: int|
                0 <= a < b < cs@.len() && a < i ==> frac_le(
                    bd.num as int,
                    bd.den as int,
                    #[trigger] link_num(dv, cs@[a], cs@[b]),
                    link_den(cs@[a], cs@[b]),
                ),
            forall|a: int, b: int|
                0 <= a < b < cs@.len() && a < i && lex_before(a, b, bi as int, bj as int)
                    ==> frac_lt(
                    bd.num as int,
                    bd.den as int,
                    #[trigger] link_num(dv, cs@[a], cs@[b]),
                    link_den(cs@[a], cs@[b]),
                ),
        decreases cs@.len() - i,
    {
        let mut j: usize = i + 1;
        while j < cs.len()
            invariant
                dv == mat_view(*d),
                matrix_wf(dv),
                dv.len() <= MAX_ITEMS,
                cs@.len() >= 2,
                forall|k: int|
                    0 <= k < cs@.len() ==> (#[trigger] cs@[k]).wf_under(dv.len() as int),
                forall|k: int|
                    0 <= k < cs@.len() ==> 1 <= (#[trigger] cs@[k]).leaf_seq().len() <= MAX_ITEMS,
                i < cs@.len(),
                i + 1 <= j <= cs@.len(),
                0 <= bi < bj < cs@.len(),
                bd.num as int == link_num(dv, cs@[bi as int], cs@[bj as int]),
                bd.den as int == link_den(cs@[bi as int], cs@[bj as int]),
                bd.den >= 1,
                lex_before(bi as int, bj as int, i as int, j as int) || (bi == i && bj == j),
                forall|a: int, b: int|
                    0 <= a < b < cs@.len() && lex_before(a, b, i as int, j as int) ==> frac_le(
                        bd.num as int,
                        bd.den as int,
                        #[trigger] link_num(dv, cs@[a], cs@[b]),
                        link_den(cs@[a], cs@[b]),
                    ),
                forall|a: int, b: int|
                    0 <= a < b < cs@.len() && lex_before(a, b, i as int, j as int)
                        && lex_before(a, b, bi as int, bj as int) ==> frac_lt(
                        bd.num as int,
                        bd.den as int,
                        #[trigger] link_num(dv, cs@[a], cs@[b]),
                        link_den(cs@[a], cs@[b]),
                    ),
            decreases cs@.len() - j,
        {
            proof {
                assert(cs@[i as int].wf_under(dv.len() as int));
                assert(cs@[j as int].wf_under(dv.len() as int));
            }
            let dist = average_linkage(d, &cs[i], &cs[j]);
            if dist.lt(&bd) {
                proof {
                    assert forall|a: int, b: int|
                        0 <= a < b < cs@.len() && lex_before(a, b, i as int, j as int)
                        implies frac_lt(
                            dist.num as int,
                            dist.den as int,
                            link_num(dv, cs@[a], cs@[b]),
                            link_den(cs@[a], cs@[b]),
                        )
                    by {
                        lemma_link_den_pos(cs@[a], cs@[b]);
                        crate::tree::lemma_frac_lt_le_trans(
                            dist.num as int,
                            dist.den as int,
                            bd.num as int,
                            bd.den as int,
                            link_num(dv, cs@[a], cs@[b]),
                            link_den(cs@[a], cs@[b]),
                        );
                    }
                }
                proof {
                    assert(frac_le(
                        dist.num as int,
                        dist.den as int,
                        link_num(dv, cs@[i as int], cs@[j as int]),
                        link_den(cs@[i as int], cs@[j as int]),
                    ));
                    assert forall|a: int, b: int|
                        0 <= a < b < cs@.len() && lex_before(a, b, i as int, j as int + 1)
                        implies frac_le(
                            dist.num as int,
                            dist.den as int,
                            link_num(dv, cs@[a], cs@[b]),
                            link_den(cs@[a], cs@[b]),
                        )
                    by {
                        if a == i as int && b == j as int {
                        } else {
                            assert(lex_before(a, b, i as int, j as int));
                        }
                    }
                }
                bi = i;
                bj = j;
                bd = dist;
            } else {
                proof {
                    assert(frac_le(
                        bd.num as int,
                        bd.den as int,
                        link_num(dv, cs@[i as int], cs@[j as int]),
                        link_den(cs@[i as int], cs@[j as int]),
                    ));
                    assert forall|a: int, b: int|
                        0 <= a < b < cs@.len() && lex_before(a, b, i as int, j as int + 1)
                        implies frac_le(
                            bd.num as int,
                            bd.den as int,
                            link_num(dv, cs@[a], cs@[b]),
                            link_den(cs@[a], cs@[b]),
                        )
                    by {
                        if a == i as int && b == j as int {
                        } else {
                            assert(lex_before(a, b, i as int, j as int));
                        }
                    }
                }
            }
            j = j + 1;
        }
        i = i + 1;
    }
    (bi, bj, bd)
}

/// Agglomerative average-linkage clustering over an `n` by `n` distance
/// matrix: repeatedly take the closest pair of clusters — scanning pairs in a
/// fixed order and keeping the first minimum, so ties break deterministically
/// — and merge them at half their linkage distance, until one tree remains.
/// The cluster at the lower position becomes the left child of the merge.
///
/// The result is pinned exactly by `cluster_spec`, so two runs on the same
/// input return the same tree.  The tree holds every index below `n` exactly
/// once, and for a symmetric matrix its merge heights never decrease from
/// child to parent.
#[verifier::rlimit(100)]
pub fn cluster(d: &Vec<Vec<u32>>, n: usize) -> (r: ClusterTree)
    requires
        1 <= n <= MAX_ITEMS,
        mat_view(*d).len() == n,
        matrix_wf(mat_view(*d)),
    ensures
        r == cluster_spec(mat_view(*d), init_leaves(n as int)),
        r.leaf_seq().to_multiset() == idx_seq(n as int).to_multiset(),
        r.leaf_seq().len() == n,
        r.wf_under(n as int),
        r.heights_wf(),
        sym_matrix(mat_view(*d)) ==> r.heights_mono(),
{
    let ghost dv = mat_view(*d);
    let mut cs: Vec<ClusterTree> = Vec::new();
    let mut i: usize = 0;
    while i < n
        invariant
            i <= n,
            n <= MAX_ITEMS,
            cs@ == init_leaves(i as int),
        decreases n - i,
    {
        cs.push(ClusterTree::Leaf(i));
        proof {
            assert(cs@ =~= init_leaves(i as int + 1));
        }
        i = i + 1;
    }
    proof {
        lemma_init_leaves(n as int);
        assert forall|k: int| 0 <= k < cs@.len() implies (#[trigger] cs@[k]).wf_under(n as int)
            && cs@[k].heights_wf() && cs@[k].heights_mono() && cs@[k].heights_le(0, 2) by {
            assert(cs@[k] == ClusterTree::Leaf(k as usize));
            assert(cs@[k].leaf_seq() =~= seq![k]);
        }
        assert forall|a: int, b: int| 0 <= a < b < cs@.len() implies frac_le(
            0,
            1,
            #[trigger] link_num(dv, cs@[a], cs@[b]),
            link_den(cs@[a], cs@[b]),
        ) by {
            lemma_cross_sum_bounds(dv, cs@[a].leaf_seq(), cs@[b].leaf_seq());
        }
    }
    let ghost mut thr_n: int = 0;
    let ghost mut thr_d: int = 1;
    while cs.len() > 1
        invariant
            dv == mat_view(*d),
            matrix_wf(dv),
            dv.len() == n,
            1 <= n <= MAX_ITEMS,
            1 <= cs@.len(),
            total_size(cs@) == n,
            leaves_ms(cs@) == idx_seq(n as int).to_multiset(),
            cluster_spec(dv, init_leaves(n as int)) == cluster_spec(dv, cs@),
            forall|k: int| 0 <= k < cs@.len() ==> (#[trigger] cs@[k]).wf_under(n as int),
            forall|k: int| 0 <= k < cs@.len() ==> (#[trigger] cs@[k]).heights_wf(),
            thr_d >= 1,
            sym_matrix(dv) ==> forall|k: int|
                0 <= k < cs@.len() ==> (#[trigger] cs@[k]).heights_mono(),
            sym_matrix(dv) ==> forall|k: int|
                0 <= k < cs@.len() ==> (#[trigger] cs@[k]).heights_le(thr_n, 2 * thr_d),
            sym_matrix(dv) ==> forall|a: int, b: int|
                0 <= a < b < cs@.len() ==> frac_le(
                    thr_n,
                    thr_d,
                    #[trigger] link_num(dv, cs@[a], cs@[b]),
                    link_den(cs@[a], cs@[b]),
                ),
        decreases cs@.len(),
    {
        proof {
            assert forall|k: int|
                0 <= k < cs@.len() implies 1 <= (#[trigger] cs@[k]).leaf_seq().len()
                <= MAX_ITEMS by {
                cs@[k].lemma_leaf_seq_nonempty();
                lemma_total_size_member(cs@, k);
            }
        }
        let (bi, bj, bd) = find_min_pair(d, &cs);
        let ghost old_cs = cs@;
        proof {
            lemma_total_size_member(old_cs, bi as int);
            lemma_total_size_member(old_cs, bj as int);
            old_cs[bi as int].lemma_leaf_seq_nonempty();
            old_cs[bj as int].lemma_leaf_seq_nonempty();
            assert(old_cs[bi as int].leaf_seq().len() * old_cs[bj as int].leaf_seq().len()
                <= MAX_ITEMS * MAX_ITEMS) by (nonlinear_arith)
                requires
                    1 <= old_cs[bi as int].leaf_seq().len() <= MAX_ITEMS,
                    1 <= old_cs[bj as int].leaf_seq().len() <= MAX_ITEMS,
            ;
        }
        let c2 = cs.remove(bj);
        let c1 = cs.remove(bi);
        let h = Frac { num: bd.num, den: 2 * bd.den };
        let merged = ClusterTree::Merge(Box::new(c1), Box::new(c2), h);
        cs.push(merged);
        proof {
            broadcast use vstd::multiset::group_multiset_axioms;

            let ci = old_cs[bi as int];
            let cj = old_cs[bj as int];
            let la = ci.leaf_seq();
            let lb = cj.leaf_seq();
            let mn = bd.num as int;
            let md = bd.den as int;
            old_cs.remove_ensures(bj as int);
            assert(c1 == ci);
            assert(c2 == cj);
            let rm2 = old_cs.remove(bj as int).remove(bi as int);
            assert(cs@ == rm2.push(merged));
            lemma_remove2(old_cs, bi as int, bj as int);
            assert(merged.leaf_seq() == la + lb);

            // The exec step performs exactly one specification merge step.
            assert(is_first_min(dv, old_cs, bi as int, bj as int));
            let pw = (bi as int, bj as int);
            assert(is_first_min(dv, old_cs, pw.0, pw.1));
            assert(exists|p: (int, int)| is_first_min(dv, old_cs, p.0, p.1));
            let p = first_min_pair(dv, old_cs);
            assert(is_first_min(dv, old_cs, p.0, p.1));
            lemma_first_min_unique(dv, old_cs, p.0, p.1, bi as int, bj as int);
            assert(merged == merged_pair(dv, ci, cj));
            assert(merge_step(dv, old_cs) == cs@);
            assert(cluster_spec(dv, old_cs) == cluster_spec(dv, cs@));

            // The held indices and the total leaf count do not change.
            lemma_removed_ms(old_cs, bj as int);
            lemma_removed_ms(old_cs.remove(bj as int), bi as int);
            lemma_pushed_ms(rm2, merged);
            vstd::seq_lib::lemma_multiset_commutative(la, lb);
            assert(leaves_ms(cs@) =~= leaves_ms(old_cs));
            assert(total_size(cs@) == total_size(old_cs));

            assert forall|k: int|
                0 <= k < cs@.len() implies (#[trigger] cs@[k]).wf_under(n as int)
                && cs@[k].heights_wf() by {
                if k < cs@.len() - 1 {
                    let fk = if k < bi as int {
                        k
                    } else if k + 1 < bj as int {
                        k + 1
                    } else {
                        k + 2
                    };
                    assert(cs@[k] == rm2[k] && rm2[k] == old_cs[fk]);
                    assert(old_cs[fk].wf_under(n as int) && old_cs[fk].heights_wf());
                } else {
                    assert(cs@[k] == merged);
                    assert forall|t: int|
                        0 <= t < merged.leaf_seq().len() implies 0 <= #[trigger] merged.leaf_seq()[t]
                        < n as int by {
                        if t < la.len() {
                            assert(merged.leaf_seq()[t] == la[t]);
                        } else {
                            assert(merged.leaf_seq()[t] == lb[t - la.len()]);
                        }
                    }
                }
            }

            if sym_matrix(dv) {
                assert(frac_le(thr_n, thr_d, mn, md));
                assert(thr_n * (2 * md) <= mn * (2 * thr_d)) by (nonlinear_arith)
                    requires
                        thr_n * md <= mn * thr_d,
                ;
                assert(frac_le(thr_n, 2 * thr_d, mn, 2 * md));
                assert forall|k: int|
                    0 <= k < cs@.len() implies (#[trigger] cs@[k]).heights_mono()
                    && cs@[k].heights_le(mn, 2 * md) by {
                    if k < cs@.len() - 1 {
                        let fk = if k < bi as int {
                            k
                        } else if k + 1 < bj as int {
                            k + 1
                        } else {
                            k + 2
                        };
                        assert(cs@[k] == rm2[k] && rm2[k] == old_cs[fk]);
                        assert(old_cs[fk].heights_mono() && old_cs[fk].heights_le(
                            thr_n,
                            2 * thr_d,
                        ) && old_cs[fk].heights_wf());
                        cs@[k].lemma_heights_le_mono(thr_n, 2 * thr_d, mn, 2 * md);
                    } else {
                        assert(cs@[k] == merged);
                        ci.lemma_heights_le_mono(thr_n, 2 * thr_d, mn, 2 * md);
                        cj.lemma_heights_le_mono(thr_n, 2 * thr_d, mn, 2 * md);
                        assert(frac_le(h.num as int, h.den as int, mn, 2 * md));
                    }
                }
                assert forall|a: int, b: int|
                    0 <= a < b < cs@.len() implies frac_le(
                        mn,
                        md,
                        #[trigger] link_num(dv, cs@[a], cs@[b]),
                        link_den(cs@[a], cs@[b]),
                    ) by {
                    if b < cs@.len() - 1 {
                        let fa = if a < bi as int {
                            a
                        } else if a + 1 < bj as int {
                            a + 1
                        } else {
                            a + 2
                        };
                        let fb = if b < bi as int {
                            b
                        } else if b + 1 < bj as int {
                            b + 1
                        } else {
                            b + 2
                        };
                        assert(cs@[a] == rm2[a] && rm2[a] == old_cs[fa]);
                        assert(cs@[b] == rm2[b] && rm2[b] == old_cs[fb]);
                        assert(0 <= fa < fb < old_cs.len());
                        assert(frac_le(
                            mn,
                            md,
                            link_num(dv, old_cs[fa], old_cs[fb]),
                            link_den(old_cs[fa], old_cs[fb]),
                        ));
                    } else {
                        assert(cs@[b] == merged);
                        let fa = if a < bi as int {
                            a
                        } else if a + 1 < bj as int {
                            a + 1
                        } else {
                            a + 2
                        };
                        let c = cs@[a];
                        assert(c == rm2[a] && rm2[a] == old_cs[fa]);
                        assert(fa != bi as int && fa != bj as int);
                        let lc = c.leaf_seq();
                        c.lemma_leaf_seq_nonempty();
                        assert(idxs_under(lc, dv.len() as int));
                        assert(idxs_under(la, dv.len() as int));
                        assert(idxs_under(lb, dv.len() as int));
                        if fa < bi as int {
                            assert(frac_le(
                                mn,
                                md,
                                link_num(dv, old_cs[fa], old_cs[bi as int]),
                                link_den(old_cs[fa], old_cs[bi as int]),
                            ));
                        } else {
                            assert(frac_le(
                                mn,
                                md,
                                link_num(dv, old_cs[bi as int], old_cs[fa]),
                                link_den(old_cs[bi as int], old_cs[fa]),
                            ));
                            lemma_cross_sym(dv, la, lc);
                            assert(la.len() * lc.len() == lc.len() * la.len())
                                by (nonlinear_arith);
                        }
                        assert(frac_le(mn, md, cross_sum(dv, lc, la), (lc.len() * la.len()) as int));
                        if fa < bj as int {
                            assert(frac_le(
                                mn,
                                md,
                                link_num(dv, old_cs[fa], old_cs[bj as int]),
                                link_den(old_cs[fa], old_cs[bj as int]),
                            ));
                        } else {
                            assert(frac_le(
                                mn,
                                md,
                                link_num(dv, old_cs[bj as int], old_cs[fa]),
                                link_den(old_cs[bj as int], old_cs[fa]),
                            ));
                            lemma_cross_sym(dv, lb, lc);
                            assert(lb.len() * lc.len() == lc.len() * lb.len())
                                by (nonlinear_arith);
                        }
                        assert(frac_le(mn, md, cross_sum(dv, lc, lb), (lc.len() * lb.len()) as int));
                        lemma_cross_sum_concat_right(dv, lc, la, lb);
                        assert(link_num(dv, c, merged) == cross_sum(dv, lc, la) + cross_sum(
                            dv,
                            lc,
                            lb,
                        ));
                        assert(lc.len() * (la.len() + lb.len()) == lc.len() * la.len() + lc.len()
                            * lb.len()) by (nonlinear_arith);
                        lemma_link_den_pos(c, ci);
                        lemma_link_den_pos(c, cj);
                        lemma_weighted_mean(
                            mn,
                            md,
                            cross_sum(dv, lc, la),
                            (lc.len() * la.len()) as int,
                            cross_sum(dv, lc, lb),
                            (lc.len() * lb.len()) as int,
                        );
                        assert(link_den(c, merged) == (lc.len() * (la.len() + lb.len())) as int);
                    }
                }
                thr_n = mn;
                thr_d = md;
            }
        }
    }
    let ghost fin_cs = cs@;
    let r = cs.remove(0);
    proof {
        broadcast use vstd::seq_lib::group_to_multiset_ensures;
        broadcast use vstd::multiset::group_multiset_axioms;

        assert(fin_cs.drop_last() =~= Seq::<ClusterTree>::empty());
        assert(leaves_ms(Seq::<ClusterTree>::empty()) == Multiset::<int>::empty());
        assert(fin_cs.last() == r);
        assert(leaves_ms(fin_cs) =~= Multiset::<int>::empty().add(r.leaf_seq().to_multiset()));
        assert(r.leaf_seq().to_multiset() =~= idx_seq(n as int).to_multiset());
        assert(r.leaf_seq().to_multiset().len() == idx_seq(n as int).to_multiset().len());
        assert(r.leaf_seq().len() == idx_seq(n as int).len());
        assert(cluster_spec(dv, fin_cs) == fin_cs[0]);
    }
    r
}

} // verus!
