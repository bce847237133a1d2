use vstd::prelude::*;
use crate::frac::Frac;
use crate::tree::ClusterTree;

verus! {

/// The largest supported item count: keeps every sum and product of the
/// linkage arithmetic inside `u64`.
pub const MAX_ITEMS: usize = 0xFFFF;

/// The distance matrix seen as a sequence of rows.
pub open spec fn mat_view(d: Vec<Vec<u32>>) -> Seq<Seq<u32>> {
    d@.map_values(|row: Vec<u32>| row@)
}

/// Every row has the full dimension.
pub open spec fn matrix_wf(d: Seq<Seq<u32>>) -> bool {
    forall|i: int| 0 <= i < d.len() ==> (#[trigger] d[i]).len() == d.len()
}

/// The matrix is symmetric over its index range.
pub open spec fn sym_matrix(d: Seq<Seq<u32>>) -> bool {
    forall|i: int, j: int|
        0 <= i < d.len() && 0 <= j < d.len() ==> #[trigger] d[i][j] == d[j][i]
}

/// All values of `xs` lie in `[0, n)`.
pub open spec fn idxs_under(xs: Seq<int>, n: int) -> bool {
    forall|k: int| 0 <= k < xs.len() ==> 0 <= #[trigger] xs[k] < n
}

/// Sum of the matrix entries from item `a` to each item of `ys`.
pub open spec fn row_sum(d: Seq<Seq<u32>>, a: int, ys: Seq<int>) -> int
    decreases ys.len(),
{
    if ys.len() == 0 {
        0
    } else {
        row_sum(d, a, ys.drop_last()) + d[a][ys.last()]
    }
}

/// Sum of the matrix entries over the full cross product of `xs` and `ys`.
pub open spec fn cross_sum(d: Seq<Seq<u32>>, xs: Seq<int>, ys: Seq<int>) -> int
    decreases xs.len(),
{
    if xs.len() == 0 {
        0
    } else {
        cross_sum(d, xs.drop_last(), ys) + row_sum(d, xs.last(), ys)
    }
}

/// Numerator of the average linkage distance: the total cross distance.
pub open spec fn link_num(d: Seq<Seq<u32>>, a: ClusterTree, b: ClusterTree) -> int {
    cross_sum(d, a.leaf_seq(), b.leaf_seq())
}

/// Denominator of the average linkage distance: the product of the sizes.
pub open spec fn link_den(a: ClusterTree, b: ClusterTree) -> int {
    (a.leaf_seq().len() * b.leaf_seq().len()) as int
}

pub proof fn lemma_row_sum_bounds(d: Seq<Seq<u32>>, a: int, ys: Seq<int>)
    ensures
        0 <= row_sum(d, a, ys) <= ys.len() * (u32::MAX as int),
    decreases ys.len(),
{
    if ys.len() == 0 {
    } else {
        lemma_row_sum_bounds(d, a, ys.drop_last());
    }
}

pub proof fn lemma_cross_sum_bounds(d: Seq<Seq<u32>>, xs: Seq<int>, ys: Seq<int>)
    ensures
        0 <= cross_sum(d, xs, ys) <= xs.len() * ys.len() * (u32::MAX as int),
    decreases xs.len(),
{
    if xs.len() == 0 {
    } else {
        lemma_cross_sum_bounds(d, xs.drop_last(), ys);
        lemma_row_sum_bounds(d, xs.last(), ys);
        assert((xs.len() - 1) * ys.len() * (u32::MAX as int) + ys.len() * (u32::MAX as int)
            == xs.len() * ys.len() * (u32::MAX as int)) by (nonlinear_arith);
    }
}

pub proof fn lemma_row_sum_concat(d: Seq<Seq<u32>>, a: int, ys1: Seq<int>, ys2: Seq<int>)
    ensures
        row_sum(d, a, ys1 + ys2) == row_sum(d, a, ys1) + row_sum(d, a, ys2),
    decreases ys2.len(),
{
    if ys2.len() == 0 {
        assert(ys1 + ys2 =~= ys1);
    } else {
        lemma_row_sum_concat(d, a, ys1, ys2.drop_last());
        assert((ys1 + ys2).drop_last() =~= ys1 + ys2.drop_last());
        assert((ys1 + ys2).last() == ys2.last());
    }
}

pub proof fn lemma_cross_sum_concat_right(d: Seq<Seq<u32>>, xs: Seq<int>, ys1: Seq<int>, ys2: Seq<int>)
    ensures
        cross_sum(d, xs, ys1 + ys2) == cross_sum(d, xs, ys1) + cross_sum(d, xs, ys2),
    decreases xs.len(),
{
    if xs.len() == 0 {
    } else {
        lemma_cross_sum_concat_right(d, xs.drop_last(), ys1, ys2);
        lemma_row_sum_concat(d, xs.last(), ys1, ys2);
    }
}

pub proof fn lemma_cross_empty_right(d: Seq<Seq<u32>>, xs: Seq<int>)
    ensures
        cross_sum(d, xs, Seq::<int>::empty()) == 0,
    decreases xs.len(),
{
    if xs.len() == 0 {
    } else {
        lemma_cross_empty_right(d, xs.drop_last());
    }
}

proof fn lemma_cross_single(d: Seq<Seq<u32>>, ys: Seq<int>, b: int)
    requires
        sym_matrix(d),
        idxs_under(ys, d.len() as int),
        0 <= b < d.len(),
    ensures
        cross_sum(d, ys, seq![b]) == row_sum(d, b, ys),
    decreases ys.len(),
{
    if ys.len() == 0 {
    } else {
        assert(idxs_under(ys.drop_last(), d.len() as int));
        lemma_cross_single(d, ys.drop_last(), b);
        assert(seq![b].drop_last() =~= Seq::<int>::empty());
        assert(ys.last() == ys[ys.len() - 1]);
        assert(0 <= ys.last() < d.len());
        assert(seq![b].last() == b);
        assert(row_sum(d, ys.last(), Seq::<int>::empty()) == 0);
        assert(row_sum(d, ys.last(), seq![b]) == d[ys.last()][b]);
        assert(d[ys.last()][b] == d[b][ys.last()]);
        assert(cross_sum(d, ys, seq![b])
            == cross_sum(d, ys.drop_last(), seq![b]) + row_sum(d, ys.last(), seq![b]));
        assert(row_sum(d, b, ys) == row_sum(d, b, ys.drop_last()) + d[b][ys.last()]);
    }
}

/// For a symmetric matrix the cross sum does not depend on the order of the
/// two clusters.
pub proof fn lemma_cross_sym(d: Seq<Seq<u32>>, xs: Seq<int>, ys: Seq<int>)
    requires
        sym_matrix(d),
        idxs_under(xs, d.len() as int),
        idxs_under(ys, d.len() as int),
    ensures
        cross_sum(d, xs, ys) == cross_sum(d, ys, xs),
    decreases xs.len(),
{
    if xs.len() == 0 {
        assert(xs =~= Seq::<int>::empty());
        lemma_cross_empty_right(d, ys);
    } else {
        assert(idxs_under(xs.drop_last(), d.len() as int));
        lemma_cross_sym(d, xs.drop_last(), ys);
        assert(xs.last() == xs[xs.len() - 1]);
        assert(0 <= xs.last() < d.len());
        lemma_cross_single(d, ys, xs.last());
        lemma_cross_sum_concat_right(d, ys, xs.drop_last(), seq![xs.last()]);
        assert(xs.drop_last() + seq![xs.last()] =~= xs);
        assert(cross_sum(d, xs, ys)
            == cross_sum(d, xs.drop_last(), ys) + row_sum(d, xs.last(), ys));
        assert(cross_sum(d, ys, xs.drop_last() + seq![xs.last()])
            == cross_sum(d, ys, xs.drop_last()) + cross_sum(d, ys, seq![xs.last()]));
        assert(cross_sum(d, ys, xs)
            == cross_sum(d, ys, xs.drop_last()) + cross_sum(d, ys, seq![xs.last()]));
        assert(cross_sum(d, ys, seq![xs.last()]) == row_sum(d, xs.last(), ys));
        assert(cross_sum(d, xs.drop_last(), ys) == cross_sum(d, ys, xs.drop_last()));
    }
}

/// `d2` is `d` with its rows and columns both permuted by `p`:
/// `d2[i][j] == d[p[i]][p[j]]` over the whole index range.
pub open spec fn relabeled_matrix(d: Seq<Seq<u32>>, d2: Seq<Seq<u32>>, p: Seq<int>) -> bool {
    &&& d2.len() == d.len()
    &&& p.len() == d.len()
    &&& idxs_under(p, d.len() as int)
    &&& forall|i: int, j: int|
        0 <= i < d.len() && 0 <= j < d.len() ==> #[trigger] d2[i][j] == d[p[i]][p[j]]
}

/// The tree with every leaf index sent through `p`; the shape and the
/// heights stay as they are.
pub open spec fn relabel(t: ClusterTree, p: Seq<int>) -> ClusterTree
    decreases t,
{
    match t {
        ClusterTree::Leaf(i) => ClusterTree::Leaf(p[i as int] as usize),
        ClusterTree::Merge(l, r, h) => ClusterTree::Merge(
            Box::new(relabel(*l, p)),
            Box::new(relabel(*r, p)),
            h,
        ),
    }
}

/// Every value of `xs` sent through the table `p`.
pub open spec fn map_idx(xs: Seq<int>, p: Seq<int>) -> Seq<int> {
    Seq::new(xs.len(), |k: int| p[xs[k]])
}

pub proof fn lemma_relabel_leaf_seq(t: ClusterTree, p: Seq<int>)
    requires
        p.len() <= usize::MAX,
        t.wf_under(p.len() as int),
        idxs_under(p, p.len() as int),
    ensures
        relabel(t, p).leaf_seq() == map_idx(t.leaf_seq(), p),
    decreases t,
{
    match t {
        ClusterTree::Leaf(i) => {
            assert(t.leaf_seq()[0] == i as int);
            assert(0 <= p[i as int] < p.len());
            assert(relabel(t, p).leaf_seq() =~= map_idx(t.leaf_seq(), p));
        }
        ClusterTree::Merge(l, r, _) => {
            assert forall|k: int|
                0 <= k < (*l).leaf_seq().len() implies 0 <= #[trigger] (*l).leaf_seq()[k]
                < p.len() by {
                assert(t.leaf_seq()[k] == (*l).leaf_seq()[k]);
            }
            assert forall|k: int|
                0 <= k < (*r).leaf_seq().len() implies 0 <= #[trigger] (*r).leaf_seq()[k]
                < p.len() by {
                assert(t.leaf_seq()[(*l).leaf_seq().len() + k] == (*r).leaf_seq()[k]);
            }
            lemma_relabel_leaf_seq(*l, p);
            lemma_relabel_leaf_seq(*r, p);
            assert(relabel(t, p).leaf_seq() == relabel(*l, p).leaf_seq() + relabel(
                *r,
                p,
            ).leaf_seq());
            assert(map_idx(t.leaf_seq(), p) =~= map_idx((*l).leaf_seq(), p) + map_idx(
                (*r).leaf_seq(),
                p,
            ));
            assert(relabel(t, p).leaf_seq() =~= map_idx(t.leaf_seq(), p));
        }
    }
}

proof fn lemma_row_sum_relabel(d: Seq<Seq<u32>>, d2: Seq<Seq<u32>>, p: Seq<int>, a: int, ys: Seq<int>)
    requires
        relabeled_matrix(d, d2, p),
        0 <= a < d.len(),
        idxs_under(ys, d.len() as int),
    ensures
        row_sum(d2, a, ys) == row_sum(d, p[a], map_idx(ys, p)),
    decreases ys.len(),
{
    if ys.len() == 0 {
        assert(map_idx(ys, p).len() == 0);
    } else {
        assert(idxs_under(ys.drop_last(), d.len() as int));
        lemma_row_sum_relabel(d, d2, p, a, ys.drop_last());
        assert(map_idx(ys, p).drop_last() =~= map_idx(ys.drop_last(), p));
        assert(map_idx(ys, p).last() == p[ys.last()]);
        assert(ys.last() == ys[ys.len() - 1]);
        assert(0 <= ys.last() < d.len());
        assert(d2[a][ys.last()] == d[p[a]][p[ys.last()]]);
    }
}

proof fn lemma_cross_sum_relabel(
    d: Seq<Seq<u32>>,
    d2: Seq<Seq<u32>>,
    p: Seq<int>,
    xs: Seq<int>,
    ys: Seq<int>,
)
    requires
        relabeled_matrix(d, d2, p),
        idxs_under(xs, d.len() as int),
        idxs_under(ys, d.len() as int),
    ensures
        cross_sum(d2, xs, ys) == cross_sum(d, map_idx(xs, p), map_idx(ys, p)),
    decreases xs.len(),
{
    if xs.len() == 0 {
        assert(map_idx(xs, p).len() == 0);
    } else {
        assert(idxs_under(xs.drop_last(), d.len() as int));
        lemma_cross_sum_relabel(d, d2, p, xs.drop_last(), ys);
        assert(xs.last() == xs[xs.len() - 1]);
        assert(0 <= xs.last() < d.len());
        lemma_row_sum_relabel(d, d2, p, xs.last(), ys);
        assert(map_idx(xs, p).drop_last() =~= map_idx(xs.drop_last(), p));
        assert(map_idx(xs, p).last() == p[xs.last()]);
    }
}

/// Relabeling invariance of the height computation: the linkage distance of
/// two clusters under the permuted matrix equals the linkage distance of the
/// relabeled clusters under the original matrix, numerator and denominator
/// both, so corresponding merges record the same height.
pub proof fn lemma_linkage_relabel(
    d: Seq<Seq<u32>>,
    d2: Seq<Seq<u32>>,
    p: Seq<int>,
    a: ClusterTree,
    b: ClusterTree,
)
    requires
        relabeled_matrix(d, d2, p),
        d.len() <= usize::MAX,
        a.wf_under(d.len() as int),
        b.wf_under(d.len() as int),
    ensures
        link_num(d2, a, b) == link_num(d, relabel(a, p), relabel(b, p)),
        link_den(a, b) == link_den(relabel(a, p), relabel(b, p)),
{
    lemma_relabel_leaf_seq(a, p);
    lemma_relabel_leaf_seq(b, p);
    lemma_cross_sum_relabel(d, d2, p, a.leaf_seq(), b.leaf_seq());
}

fn row_total(d: &Vec<Vec<u32>>, x: usize, ys: &Vec<usize>) -> (r: u64)
    requires
        matrix_wf(mat_view(*d)),
        (x as int) < mat_view(*d).len(),
        idxs_under(ys@.map_values(|y: usize| y as int), mat_view(*d).len() as int),
        ys@.len() <= MAX_ITEMS,
    ensures
        r as int == row_sum(mat_view(*d), x as int, ys@.map_values(|y: usize| y as int)),
{
    let ghost dv = mat_view(*d);
    let ghost ysv = ys@.map_values(|y: usize| y as int);
    let mut total: u64 = 0;
    let mut j: usize = 0;
    while j < ys.len()
        invariant
            j <= ys.len(),
            dv == mat_view(*d),
            ysv == ys@.map_values(|y: usize| y as int),
            matrix_wf(dv),
            (x as int) < dv.len(),
            idxs_under(ysv, dv.len() as int),
            ys@.len() <= MAX_ITEMS,
            total as int == row_sum(dv, x as int, ysv.take(j as int)),
        decreases ys@.len() - j,
    {
        proof {
            lemma_row_sum_bounds(dv, x as int, ysv.take(j as int));
            assert(ysv.take(j + 1).drop_last() =~= ysv.take(j as int));
            assert(ysv.take(j + 1).last() == ysv[j as int]);
        }
        let y = ys[j];
        let e = d[x][y];
        total = total + (e as u64);
        j = j + 1;
    }
    proof {
        assert(ysv.take(ys@.len() as int) =~= ysv);
    }
    total
}

/// The average linkage distance between two clusters: the sum of all
/// pairwise distances between their items, over the product of their sizes.
/// The exact rational is returned unreduced.
pub fn average_linkage(d: &Vec<Vec<u32>>, a: &ClusterTree, b: &ClusterTree) -> (r: Frac)
    requires
        matrix_wf(mat_view(*d)),
        mat_view(*d).len() <= MAX_ITEMS,
        a.wf_under(mat_view(*d).len() as int),
        b.wf_under(mat_view(*d).len() as int),
        1 <= a.leaf_seq().len() <= MAX_ITEMS,
        1 <= b.leaf_seq().len() <= MAX_ITEMS,
    ensures
        r.num as int == link_num(mat_view(*d), *a, *b),
        r.den as int == link_den(*a, *b),
        1 <= r.den,
{
    let ghost dv = mat_view(*d);
    let xs = a.leaf_indices();
    let ys = b.leaf_indices();
    let ghost xsv = xs@.map_values(|x: usize| x as int);
    let ghost ysv = ys@.map_values(|y: usize| y as int);
    let mut total: u64 = 0;
    let mut i: usize = 0;
    while i < xs.len()
        invariant
            i <= xs.len(),
            dv == mat_view(*d),
            xsv == xs@.map_values(|x: usize| x as int),
            ysv == ys@.map_values(|y: usize| y as int),
            xsv == a.leaf_seq(),
            ysv == b.leaf_seq(),
            matrix_wf(dv),
            dv.len() <= MAX_ITEMS,
            idxs_under(xsv, dv.len() as int),
            idxs_under(ysv, dv.len() as int),
            xs@.len() <= MAX_ITEMS,
            ys@.len() <= MAX_ITEMS,
            total as int == cross_sum(dv, xsv.take(i as int), ysv),
        decreases xs@.len() - i,
    {
        proof {
            assert(xsv[i as int] == xs@[i as int] as int);
            assert(0 <= xsv[i as int] < dv.len());
        }
        let rs = row_total(d, xs[i], &ys);
        proof {
            lemma_cross_sum_bounds(dv, xsv.take(i as int), ysv);
            lemma_row_sum_bounds(dv, xsv[i as int], ysv);
            assert(xsv.take(i + 1).drop_last() =~= xsv.take(i as int));
            assert(xsv.take(i + 1).last() == xsv[i as int]);
            assert((i as int) * ysv.len() * (u32::MAX as int) + ysv.len() * (u32::MAX as int)
                <= (MAX_ITEMS as int) * (MAX_ITEMS as int) * (u32::MAX as int))
                by (nonlinear_arith)
                requires
                    0 <= (i as int) < MAX_ITEMS as int,
                    0 <= ysv.len() <= MAX_ITEMS as int,
            ;
        }
        total = total + rs;
        i = i + 1;
    }
    proof {
        assert(xsv.take(xs@.len() as int) =~= xsv);
    }
    let sa = xs.len();
    let sb = ys.len();
    proof {
        assert((sa as int) * (sb as int) <= (MAX_ITEMS as int) * (MAX_ITEMS as int))
            by (nonlinear_arith)
            requires
                1 <= sa as int <= MAX_ITEMS as int,
                1 <= sb as int <= MAX_ITEMS as int,
        ;
        assert((sa as int) * (sb as int) >= 1) by (nonlinear_arith)
            requires
                1 <= sa as int,
                1 <= sb as int,
        ;
    }
    let den = (sa as u64) * (sb as u64);
    Frac { num: total, den }
}

} // verus!
