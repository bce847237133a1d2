use vstd::prelude::*;
use vstd::string::{StringExecFns, StrSliceExecFns};
use crate::frac::{frac_text, lemma_frac_text_nonempty};
use crate::tree::ClusterTree;

verus! {

/// Horizontal branch character of the dendrogram art.
pub const HORIZ: char = '\u{2500}';

/// Vertical bar character of the dendrogram art.
pub const VERT: char = '\u{2502}';

/// Corner character that opens the lower branch.
pub const CORNER: char = '\u{2514}';

/// Label lookup failed: the leaf index lies outside the label table.
#[derive(Debug, Clone, Copy, PartialEq, Eq, Structural)]
pub enum RenderError {
    UnknownIndex(usize),
}

impl RenderError {
    pub open spec fn index_spec(self) -> int {
        match self {
            RenderError::UnknownIndex(i) => i as int,
        }
    }
}

/// `k` copies of the character `c` (none for a negative count).
pub open spec fn rep_char(c: char, k: int) -> Seq<char> {
    Seq::new(
        (if k < 0 {
            0
        } else {
            k
        }) as nat,
        |_i: int| c,
    )
}

/// The length, in characters, of the longest line.
pub open spec fn max_width(lines: Seq<Seq<char>>) -> int
    decreases lines.len(),
{
    if lines.len() == 0 {
        0
    } else {
        let m = max_width(lines.drop_last());
        if lines.last().len() > m {
            lines.last().len() as int
        } else {
            m
        }
    }
}

pub proof fn lemma_max_width_ge(lines: Seq<Seq<char>>, k: int)
    requires
        0 <= k < lines.len(),
    ensures
        lines[k].len() <= max_width(lines),
        max_width(lines) >= 0,
    decreases lines.len(),
{
    if lines.len() > 0 {
        if k == lines.len() - 1 {
            if lines.len() > 1 {
                lemma_max_width_ge(lines.drop_last(), 0);
            }
        } else {
            lemma_max_width_ge(lines.drop_last(), k);
            assert(lines.drop_last()[k] == lines[k]);
        }
    }
}

/// The lines of the upper subtree: its first line is joined to the height
/// label by a branch character, its line right-justified in a `w`-wide field
/// filled with branch characters; every later line stands behind a vertical
/// bar and a space, right-justified with space fill.
pub open spec fn left_block(lab: Seq<char>, ls: Seq<Seq<char>>, w: int) -> Seq<Seq<char>> {
    Seq::new(
        ls.len(),
        |k: int|
            if k == 0 {
                lab + seq![HORIZ] + rep_char(HORIZ, w - ls[0].len()) + ls[0]
            } else {
                seq![VERT] + rep_char(' ', lab.len() - 1) + seq![' '] + rep_char(
                    ' ',
                    w - ls[k].len(),
                ) + ls[k]
            },
    )
}

/// The lines of the lower subtree: its first line hangs off a corner filled
/// with branch characters to the label's width, its line right-justified with
/// branch fill; every later line stands behind spaces of the same width.
pub open spec fn right_block(lab: Seq<char>, rs: Seq<Seq<char>>, w: int) -> Seq<Seq<char>> {
    Seq::new(
        rs.len(),
        |k: int|
            if k == 0 {
                seq![CORNER] + rep_char(HORIZ, lab.len() - 1) + seq![HORIZ] + rep_char(
                    HORIZ,
                    w - rs[0].len(),
                ) + rs[0]
            } else {
                rep_char(' ', lab.len() as int) + seq![' '] + rep_char(' ', w - rs[k].len()) + rs[k]
            },
    )
}

/// The rendering of one merge: the upper block over the lower block, both
/// laid out against the width of the widest line of either subtree.
pub open spec fn merge_lines(lab: Seq<char>, ls: Seq<Seq<char>>, rs: Seq<Seq<char>>) -> Seq<
    Seq<char>,
> {
    let w = if max_width(ls) > max_width(rs) {
        max_width(ls)
    } else {
        max_width(rs)
    };
    left_block(lab, ls, w) + right_block(lab, rs, w)
}

/// The full dendrogram text of a tree: a leaf renders as its label, a merge
/// as the merge of its children's renderings under its height label.
pub open spec fn render_spec(t: ClusterTree, labels: Seq<Seq<char>>) -> Seq<Seq<char>>
    decreases t,
{
    match t {
        ClusterTree::Leaf(i) => seq![labels[i as int]],
        ClusterTree::Merge(l, r, h) => merge_lines(
            frac_text(h),
            render_spec(*l, labels),
            render_spec(*r, labels),
        ),
    }
}

/// One rendered line per leaf.
pub proof fn lemma_render_len(t: ClusterTree, labels: Seq<Seq<char>>)
    ensures
        render_spec(t, labels).len() == t.leaf_seq().len(),
    decreases t,
{
    match t {
        ClusterTree::Leaf(_) => {}
        ClusterTree::Merge(l, r, _) => {
            lemma_render_len(*l, labels);
            lemma_render_len(*r, labels);
        }
    }
}

/// A single item needs no merge: it clusters to its own leaf, and that leaf
/// renders as exactly one line, the item's label.
pub proof fn lemma_single_item(d: Seq<Seq<u32>>, labels: Seq<Seq<char>>)
    ensures
        crate::agglomerate::cluster_spec(d, crate::agglomerate::init_leaves(1))
            == ClusterTree::Leaf(0usize),
        render_spec(ClusterTree::Leaf(0usize), labels) == seq![labels[0]],
{
    assert(crate::agglomerate::init_leaves(1).len() == 1);
    assert(crate::agglomerate::init_leaves(1)[0] == ClusterTree::Leaf(0usize));
}

/// The views of a sequence of strings.
pub open spec fn strs_view(v: Seq<String>) -> Seq<Seq<char>> {
    v.map_values(|s: String| s@)
}

/// `ix` is the first leaf index, in traversal order, that the label table of
/// size `m` does not cover.
pub open spec fn first_bad_index(t: ClusterTree, m: int, ix: int) -> bool {
    exists|k: int|
        0 <= k < t.leaf_seq().len() && #[trigger] t.leaf_seq()[k] == ix && ix >= m && (forall|
            q: int,
        |
            0 <= q < k ==> t.leaf_seq()[q] < m)
}

fn push_repeat(s: &mut String, piece: &str, count: usize)
    requires
        piece@.len() == 1,
    ensures
        final(s)@ == old(s)@ + rep_char(piece@[0], count as int),
{
    let mut k: usize = 0;
    proof {
        assert(s@ =~= old(s)@ + rep_char(piece@[0], 0));
    }
    while k < count
        invariant
            k <= count,
            piece@.len() == 1,
            s@ == old(s)@ + rep_char(piece@[0], k as int),
        decreases count - k,
    {
        s.append(piece);
        proof {
            assert(s@ =~= old(s)@ + rep_char(piece@[0], k as int + 1));
        }
        k = k + 1;
    }
}

fn pad_line(head: String, fill: &str, w: usize, line: &str) -> (r: String)
    requires
        fill@.len() == 1,
        line@.len() <= w,
    ensures
        r@ == head@ + rep_char(fill@[0], w - line@.len()) + line@,
{
    let mut s = head;
    let ll = line.unicode_len();
    push_repeat(&mut s, fill, w - ll);
    s.append(line);
    s
}

impl ClusterTree {
    /// The dendrogram text of this tree, one line per leaf, under the given
    /// label table.  Fails with the first uncovered leaf index, in traversal
    /// order, when the table is too small.
    pub fn render_lines(&self, labels: &Vec<String>) -> (r: Result<Vec<String>, RenderError>)
        requires
            self.heights_wf(),
        ensures
            r is Ok <==> self.wf_under(labels@.len() as int),
            (r matches Ok(lines) ==> strs_view(lines@) == render_spec(*self, strs_view(labels@))),
            (r matches Err(e) ==> first_bad_index(*self, labels@.len() as int, e.index_spec())),
        decreases self,
    {
        let ghost labv = strs_view(labels@);
        match self {
            ClusterTree::Leaf(i) => {
                if *i < labels.len() {
                    let mut v: Vec<String> = Vec::new();
                    v.push(labels[*i].clone());
                    proof {
                        assert(strs_view(v@) =~= render_spec(*self, labv));
                    }
                    Ok(v)
                } else {
                    proof {
                        assert(self.leaf_seq()[0] == *i as int);
                    }
                    Err(RenderError::UnknownIndex(*i))
                }
            }
            ClusterTree::Merge(l, rt, h) => {
                proof {
                    reveal_strlit("\u{2500}");
                    reveal_strlit("\u{2502}");
                    reveal_strlit("\u{2514}");
                    reveal_strlit(" ");
                }
                let ghost m = labels@.len() as int;
                let lres = l.render_lines(labels);
                let left: Vec<String> = match lres {
                    Ok(v) => v,
                    Err(e) => {
                        proof {
                            let k = choose|k: int|
                                0 <= k < l.leaf_seq().len() && #[trigger] l.leaf_seq()[k]
                                    == e.index_spec() && e.index_spec() >= m && (forall|q: int|
                                    0 <= q < k ==> l.leaf_seq()[q] < m);
                            assert(self.leaf_seq()[k] == l.leaf_seq()[k]);
                            assert forall|q: int| 0 <= q < k implies self.leaf_seq()[q] < m by {
                                assert(self.leaf_seq()[q] == l.leaf_seq()[q]);
                            }
                            assert(first_bad_index(*self, m, e.index_spec()));
                        }
                        return Err(e);
                    }
                };
                let rres = rt.render_lines(labels);
                let right: Vec<String> = match rres {
                    Ok(v) => v,
                    Err(e) => {
                        proof {
                            let la = l.leaf_seq();
                            let k = choose|k: int|
                                0 <= k < rt.leaf_seq().len() && #[trigger] rt.leaf_seq()[k]
                                    == e.index_spec() && e.index_spec() >= m && (forall|q: int|
                                    0 <= q < k ==> rt.leaf_seq()[q] < m);
                            let kk = la.len() + k;
                            assert(self.leaf_seq()[kk as int] == rt.leaf_seq()[k]);
                            assert forall|q: int| 0 <= q < kk implies self.leaf_seq()[q] < m by {
                                if q < la.len() {
                                    assert(self.leaf_seq()[q] == la[q]);
                                } else {
                                    assert(self.leaf_seq()[q] == rt.leaf_seq()[q - la.len()]);
                                }
                            }
                            assert(first_bad_index(*self, m, e.index_spec()));
                        }
                        return Err(e);
                    }
                };
                let ghost lsv = strs_view(left@);
                let ghost rsv = strs_view(right@);

                // the widest line of either subtree
                let mut w: usize = 0;
                let mut k: usize = 0;
                while k < left.len()
                    invariant
                        k <= left@.len(),
                        lsv == strs_view(left@),
                        w as int == max_width(lsv.take(k as int)),
                    decreases left@.len() - k,
                {
                    proof {
                        assert(lsv.take(k as int + 1).drop_last() =~= lsv.take(k as int));
                        assert(lsv.take(k as int + 1).last() == lsv[k as int]);
                    }
                    let ll = left[k].as_str().unicode_len();
                    if ll > w {
                        w = ll;
                    }
                    k = k + 1;
                }
                proof {
                    assert(lsv.take(left@.len() as int) =~= lsv);
                }
                let ghost wl = w as int;
                let mut k2: usize = 0;
                while k2 < right.len()
                    invariant
                        k2 <= right@.len(),
                        rsv == strs_view(right@),
                        wl == max_width(lsv),
                        wl <= w as int,
                        w as int == (if wl > max_width(rsv.take(k2 as int)) {
                            wl
                        } else {
                            max_width(rsv.take(k2 as int))
                        }),
                    decreases right@.len() - k2,
                {
                    proof {
                        assert(rsv.take(k2 as int + 1).drop_last() =~= rsv.take(k2 as int));
                        assert(rsv.take(k2 as int + 1).last() == rsv[k2 as int]);
                    }
                    let ll = right[k2].as_str().unicode_len();
                    if ll > w {
                        w = ll;
                    }
                    k2 = k2 + 1;
                }
                proof {
                    assert(rsv.take(right@.len() as int) =~= rsv);
                }
                let ghost wspec = (if max_width(lsv) > max_width(rsv) {
                    max_width(lsv)
                } else {
                    max_width(rsv)
                });
                proof {
                    assert(w as int == wspec);
                }

                let lab = h.to_text();
                let lab_len = lab.as_str().unicode_len();
                proof {
                    lemma_frac_text_nonempty(*h);
                    assert forall|t: int| 0 <= t < lsv.len() implies #[trigger] lsv[t].len()
                        <= w as int by {
                        lemma_max_width_ge(lsv, t);
                    }
                    assert forall|t: int| 0 <= t < rsv.len() implies #[trigger] rsv[t].len()
                        <= w as int by {
                        lemma_max_width_ge(rsv, t);
                    }
                }
                let ghost labt = frac_text(*h);

                let mut out: Vec<String> = Vec::new();
                let mut k3: usize = 0;
                while k3 < left.len()
                    invariant
                        k3 <= left@.len(),
                        lsv == strs_view(left@),
                        labt == frac_text(*h),
                        lab@ == labt,
                        labt.len() >= 1,
                        lab_len == labt.len(),
                        w as int == wspec,
                        forall|t: int| 0 <= t < lsv.len() ==> #[trigger] lsv[t].len() <= w as int,
                        out@.len() == k3,
                        strs_view(out@) == left_block(labt, lsv, wspec).take(k3 as int),
                    decreases left@.len() - k3,
                {
                    proof {
                        reveal_strlit("\u{2500}");
                        reveal_strlit("\u{2502}");
                        reveal_strlit(" ");
                        lemma_max_width_ge(lsv, k3 as int);
                    }
                    let line: String = if k3 == 0 {
                        let mut hd = String::new();
                        hd.append(lab.as_str());
                        hd.append("\u{2500}");
                        proof {
                            reveal_strlit("\u{2500}");
                            assert(hd@ =~= labt + seq![HORIZ]);
                        }
                        pad_line(hd, "\u{2500}", w, left[k3].as_str())
                    } else {
                        let mut hd = String::new();
                        hd.append("\u{2502}");
                        proof {
                            reveal_strlit("\u{2502}");
                        }
                        push_repeat(&mut hd, " ", lab_len - 1);
                        hd.append(" ");
                        proof {
                            reveal_strlit(" ");
                            assert(hd@ =~= seq![VERT] + rep_char(' ', labt.len() - 1)
                                + seq![' ']);
                        }
                        pad_line(hd, " ", w, left[k3].as_str())
                    };
                    proof {
                        assert(line@ =~= left_block(labt, lsv, wspec)[k3 as int]);
                    }
                    let ghost prev = out@;
                    out.push(line);
                    proof {
                        assert(strs_view(out@) =~= strs_view(prev).push(line@));
                        assert(left_block(labt, lsv, wspec).take(k3 as int + 1) =~= left_block(
                            labt,
                            lsv,
                            wspec,
                        ).take(k3 as int).push(left_block(labt, lsv, wspec)[k3 as int]));
                        assert(strs_view(out@) =~= left_block(labt, lsv, wspec).take(
                            k3 as int + 1,
                        ));
                    }
                    k3 = k3 + 1;
                }
                proof {
                    assert(left_block(labt, lsv, wspec).take(left@.len() as int) =~= left_block(
                        labt,
                        lsv,
                        wspec,
                    ));
                }
                let mut k4: usize = 0;
                while k4 < right.len()
                    invariant
                        k4 <= right@.len(),
                        lsv == strs_view(left@),
                        rsv == strs_view(right@),
                        labt == frac_text(*h),
                        lab@ == labt,
                        labt.len() >= 1,
                        lab_len == labt.len(),
                        w as int == wspec,
                        forall|t: int| 0 <= t < rsv.len() ==> #[trigger] rsv[t].len() <= w as int,
                        out@.len() == left@.len() + k4,
                        strs_view(out@) == left_block(labt, lsv, wspec) + right_block(
                            labt,
                            rsv,
                            wspec,
                        ).take(k4 as int),
                    decreases right@.len() - k4,
                {
                    proof {
                        reveal_strlit("\u{2500}");
                        reveal_strlit("\u{2514}");
                        reveal_strlit(" ");
                        lemma_max_width_ge(rsv, k4 as int);
                    }
                    let line: String = if k4 == 0 {
                        let mut hd = String::new();
                        hd.append("\u{2514}");
                        proof {
                            reveal_strlit("\u{2514}");
                        }
                        push_repeat(&mut hd, "\u{2500}", lab_len - 1);
                        hd.append("\u{2500}");
                        proof {
                            reveal_strlit("\u{2500}");
                            assert(hd@ =~= seq![CORNER] + rep_char(HORIZ, labt.len() - 1)
                                + seq![HORIZ]);
                        }
                        pad_line(hd, "\u{2500}", w, right[k4].as_str())
                    } else {
                        let mut hd = String::new();
                        push_repeat(&mut hd, " ", lab_len);
                        hd.append(" ");
                        proof {
                            reveal_strlit(" ");
                            assert(hd@ =~= rep_char(' ', labt.len() as int) + seq![' ']);
                        }
                        pad_line(hd, " ", w, right[k4].as_str())
                    };
                    proof {
                        assert(line@ =~= right_block(labt, rsv, wspec)[k4 as int]);
                    }
                    let ghost prev = out@;
                    out.push(line);
                    proof {
                        assert(strs_view(out@) =~= strs_view(prev).push(line@));
                        assert(right_block(labt, rsv, wspec).take(k4 as int + 1) =~= right_block(
                            labt,
                            rsv,
                            wspec,
                        ).take(k4 as int).push(right_block(labt, rsv, wspec)[k4 as int]));
                        assert(strs_view(out@) =~= left_block(labt, lsv, wspec) + right_block(
                            labt,
                            rsv,
                            wspec,
                        ).take(k4 as int + 1));
                    }
                    k4 = k4 + 1;
                }
                proof {
                    assert(right_block(labt, rsv, wspec).take(right@.len() as int) =~= right_block(
                        labt,
                        rsv,
                        wspec,
                    ));
                    assert(strs_view(out@) == render_spec(*self, labv));
                    assert forall|t: int|
                        0 <= t < self.leaf_seq().len() implies 0 <= #[trigger] self.leaf_seq()[t]
                        < m by {
                        let la = l.leaf_seq();
                        if t < la.len() {
                            assert(self.leaf_seq()[t] == la[t]);
                        } else {
                            assert(self.leaf_seq()[t] == rt.leaf_seq()[t - la.len()]);
                        }
                    }
                }
                Ok(out)
            }
        }
    }
}

} // verus!
