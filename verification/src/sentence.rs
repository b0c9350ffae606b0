//! The lattice of edits between one source sentence and one hypothesis.

use vstd::prelude::*;
use crate::align::{Vertex, lev, cell_preds, filled_rows, preds_view, levenshtein_matrix};
use crate::edit::{Edit, EditView};
use crate::graph::{BfsState, bfs_run, bfs_order, pred_vertices, ArcView, EditGraph, GraphView, preds_at, arcs_into, arcs_into_all, backpointer_table, distinct_preds, build_edit_graph, merge_graphs, merged_arc, built_from, merge_of, lemma_merge_unique, lemma_wf_single_valued};
use crate::closure::{arc_in_lattice, in_lattice, transitive_arcs, transitive_closure, lemma_lattice_closure_fits};

verus! {

proof fn lemma_cell_preds_shape(
    first: Seq<Seq<char>>,
    second: Seq<Seq<char>>,
    ci: int,
    cd: int,
    cs: int,
    i: nat,
    j: nat,
)
    requires
        i <= first.len(),
        j <= second.len(),
        first.len() < u32::MAX,
        second.len() < u32::MAX,
    ensures
        ({
            let cp = cell_preds(first, second, ci, cd, cs, i, j);
            &&& forall|k: int|
                0 <= k < cp.len() ==> {
                    let p = (#[trigger] cp[k]).0;
                    let e = cp[k].1;
                    &&& p.0 <= i
                    &&& p.1 <= j
                    &&& (p.0 < i || p.1 < j)
                    &&& e.start == p.0
                    &&& e.end == i
                    &&& e.unchanged_words <= i - p.0
                }
            &&& forall|k1: int, k2: int|
                0 <= k1 < cp.len() && 0 <= k2 < cp.len() && k1 != k2 ==> (#[trigger] cp[k1]).0 != (#[trigger] cp[k2]).0
        }),
{
    let cp = cell_preds(first, second, ci, cd, cs, i, j);
    if i > 0 && j > 0 {
        let best = lev(first, second, ci, cd, cs, i, j);
        let sub_val = lev(first, second, ci, cd, cs, (i - 1) as nat, (j - 1) as nat)
            + crate::align::sub_cost(first, second, cs, i as int, j as int);
        let del_val = lev(first, second, ci, cd, cs, (i - 1) as nat, j) + cd;
        let ins_val = lev(first, second, ci, cd, cs, i, (j - 1) as nat) + ci;
        let s1 = if sub_val == best {
            seq![(((i - 1) as usize, (j - 1) as usize), crate::align::sub_edit(first, second, i as int, j as int))]
        } else {
            Seq::<(Vertex, EditView)>::empty()
        };
        let s2 = if del_val == best {
            seq![(((i - 1) as usize, j as usize), crate::align::del_edit(first, i as int))]
        } else {
            Seq::<(Vertex, EditView)>::empty()
        };
        let s3 = if ins_val == best {
            seq![((i as usize, (j - 1) as usize), crate::align::ins_edit(second, i as int, j as int))]
        } else {
            Seq::<(Vertex, EditView)>::empty()
        };
        assert(cp == s1 + s2 + s3);
        assert forall|k: int| 0 <= k < cp.len() implies ({
            let p = (#[trigger] cp[k]).0;
            let e = cp[k].1;
            &&& p.0 <= i
            &&& p.1 <= j
            &&& (p.0 < i || p.1 < j)
            &&& e.start == p.0
            &&& e.end == i
            &&& e.unchanged_words <= i - p.0
        }) by {
            if k < s1.len() {
                assert(cp[k] == s1[k]);
            } else if k < s1.len() + s2.len() {
                assert(cp[k] == s2[k - s1.len()]);
            } else {
                assert(cp[k] == s3[k - s1.len() - s2.len()]);
            }
        }
        assert forall|k1: int, k2: int| 0 <= k1 < cp.len() && 0 <= k2 < cp.len() && k1 != k2 implies (#[trigger] cp[k1]).0 != (#[trigger] cp[k2]).0 by {
            if k1 < s1.len() {
                assert(cp[k1] == s1[k1]);
            } else if k1 < s1.len() + s2.len() {
                assert(cp[k1] == s2[k1 - s1.len()]);
            } else {
                assert(cp[k1] == s3[k1 - s1.len() - s2.len()]);
            }
            if k2 < s1.len() {
                assert(cp[k2] == s1[k2]);
            } else if k2 < s1.len() + s2.len() {
                assert(cp[k2] == s2[k2 - s1.len()]);
            } else {
                assert(cp[k2] == s3[k2 - s1.len() - s2.len()]);
            }
        }
    }
}

proof fn lemma_lev_table(
    mat: Seq<Vec<u64>>,
    bp: Seq<Vec<Vec<(Vertex, Edit)>>>,
    first: Seq<Seq<char>>,
    second: Seq<Seq<char>>,
    ci: int,
    cd: int,
    cs: int,
)
    requires
        first.len() < u32::MAX,
        second.len() < u32::MAX,
        filled_rows(mat, bp, first, second, ci, cd, cs, (first.len() + 1) as int, (second.len() + 1) as int),
    ensures
        backpointer_table(bp, (first.len() + 1) as int, (second.len() + 1) as int),
        distinct_preds(bp),
        forall|v: Vertex, k: int|
            0 <= k < preds_at(bp, v).len() ==> {
                let p = (#[trigger] preds_at(bp, v)[k]).0;
                let e = preds_at(bp, v)[k].1;
                &&& v.0 <= first.len()
                &&& v.1 <= second.len()
                &&& p.0 <= v.0
                &&& p.1 <= v.1
                &&& (p.0 < v.0 || p.1 < v.1)
                &&& e.start == p.0
                &&& e.end == v.0
                &&& e.unchanged_words <= v.0 - p.0
            },
{
    let rows = first.len() + 1;
    let cols = second.len() + 1;
    assert forall|i: int| 0 <= i < rows implies #[trigger] bp[i]@.len() == cols by {
        assert(mat[i]@.len() == cols);
    }
    assert forall|i: int, j: int, k1: int, k2: int|
        0 <= i < bp.len() && 0 <= j < bp[i]@.len() && 0 <= k1 < bp[i]@[j]@.len() && 0 <= k2 < bp[i]@[j]@.len() && k1 != k2 implies (#[trigger] bp[i]@[j]@[k1]).0
        != (#[trigger] bp[i]@[j]@[k2]).0 by {
        lemma_cell_preds_shape(first, second, ci, cd, cs, i as nat, j as nat);
        let cp = cell_preds(first, second, ci, cd, cs, i as nat, j as nat);
        assert(mat[i]@.len() == second.len() + 1);
        assert(preds_view(bp[i]@[j]@) == cp);
        assert(cp[k1].0 == bp[i]@[j]@[k1].0);
        assert(cp[k2].0 == bp[i]@[j]@[k2].0);
    }
    assert forall|v: Vertex, k: int| 0 <= k < preds_at(bp, v).len() implies ({
        let p = (#[trigger] preds_at(bp, v)[k]).0;
        let e = preds_at(bp, v)[k].1;
        &&& v.0 <= first.len()
        &&& v.1 <= second.len()
        &&& p.0 <= v.0
        &&& p.1 <= v.1
        &&& (p.0 < v.0 || p.1 < v.1)
        &&& e.start == p.0
        &&& e.end == v.0
        &&& e.unchanged_words <= v.0 - p.0
    }) by {
        assert(v.0 < bp.len() && v.1 < bp[v.0 as int]@.len());
        assert(mat[v.0 as int]@.len() == second.len() + 1);
        lemma_cell_preds_shape(first, second, ci, cd, cs, v.0 as nat, v.1 as nat);
        let cp = cell_preds(first, second, ci, cd, cs, v.0 as nat, v.1 as nat);
        assert(preds_view(bp[v.0 as int]@[v.1 as int]@) == cp);
    }
}

proof fn lemma_arcs_into_all_member(bp: Seq<Vec<Vec<(Vertex, Edit)>>>, vs: Seq<Vertex>, x: int)
    requires
        0 <= x < arcs_into_all(bp, vs).len(),
    ensures
        exists|v: Vertex, k: int|
            0 <= k < preds_at(bp, v).len() && arcs_into_all(bp, vs)[x] == #[trigger] arcs_into(bp, v)[k],
    decreases vs.len(),
{
    if vs.len() > 0 {
        let a0 = arcs_into_all(bp, vs.drop_last());
        let a1 = arcs_into(bp, vs.last());
        assert(arcs_into_all(bp, vs) == a0 + a1);
        if x < a0.len() {
            lemma_arcs_into_all_member(bp, vs.drop_last(), x);
        } else {
            assert(arcs_into_all(bp, vs)[x] == a1[x - a0.len()]);
        }
    }
}

proof fn lemma_built_in_lattice(
    mat: Seq<Vec<u64>>,
    bp: Seq<Vec<Vec<(Vertex, Edit)>>>,
    first: Seq<Seq<char>>,
    second: Seq<Seq<char>>,
    ci: int,
    cd: int,
    cs: int,
    vs: Seq<Vertex>,
)
    requires
        first.len() < u32::MAX,
        second.len() < u32::MAX,
        filled_rows(mat, bp, first, second, ci, cd, cs, (first.len() + 1) as int, (second.len() + 1) as int),
    ensures
        in_lattice(arcs_into_all(bp, vs)),
{
    lemma_lev_table(mat, bp, first, second, ci, cd, cs);
    let arcs = arcs_into_all(bp, vs);
    assert forall|x: int| 0 <= x < arcs.len() implies arc_in_lattice(#[trigger] arcs[x]) by {
        lemma_arcs_into_all_member(bp, vs, x);
        let (v, k) = choose|v: Vertex, k: int|
            0 <= k < preds_at(bp, v).len() && arcs[x] == #[trigger] arcs_into(bp, v)[k];
        let pr = preds_at(bp, v)[k];
        assert(arcs_into(bp, v)[k] == ArcView { from: pr.0, to: v, dist: 1, edit: pr.1 });
    }
}

proof fn lemma_tables_agree(
    mat: Seq<Vec<u64>>,
    bp: Seq<Vec<Vec<(Vertex, Edit)>>>,
    mat2: Seq<Vec<u64>>,
    bp2: Seq<Vec<Vec<(Vertex, Edit)>>>,
    first: Seq<Seq<char>>,
    second: Seq<Seq<char>>,
    ci: int,
    cd: int,
    cs: int,
)
    requires
        filled_rows(mat, bp, first, second, ci, cd, cs, (first.len() + 1) as int, (second.len() + 1) as int),
        filled_rows(mat2, bp2, first, second, ci, cd, cs, (first.len() + 1) as int, (second.len() + 1) as int),
    ensures
        forall|v: Vertex| #[trigger] preds_at(bp, v) == preds_at(bp2, v),
{
    assert forall|v: Vertex| #[trigger] preds_at(bp, v) == preds_at(bp2, v) by {
        if v.0 < bp.len() {
            assert(mat[v.0 as int]@.len() == second.len() + 1);
            assert(mat2[v.0 as int]@.len() == second.len() + 1);
            if v.1 < bp[v.0 as int]@.len() {
                assert(preds_view(bp[v.0 as int]@[v.1 as int]@) == preds_view(bp2[v.0 as int]@[v.1 as int]@));
            }
        }
    }
}

proof fn lemma_bfs_agree(
    bp: Seq<Vec<Vec<(Vertex, Edit)>>>,
    bp2: Seq<Vec<Vec<(Vertex, Edit)>>>,
    s: BfsState,
    n: nat,
)
    requires
        forall|v: Vertex| #[trigger] preds_at(bp, v) == preds_at(bp2, v),
    ensures
        bfs_run(bp, s, n) == bfs_run(bp2, s, n),
    decreases n,
{
    if n > 0 {
        lemma_bfs_agree(bp, bp2, s, (n - 1) as nat);
        let t = bfs_run(bp, s, (n - 1) as nat);
        if t.queue.len() > 0 {
            assert(preds_at(bp, t.queue[0]) == preds_at(bp2, t.queue[0]));
            assert(pred_vertices(bp, t.queue[0]) == pred_vertices(bp2, t.queue[0]));
        }
    }
}

proof fn lemma_bfs_settled(bp: Seq<Vec<Vec<(Vertex, Edit)>>>, s: BfsState, n: nat, m: nat)
    requires
        bfs_run(bp, s, n).queue.len() == 0,
        n <= m,
    ensures
        bfs_run(bp, s, m) == bfs_run(bp, s, n),
    decreases m,
{
    if m > n {
        lemma_bfs_settled(bp, s, n, (m - 1) as nat);
    }
}

proof fn lemma_bfs_order_unique(bp: Seq<Vec<Vec<(Vertex, Edit)>>>, bp2: Seq<Vec<Vec<(Vertex, Edit)>>>, start: Vertex, vs: Seq<Vertex>, vs2: Seq<Vertex>)
    requires
        forall|v: Vertex| #[trigger] preds_at(bp, v) == preds_at(bp2, v),
        bfs_order(bp, start, vs),
        bfs_order(bp2, start, vs2),
    ensures
        vs == vs2,
{
    let init = BfsState { queue: seq![start], visited: Seq::empty() };
    let n1 = choose|steps: nat| {
        let t = #[trigger] bfs_run(bp, init, steps);
        t.queue.len() == 0 && t.visited == vs
    };
    let n2 = choose|steps: nat| {
        let t = #[trigger] bfs_run(bp2, init, steps);
        t.queue.len() == 0 && t.visited == vs2
    };
    lemma_bfs_agree(bp, bp2, init, n2);
    if n1 <= n2 {
        lemma_bfs_settled(bp, init, n1, n2);
    } else {
        lemma_bfs_agree(bp, bp2, init, n1);
        lemma_bfs_settled(bp2, init, n2, n1);
    }
}

proof fn lemma_arcs_agree(bp: Seq<Vec<Vec<(Vertex, Edit)>>>, bp2: Seq<Vec<Vec<(Vertex, Edit)>>>, vs: Seq<Vertex>)
    requires
        forall|v: Vertex| #[trigger] preds_at(bp, v) == preds_at(bp2, v),
    ensures
        arcs_into_all(bp, vs) == arcs_into_all(bp2, vs),
    decreases vs.len(),
{
    if vs.len() > 0 {
        lemma_arcs_agree(bp, bp2, vs.drop_last());
        assert(preds_at(bp, vs.last()) == preds_at(bp2, vs.last()));
    }
}

/// The lattice of a sentence pair is well defined: two lattices of the same
/// source and hypothesis tokens, with the same limit on unchanged words, are
/// the same.
pub proof fn lemma_sentence_lattice_unique(
    g: GraphView,
    g2: GraphView,
    source: Seq<Seq<char>>,
    candidate: Seq<Seq<char>>,
    max_unchanged_words: usize,
)
    requires
        sentence_lattice(g, source, candidate, max_unchanged_words),
        sentence_lattice(g2, source, candidate, max_unchanged_words),
    ensures
        g == g2,
{
    let end = (source.len() as usize, candidate.len() as usize);
    let (bp1, bp2, g1, h1, m) = choose|bp1: Seq<Vec<Vec<(Vertex, Edit)>>>, bp2: Seq<Vec<Vec<(Vertex, Edit)>>>, g1: GraphView, g2: GraphView, m: GraphView|
        {
            &&& alignment_table(bp1, source, candidate, 1, 1, 1)
            &&& alignment_table(bp2, source, candidate, 1, 1, 2)
            &&& built_from(g1, bp1, end)
            &&& built_from(g2, bp2, end)
            &&& g1.wf()
            &&& g2.wf()
            &&& merge_of(m, g1, g2)
            &&& g.vertices == m.vertices
            &&& #[trigger] g.arcs == transitive_closure(m.arcs, m.vertices, max_unchanged_words)
        };
    let (cp1, cp2, k1, k2, n) = choose|x1: Seq<Vec<Vec<(Vertex, Edit)>>>, x2: Seq<Vec<Vec<(Vertex, Edit)>>>, y1: GraphView, y2: GraphView, z: GraphView|
        {
            &&& alignment_table(x1, source, candidate, 1, 1, 1)
            &&& alignment_table(x2, source, candidate, 1, 1, 2)
            &&& built_from(y1, x1, end)
            &&& built_from(y2, x2, end)
            &&& y1.wf()
            &&& y2.wf()
            &&& merge_of(z, y1, y2)
            &&& g2.vertices == z.vertices
            &&& #[trigger] g2.arcs == transitive_closure(z.arcs, z.vertices, max_unchanged_words)
        };
    let ma = choose|mat: Seq<Vec<u64>>| #[trigger] filled_rows(mat, bp1, source, candidate, 1, 1, 1, (source.len() + 1) as int, (candidate.len() + 1) as int);
    let mb = choose|mat: Seq<Vec<u64>>| #[trigger] filled_rows(mat, cp1, source, candidate, 1, 1, 1, (source.len() + 1) as int, (candidate.len() + 1) as int);
    let mc = choose|mat: Seq<Vec<u64>>| #[trigger] filled_rows(mat, bp2, source, candidate, 1, 1, 2, (source.len() + 1) as int, (candidate.len() + 1) as int);
    let md = choose|mat: Seq<Vec<u64>>| #[trigger] filled_rows(mat, cp2, source, candidate, 1, 1, 2, (source.len() + 1) as int, (candidate.len() + 1) as int);
    lemma_tables_agree(ma, bp1, mb, cp1, source, candidate, 1, 1, 1);
    lemma_tables_agree(mc, bp2, md, cp2, source, candidate, 1, 1, 2);
    lemma_bfs_order_unique(bp1, cp1, end, g1.vertices, k1.vertices);
    lemma_bfs_order_unique(bp2, cp2, end, h1.vertices, k2.vertices);
    lemma_arcs_agree(bp1, cp1, g1.vertices);
    lemma_arcs_agree(bp2, cp2, h1.vertices);
    assert(g1 == k1);
    assert(h1 == k2);
    lemma_wf_single_valued(h1);
    lemma_merge_unique(m, n, g1, h1);
    assert(g =~= g2);
}

/// `bp` is the backpointer table of the alignment of `source` with
/// `candidate` under the given costs.
pub open spec fn alignment_table(
    bp: Seq<Vec<Vec<(Vertex, Edit)>>>,
    source: Seq<Seq<char>>,
    candidate: Seq<Seq<char>>,
    cost_ins: int,
    cost_del: int,
    cost_sub: int,
) -> bool {
    exists|mat: Seq<Vec<u64>>|
        #[trigger] filled_rows(mat, bp, source, candidate, cost_ins, cost_del, cost_sub, (source.len() + 1) as int, (candidate.len() + 1) as int)
}

/// `g` is the lattice of `source` against `candidate`: the union of the
/// lattices of the optimal alignments with unit costs and with
/// substitutions at cost 2, extended by `transitive_arcs`.
pub open spec fn sentence_lattice(g: GraphView, source: Seq<Seq<char>>, candidate: Seq<Seq<char>>, max_unchanged_words: usize) -> bool {
    let end = (source.len() as usize, candidate.len() as usize);
    exists|bp1: Seq<Vec<Vec<(Vertex, Edit)>>>, bp2: Seq<Vec<Vec<(Vertex, Edit)>>>, g1: GraphView, g2: GraphView, m: GraphView|
        {
            &&& alignment_table(bp1, source, candidate, 1, 1, 1)
            &&& alignment_table(bp2, source, candidate, 1, 1, 2)
            &&& built_from(g1, bp1, end)
            &&& built_from(g2, bp2, end)
            &&& g1.wf()
            &&& g2.wf()
            &&& merge_of(m, g1, g2)
            &&& g.vertices == m.vertices
            &&& #[trigger] g.arcs == transitive_closure(m.arcs, m.vertices, max_unchanged_words)
        }
}

/// The lattice between source tokens `source` and hypothesis tokens
/// `candidate`: the union of the optimal alignments with unit costs and with
/// substitutions at cost 2, extended with merged edits of at most
/// `max_unchanged_words` unchanged words.
pub fn sentence_graph(source: &Vec<String>, candidate: &Vec<String>, max_unchanged_words: usize) -> (g: EditGraph)
    requires
        source.len() < u32::MAX,
        candidate.len() < u32::MAX,
    ensures
        sentence_lattice(g@, source.deep_view(), candidate.deep_view(), max_unchanged_words),
        g@.wf(),
        in_lattice(g@.arcs),
{
    let (mat1, bp1) = levenshtein_matrix(source, candidate, 1, 1, 1);
    let (mat2, bp2) = levenshtein_matrix(source, candidate, 1, 1, 2);
    proof {
        lemma_lev_table(mat1@, bp1@, source.deep_view(), candidate.deep_view(), 1, 1, 1);
        lemma_lev_table(mat2@, bp2@, source.deep_view(), candidate.deep_view(), 1, 1, 2);
        assert(mat1@[0]@.len() == candidate.len() + 1);
        assert(mat2@[0]@.len() == candidate.len() + 1);
    }
    let g1 = build_edit_graph(&mat1, &bp1);
    let g2 = build_edit_graph(&mat2, &bp2);
    proof {
        lemma_built_in_lattice(mat1@, bp1@, source.deep_view(), candidate.deep_view(), 1, 1, 1, g1@.vertices);
        lemma_built_in_lattice(mat2@, bp2@, source.deep_view(), candidate.deep_view(), 1, 1, 2, g2@.vertices);
    }
    let ghost gv1 = g1@;
    let ghost gv2 = g2@;
    proof {
        lemma_wf_single_valued(gv2);
    }
    let graph = merge_graphs(g1, g2);
    proof {
        assert forall|x: int| 0 <= x < graph@.arcs.len() implies arc_in_lattice(#[trigger] graph@.arcs[x]) by {
            let a = graph@.arcs[x];
            assert(merged_arc(gv1, gv2, a));
            if gv1.edges().contains((a.from, a.to)) {
                let q = choose|q: int| 0 <= q < gv1.arcs.len() && gv1.arcs[q] == a;
            } else {
                let q = choose|q: int| 0 <= q < gv2.arcs.len() && gv2.arcs[q] == a;
            }
        }
    }
    let ghost m = graph@;
    proof {
        lemma_lattice_closure_fits(m.arcs, m.vertices, max_unchanged_words);
    }
    let res = transitive_arcs(graph, max_unchanged_words);
    proof {
        let sv = source.deep_view();
        let cv = candidate.deep_view();
        assert(alignment_table(bp1@, sv, cv, 1, 1, 1));
        assert(alignment_table(bp2@, sv, cv, 1, 1, 2));
        assert(mat1@.len() == sv.len() + 1);
        assert((mat1@.len() - 1) as usize == sv.len() as usize);
        assert((mat1@[0]@.len() - 1) as usize == cv.len() as usize);
        assert((mat2@[0]@.len() - 1) as usize == cv.len() as usize);
        assert(res@.arcs == transitive_closure(m.arcs, m.vertices, max_unchanged_words));
    }
    res
}

} // verus!
