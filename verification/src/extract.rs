//! Reading the chosen edits off a shortest-path tree of the lattice, and
//! matching them against gold edits.

use vstd::prelude::*;
use crate::align::Vertex;
use crate::edit::{Edit, EditKind, EditView, GoldEdit, GoldEditView, matches_gold, edit_matches_gold, equals_ignore_whitespace_casing, same_ignoring_space_and_case};
use crate::graph::{ArcView, EditGraph, Edge, edges_of, find_arc, vertex_position};
use crate::order::{arcs_view, vertex_lt, vertex_less};
use crate::closure::{edge_index, lemma_edge_index_unique};
use crate::weights::{golds_view, find_up, lemma_find_range};

verus! {

/// The position of the first `v` in `vs`, or -1.
pub open spec fn vertex_index(vs: Seq<Vertex>, v: Vertex) -> int
    decreases vs.len(),
{
    if vs.len() == 0 {
        -1
    } else {
        let r = vertex_index(vs.drop_last(), v);
        if r >= 0 {
            r
        } else if vs.last() == v {
            vs.len() - 1
        } else {
            -1
        }
    }
}

/// The predecessor recorded for `v`, if `v` is a vertex and has one.
pub open spec fn pred_of(vs: Seq<Vertex>, path: Seq<Option<Vertex>>, v: Vertex) -> Option<Vertex> {
    let p = vertex_index(vs, v);
    if p < 0 {
        None
    } else {
        path[p]
    }
}

/// The largest of `vs`, or `(0, 0)` when there is none.
pub open spec fn max_vertex(vs: Seq<Vertex>) -> Vertex
    decreases vs.len(),
{
    if vs.len() == 0 {
        (0usize, 0usize)
    } else if vs.len() == 1 {
        vs[0]
    } else {
        let m = max_vertex(vs.drop_last());
        if vertex_lt(m, vs.last()) { vs.last() } else { m }
    }
}

/// The edits met walking the predecessors back from `v`, each arc's edit
/// unless it is a no-op, nearest to `v` first.
pub open spec fn trace_back(arcs: Seq<ArcView>, vs: Seq<Vertex>, path: Seq<Option<Vertex>>, v: Vertex) -> Seq<EditView>
    decreases v.0, v.1,
{
    match pred_of(vs, path, v) {
        None => Seq::empty(),
        Some(w) => {
            if vertex_lt(w, v) {
                let p = edge_index(arcs, (w, v));
                let here = if p >= 0 && arcs[p].edit.kind != EditKind::Noop {
                    seq![arcs[p].edit]
                } else {
                    Seq::empty()
                };
                here + trace_back(arcs, vs, path, w)
            } else {
                Seq::empty()
            }
        },
    }
}

/// `path` gives each vertex a predecessor that comes before it, if any.
pub open spec fn path_points_back(vs: Seq<Vertex>, path: Seq<Option<Vertex>>) -> bool {
    &&& path.len() == vs.len()
    &&& forall|i: int| 0 <= i < vs.len() && (#[trigger] path[i]) is Some ==> vertex_lt(path[i]->0, vs[i])
}

/// The arc with edge `e` exists and changes something.
pub open spec fn changing_step(arcs: Seq<ArcView>, e: Edge) -> bool {
    edge_index(arcs, e) >= 0 && arcs[edge_index(arcs, e)].edit.kind != EditKind::Noop
}

/// The steps of the chain `c`, from `c[1]` to `c[0]`, from `c[2]` to `c[1]`, and so on.
pub open spec fn chain_steps(c: Seq<Vertex>) -> Seq<Edge> {
    Seq::new((c.len() - 1) as nat, |t: int| (c[t + 1], c[t]))
}

/// `c` starts at `c[0]` and follows the recorded predecessors until a
/// vertex that has none.
pub open spec fn is_pred_chain(vs: Seq<Vertex>, path: Seq<Option<Vertex>>, c: Seq<Vertex>) -> bool {
    &&& c.len() >= 1
    &&& forall|t: int| 0 <= t < c.len() - 1 ==> #[trigger] pred_of(vs, path, c[t]) == Some(c[t + 1])
    &&& pred_of(vs, path, c.last()) is None
}

proof fn lemma_vertex_index_range(vs: Seq<Vertex>, v: Vertex)
    ensures
        vertex_index(vs, v) >= 0 ==> vertex_index(vs, v) < vs.len() && vs[vertex_index(vs, v)] == v,
    decreases vs.len(),
{
    if vs.len() > 0 {
        lemma_vertex_index_range(vs.drop_last(), v);
    }
}

/// The edits traced back from a vertex are, nearest that vertex first, the
/// edits of every arc that changes something on the whole chain of
/// recorded predecessors from it back to a vertex with none; no step of the
/// chain is left out and no other edit is added.
pub proof fn lemma_trace_back_whole_chain(arcs: Seq<ArcView>, vs: Seq<Vertex>, path: Seq<Option<Vertex>>, c: Seq<Vertex>)
    requires
        path_points_back(vs, path),
        is_pred_chain(vs, path, c),
    ensures
        trace_back(arcs, vs, path, c[0]) == chain_steps(c).filter(|e: Edge| changing_step(arcs, e)).map_values(
            |e: Edge| arcs[edge_index(arcs, e)].edit,
        ),
    decreases c.len(),
{
    let keep = |e: Edge| changing_step(arcs, e);
    let f = |e: Edge| arcs[edge_index(arcs, e)].edit;
    reveal(Seq::filter);
    if c.len() == 1 {
        assert(c.last() == c[0]);
        assert(chain_steps(c) =~= Seq::<Edge>::empty());
        assert(chain_steps(c).filter(keep) =~= Seq::<Edge>::empty());
    } else {
        let v = c[0];
        let w = c[1];
        assert(pred_of(vs, path, c[0]) == Some(c[1]));
        lemma_vertex_index_range(vs, v);
        let p = vertex_index(vs, v);
        assert(path[p] == Some(w));
        assert(vertex_lt(w, v));
        let c2 = c.drop_first();
        assert forall|t: int| 0 <= t < c2.len() - 1 implies #[trigger] pred_of(vs, path, c2[t]) == Some(c2[t + 1]) by {
            assert(pred_of(vs, path, c[t + 1]) == Some(c[t + 2]));
        }
        assert(c2.last() == c.last());
        lemma_trace_back_whole_chain(arcs, vs, path, c2);
        let head = seq![(w, v)];
        assert(chain_steps(c) =~= head + chain_steps(c2));
        Seq::filter_distributes_over_add(head, chain_steps(c2), keep);
        assert(head.drop_last() =~= Seq::<Edge>::empty());
        assert(Seq::<Edge>::empty().filter(keep) =~= Seq::<Edge>::empty());
        let hf = head.filter(keep);
        let rf = chain_steps(c2).filter(keep);
        assert((hf + rf).map_values(f) =~= hf.map_values(f) + rf.map_values(f));
        let e = edge_index(arcs, (w, v));
        if keep((w, v)) {
            assert(hf =~= seq![(w, v)]);
            assert(hf.map_values(f) =~= seq![arcs[e].edit]);
        } else {
            assert(hf =~= Seq::<Edge>::empty());
            assert(hf.map_values(f) =~= Seq::<EditView>::empty());
        }
    }
}

/// The walk back starts at the largest vertex: it is one of the vertices,
/// and none comes after it.
pub proof fn lemma_max_vertex(vs: Seq<Vertex>)
    requires
        vs.len() > 0,
    ensures
        vs.contains(max_vertex(vs)),
        forall|v: Vertex| #[trigger] vs.contains(v) ==> !vertex_lt(max_vertex(vs), v),
    decreases vs.len(),
{
    if vs.len() == 1 {
        assert(vs[0] == max_vertex(vs));
    } else {
        let init = vs.drop_last();
        lemma_max_vertex(init);
        let m = max_vertex(init);
        let q = choose|q: int| 0 <= q < init.len() && init[q] == m;
        assert(vs[q] == m);
        assert(vs[vs.len() - 1] == vs.last());
        assert forall|v: Vertex| #[trigger] vs.contains(v) implies !vertex_lt(max_vertex(vs), v) by {
            let p = choose|p: int| 0 <= p < vs.len() && vs[p] == v;
            if p < vs.len() - 1 {
                assert(init[p] == v);
                assert(init.contains(v));
            }
        }
    }
}

proof fn lemma_vertex_index(vs: Seq<Vertex>, v: Vertex)
    requires
        vs.no_duplicates(),
    ensures
        vs.contains(v) ==> 0 <= vertex_index(vs, v) < vs.len() && vs[vertex_index(vs, v)] == v,
        !vs.contains(v) ==> vertex_index(vs, v) == -1,
    decreases vs.len(),
{
    if vs.len() > 0 {
        let init = vs.drop_last();
        lemma_vertex_index(init, v);
        if init.contains(v) {
            let q = choose|q: int| 0 <= q < init.len() && init[q] == v;
            assert(vs[q] == v);
        }
        if vs.contains(v) && !init.contains(v) {
            let q = choose|q: int| 0 <= q < vs.len() && vs[q] == v;
            if q < vs.len() - 1 {
                assert(init[q] == v);
            }
        }
    }
}

fn max_vertex_exec(vs: &Vec<Vertex>) -> (res: Vertex)
    ensures
        res == max_vertex(vs@),
{
    if vs.len() == 0 {
        return (0, 0);
    }
    let mut m = vs[0];
    let mut i: usize = 1;
    while i < vs.len()
        invariant
            1 <= i <= vs.len(),
            m == max_vertex(vs@.take(i as int)),
        decreases vs.len() - i,
    {
        assert(vs@.take(i + 1).drop_last() =~= vs@.take(i as int));
        assert(vs@.take(i + 1).last() == vs@[i as int]);
        if vertex_less(m, vs[i]) {
            m = vs[i];
        }
        i = i + 1;
    }
    assert(vs@.take(vs.len() as int) =~= vs@);
    m
}

/// The edits along the predecessors recorded in `path` (one per vertex of
/// `graph`, in the order of its vertices), from the largest vertex back.
pub fn edit_seq_from_path(graph: &EditGraph, path: &Vec<Option<Vertex>>) -> (res: Vec<Edit>)
    requires
        graph@.wf(),
        path_points_back(graph@.vertices, path@),
    ensures
        res@.map_values(|e: Edit| e@) == trace_back(graph@.arcs, graph@.vertices, path@, max_vertex(graph@.vertices)),
        forall|c: Seq<Vertex>|
            #[trigger] is_pred_chain(graph@.vertices, path@, c) && c[0] == max_vertex(graph@.vertices) ==> res@.map_values(
                |e: Edit| e@,
            ) == chain_steps(c).filter(|e: Edge| changing_step(graph@.arcs, e)).map_values(
                |e: Edge| graph@.arcs[edge_index(graph@.arcs, e)].edit,
            ),
        forall|i: int|
            0 <= i < res.len() ==> exists|k: int|
                0 <= k < graph@.arcs.len() && graph@.arcs[k].edit == (#[trigger] res@[i])@ && graph@.arcs[k].edit.kind
                    != EditKind::Noop,
{
    let ghost av = graph@.arcs;
    let ghost vs = graph@.vertices;
    let ghost target = trace_back(av, vs, path@, max_vertex(vs));
    proof {
        assert forall|c: Seq<Vertex>| #[trigger] is_pred_chain(vs, path@, c) && c[0] == max_vertex(vs) implies target == chain_steps(c).filter(
            |e: Edge| changing_step(av, e),
        ).map_values(|e: Edge| av[edge_index(av, e)].edit) by {
            lemma_trace_back_whole_chain(av, vs, path@, c);
        }
    }
    let mut v = max_vertex_exec(&graph.vertices);
    let mut seq: Vec<Edit> = Vec::new();
    assert(seq@.map_values(|e: Edit| e@) + trace_back(av, vs, path@, v) =~= target);
    loop
        invariant
            graph@.wf(),
            av == graph@.arcs,
            vs == graph@.vertices,
            path_points_back(vs, path@),
            target == trace_back(av, vs, path@, max_vertex(vs)),
            forall|c: Seq<Vertex>| #[trigger] is_pred_chain(vs, path@, c) && c[0] == max_vertex(vs) ==> target == chain_steps(c).filter(
                |e: Edge| changing_step(av, e),
            ).map_values(|e: Edge| av[edge_index(av, e)].edit),
            target == seq@.map_values(|e: Edit| e@) + trace_back(av, vs, path@, v),
            forall|i: int|
                0 <= i < seq.len() ==> exists|k: int|
                    0 <= k < av.len() && av[k].edit == (#[trigger] seq@[i])@ && av[k].edit.kind != EditKind::Noop,
        decreases v.0, v.1,
    {
        proof {
            lemma_vertex_index(vs, v);
        }
        let found = vertex_position(&graph.vertices, v);
        if found.is_none() {
            assert(!vs.contains(v));
            assert(trace_back(av, vs, path@, v) == Seq::<EditView>::empty());
            assert(seq@.map_values(|e: Edit| e@) =~= target);
            return seq;
        }
        let p = found.unwrap();
        assert(vs.no_duplicates());
        assert(vertex_index(vs, v) == p);
        match path[p] {
            None => {
                assert(seq@.map_values(|e: Edit| e@) =~= target);
                return seq;
            },
            Some(w) => {
                assert(vertex_lt(w, v));
                let ghost before = seq@.map_values(|e: Edit| e@);
                proof {
                    lemma_edge_index_unique(av, (w, v));
                }
                let ghost pe = edge_index(av, (w, v));
                match find_arc(&graph.arcs, (w, v)) {
                    Some(k) => {
                        assert(arcs_view(graph.arcs@)[k as int] == graph.arcs@[k as int]@);
                        assert(edges_of(av)[k as int] == (w, v));
                        assert(pe == k);
                        if !graph.arcs[k].edit.is_noop() {
                            let ghost old_seq = seq@;
                            seq.push(graph.arcs[k].edit.duplicate());
                            assert(seq@.map_values(|e: Edit| e@) =~= before.push(av[pe].edit));
                            assert forall|i: int| 0 <= i < seq.len() implies exists|k2: int|
                                0 <= k2 < av.len() && av[k2].edit == (#[trigger] seq@[i])@ && av[k2].edit.kind != EditKind::Noop by {
                                if i < seq.len() - 1 {
                                    assert(seq@[i] == old_seq[i]);
                                } else {
                                    assert(av[k as int].edit == seq@[i]@);
                                }
                            }
                        }
                    },
                    None => {},
                }
                assert(target == seq@.map_values(|e: Edit| e@) + trace_back(av, vs, path@, w));
                v = w;
            },
        }
    }
}

/// The state of matching: the edits matched so far and the first gold edit
/// still open, after the last `k` edits of `edits`, last first.
pub open spec fn match_state(edits: Seq<EditView>, golds: Seq<GoldEditView>, k: nat) -> (Seq<EditView>, int)
    decreases k,
{
    if k == 0 {
        (Seq::empty(), 0)
    } else {
        let (m, last) = match_state(edits, golds, (k - 1) as nat);
        let e = edits[edits.len() - k];
        match find_up(e, golds, last, golds.len() - 1) {
            Some(i) => (m.push(e), i + 1),
            None => (m, last),
        }
    }
}

/// The edits of `edits`, taken last first, that some gold edit after the
/// previously matched one accepts.
pub open spec fn matched_edits(edits: Seq<EditView>, golds: Seq<GoldEditView>) -> Seq<EditView> {
    match_state(edits, golds, edits.len()).0
}

proof fn lemma_find_up_none(edit: EditView, golds: Seq<GoldEditView>, lo: int, hi: int)
    requires
        forall|t: int| 0 <= t < golds.len() ==> !matches_gold(edit, #[trigger] golds[t]),
        0 <= lo,
        hi < golds.len(),
    ensures
        find_up(edit, golds, lo, hi) is None,
    decreases hi - lo + 1,
{
    if lo <= hi {
        assert(!matches_gold(edit, golds[lo]));
        lemma_find_up_none(edit, golds, lo + 1, hi);
    }
}

proof fn lemma_match_state_range(edits: Seq<EditView>, golds: Seq<GoldEditView>, k: nat)
    requires
        k <= edits.len(),
    ensures
        0 <= match_state(edits, golds, k).1,
    decreases k,
{
    if k > 0 {
        lemma_match_state_range(edits, golds, (k - 1) as nat);
        let last = match_state(edits, golds, (k - 1) as nat).1;
        lemma_find_range(edits[edits.len() - k], golds, last, golds.len() - 1);
    }
}

proof fn lemma_match_state_suffix(s: Seq<EditView>, t: Seq<EditView>, golds: Seq<GoldEditView>, k: nat)
    requires
        k <= s.len(),
        k <= t.len(),
        s.subrange(s.len() - k, s.len() as int) == t.subrange(t.len() - k, t.len() as int),
    ensures
        match_state(s, golds, k) == match_state(t, golds, k),
    decreases k,
{
    if k > 0 {
        assert(s.subrange(s.len() - (k - 1), s.len() as int) =~= s.subrange(s.len() - k, s.len() as int).drop_first());
        assert(t.subrange(t.len() - (k - 1), t.len() as int) =~= t.subrange(t.len() - k, t.len() as int).drop_first());
        lemma_match_state_suffix(s, t, golds, (k - 1) as nat);
        assert(s[s.len() - k] == s.subrange(s.len() - k, s.len() as int)[0]);
        assert(t[t.len() - k] == t.subrange(t.len() - k, t.len() as int)[0]);
    }
}

proof fn lemma_match_state_shift(a: Seq<EditView>, x: EditView, b: Seq<EditView>, golds: Seq<GoldEditView>, m: nat)
    requires
        m <= a.len(),
        forall|t: int| 0 <= t < golds.len() ==> !matches_gold(x, #[trigger] golds[t]),
    ensures
        match_state(a + seq![x] + b, golds, b.len() + 1 + m) == match_state(a + b, golds, b.len() + m),
    decreases m,
{
    let s1 = a + seq![x] + b;
    let s2 = a + b;
    if m == 0 {
        assert(s1.subrange(s1.len() - b.len(), s1.len() as int) =~= b);
        assert(s2.subrange(s2.len() - b.len(), s2.len() as int) =~= b);
        lemma_match_state_suffix(s1, s2, golds, b.len());
        lemma_match_state_range(s1, golds, b.len());
        let last = match_state(s1, golds, b.len()).1;
        assert(s1[s1.len() - (b.len() + 1)] == x);
        lemma_find_up_none(x, golds, last, golds.len() - 1);
    } else {
        lemma_match_state_shift(a, x, b, golds, (m - 1) as nat);
        assert(s1[s1.len() - (b.len() + 1 + m)] == a[a.len() - m]);
        assert(s2[s2.len() - (b.len() + m)] == a[a.len() - m]);
    }
}

/// An edit that no gold edit accepts changes nothing in the matching: the
/// edits matched with it inserted anywhere are the edits matched without
/// it, so every later edit is still searched among the gold edits after
/// the last one matched.
pub proof fn lemma_unaccepted_edit_changes_nothing(a: Seq<EditView>, x: EditView, b: Seq<EditView>, golds: Seq<GoldEditView>)
    requires
        forall|t: int| 0 <= t < golds.len() ==> !matches_gold(x, #[trigger] golds[t]),
    ensures
        matched_edits(a + seq![x] + b, golds) == matched_edits(a + b, golds),
{
    lemma_match_state_shift(a, x, b, golds, a.len());
}

/// The edits matched are accepted by gold edits taken in strictly
/// increasing order, so no gold edit is used twice and none before the
/// last one used.
pub proof fn lemma_matched_in_gold_order(edits: Seq<EditView>, golds: Seq<GoldEditView>, k: nat) -> (idx: Seq<int>)
    requires
        k <= edits.len(),
    ensures
        idx.len() == match_state(edits, golds, k).0.len(),
        forall|m: int| 0 <= m < idx.len() ==> 0 <= #[trigger] idx[m] < match_state(edits, golds, k).1,
        forall|m: int| 0 <= m < idx.len() ==> matches_gold(match_state(edits, golds, k).0[m], golds[#[trigger] idx[m]]),
        forall|m1: int, m2: int| 0 <= m1 < m2 < idx.len() ==> #[trigger] idx[m1] < #[trigger] idx[m2],
        match_state(edits, golds, k).1 <= golds.len(),
    decreases k,
{
    if k == 0 {
        Seq::empty()
    } else {
        let prev = lemma_matched_in_gold_order(edits, golds, (k - 1) as nat);
        let (m, last) = match_state(edits, golds, (k - 1) as nat);
        let e = edits[edits.len() - k];
        lemma_find_range(e, golds, last, golds.len() - 1);
        lemma_match_state_range(edits, golds, (k - 1) as nat);
        match find_up(e, golds, last, golds.len() - 1) {
            Some(i) => {
                let idx = prev.push(i);
                assert(idx[idx.len() - 1] == i);
                assert forall|q: int| 0 <= q < idx.len() implies matches_gold(m.push(e)[q], golds[#[trigger] idx[q]]) by {
                    if q < prev.len() {
                        assert(m.push(e)[q] == m[q]);
                    }
                }
                idx
            },
            None => prev,
        }
    }
}

/// The values of a list of edits.
pub open spec fn edits_view(s: Seq<Edit>) -> Seq<EditView> {
    s.map_values(|e: Edit| e@)
}

fn first_match_from(edit: &Edit, golds: &Vec<GoldEdit>, lo: usize) -> (res: Option<usize>)
    ensures
        match find_up(edit@, golds_view(golds@), lo as int, golds.len() - 1) {
            Some(i) => res == Some(i as usize),
            None => res is None,
        },
        res matches Some(i) ==> lo <= i < golds.len(),
{
    let ghost gv = golds_view(golds@);
    let mut i = lo;
    while i < golds.len()
        invariant
            gv == golds_view(golds@),
            lo <= i,
            i >= golds.len() ==> find_up(edit@, gv, i as int, golds.len() - 1) is None,
            find_up(edit@, gv, lo as int, golds.len() - 1) == find_up(edit@, gv, i as int, golds.len() - 1),
        decreases golds.len() - i,
    {
        assert(gv[i as int] == golds@[i as int]@);
        if edit_matches_gold(edit, &golds[i]) {
            return Some(i);
        }
        i = i + 1;
    }
    None
}

/// Walks the edits last first and keeps each one that a gold edit accepts,
/// looking for it only among the gold edits after the last one matched.
pub fn match_seq(edit_seq: &Vec<Edit>, gold_edits: &Vec<GoldEdit>) -> (res: Vec<Edit>)
    ensures
        edits_view(res@) == matched_edits(edits_view(edit_seq@), golds_view(gold_edits@)),
        res.len() <= edit_seq.len(),
        res.len() <= gold_edits.len(),
        forall|i: int|
            0 <= i < res.len() ==> edits_view(edit_seq@).contains(#[trigger] res@[i]@) && exists|t: int|
                0 <= t < gold_edits.len() && matches_gold(res@[i]@, golds_view(gold_edits@)[t]),
{
    let ghost ev = edits_view(edit_seq@);
    let ghost gv = golds_view(gold_edits@);
    let n = edit_seq.len();
    let mut matched: Vec<Edit> = Vec::new();
    let mut last_index: usize = 0;
    let mut k: usize = 0;
    while k < n
        invariant
            n == edit_seq.len(),
            ev == edits_view(edit_seq@),
            gv == golds_view(gold_edits@),
            k <= n,
            (edits_view(matched@), last_index as int) == match_state(ev, gv, k as nat),
            matched.len() <= k,
            matched.len() <= last_index <= gold_edits.len(),
            forall|i: int|
                0 <= i < matched.len() ==> ev.contains(#[trigger] matched@[i]@) && exists|t: int|
                    0 <= t < gold_edits.len() && matches_gold(matched@[i]@, gv[t]),
        decreases n - k,
    {
        let edit = &edit_seq[n - 1 - k];
        assert(ev[n - (k + 1)] == edit@);
        let found = first_match_from(edit, gold_edits, last_index);
        proof {
            lemma_find_range(edit@, gv, last_index as int, gold_edits.len() - 1);
        }
        match found {
            Some(i) => {
                let ghost before = edits_view(matched@);
                let ghost old_m = matched@;
                matched.push(edit.duplicate());
                assert(edits_view(matched@) =~= before.push(edit@));
                last_index = i + 1;
                proof {
                    assert(matches_gold(edit@, gv[i as int]));
                    assert(ev.contains(edit@));
                    assert forall|q: int| 0 <= q < matched.len() implies ev.contains(#[trigger] matched@[q]@) && exists|t: int|
                        0 <= t < gold_edits.len() && matches_gold(matched@[q]@, gv[t]) by {
                        if q < matched.len() - 1 {
                            assert(matched@[q] == old_m[q]);
                        }
                    }
                }
            },
            None => {},
        }
        assert(forall|i: int|
            0 <= i < matched.len() ==> ev.contains(#[trigger] matched@[i]@) && exists|t: int|
                0 <= t < gold_edits.len() && matches_gold(matched@[i]@, gv[t]));
        k = k + 1;
    }
    matched
}

/// Drops the edits whose original and corrected texts differ only in
/// spaces and letter case.
pub fn drop_whitespace_casing_edits(edits: Vec<Edit>) -> (res: Vec<Edit>)
    ensures
        edits_view(res@) == edits_view(edits@).filter(|e: EditView| !same_ignoring_space_and_case(e.orig, e.corr)),
{
    let ghost ev = edits_view(edits@);
    let ghost keep = |e: EditView| !same_ignoring_space_and_case(e.orig, e.corr);
    let n = edits.len();
    let mut out: Vec<Edit> = Vec::new();
    let mut t: usize = 0;
    while t < n
        invariant
            n == edits.len(),
            ev == edits_view(edits@),
            keep == (|e: EditView| !same_ignoring_space_and_case(e.orig, e.corr)),
            t <= n,
            edits_view(out@) == ev.take(t as int).filter(keep),
        decreases n - t,
    {
        proof {
            reveal(Seq::filter);
            assert(ev.take(t + 1).drop_last() =~= ev.take(t as int));
            assert(ev.take(t + 1).last() == ev[t as int]);
            assert(ev[t as int] == edits@[t as int]@);
        }
        let ghost before = edits_view(out@);
        if !equals_ignore_whitespace_casing(edits[t].orig.as_str(), edits[t].corr.as_str()) {
            out.push(edits[t].duplicate());
            assert(keep(ev[t as int]));
            assert(edits_view(out@) =~= before.push(ev[t as int]));
        } else {
            assert(!keep(ev[t as int]));
        }
        t = t + 1;
    }
    assert(ev.take(n as int) =~= ev);
    out
}

} // verus!
