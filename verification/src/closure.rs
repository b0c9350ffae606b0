//! Extending the lattice with arcs that merge runs of adjacent edits.

use vstd::prelude::*;
use crate::align::Vertex;
use crate::edit::{EditKind, merged, merge_edits};
use crate::graph::{Arc, ArcView, EditGraph, Edge, edges_of, vertex_position};
use crate::order::{arcs_view, arc_edge};

verus! {

/// An arc that runs forward through the alignment matrix: its length is at
/// least 1 and at most the number of rows and columns it crosses, its edit covers the rows
/// it crosses and keeps at most as many words as it crosses rows.
pub open spec fn arc_in_lattice(a: ArcView) -> bool {
    &&& a.from.0 <= a.to.0
    &&& a.from.1 <= a.to.1
    &&& a.from != a.to
    &&& 1 <= a.dist <= (a.to.0 - a.from.0) + (a.to.1 - a.from.1)
    &&& a.to.0 + a.to.1 <= u64::MAX
    &&& a.edit.start == a.from.0
    &&& a.edit.end == a.to.0
    &&& a.edit.unchanged_words <= a.to.0 - a.from.0
}

/// Every arc of `arcs` runs forward through the alignment matrix.
pub open spec fn in_lattice(arcs: Seq<ArcView>) -> bool {
    forall|k: int| 0 <= k < arcs.len() ==> arc_in_lattice(#[trigger] arcs[k])
}

/// The position of the first arc of `arcs` with edge `e`, or -1.
pub open spec fn edge_index(arcs: Seq<ArcView>, e: Edge) -> int
    decreases arcs.len(),
{
    if arcs.len() == 0 {
        -1
    } else {
        let r = edge_index(arcs.drop_last(), e);
        if r >= 0 {
            r
        } else if arc_edge(arcs.last()) == e {
            arcs.len() - 1
        } else {
            -1
        }
    }
}

/// `a` replaces the arc with the same edge, or joins the end of `arcs`.
pub open spec fn put_arc(arcs: Seq<ArcView>, a: ArcView) -> Seq<ArcView> {
    let p = edge_index(arcs, arc_edge(a));
    if p >= 0 {
        arcs.update(p, a)
    } else {
        arcs.push(a)
    }
}

/// One relaxation: the arc `aik` followed by the arc from its end to `vj`,
/// if there is one, yields an arc from the start of `aik` to `vj` when that
/// is shorter than the present one (or there is none) and its merged edit
/// keeps at most `max_unchanged` words.
pub open spec fn relax(arcs: Seq<ArcView>, aik: ArcView, vj: Vertex, max_unchanged: usize) -> Seq<ArcView> {
    let pkj = edge_index(arcs, (aik.to, vj));
    if pkj < 0 {
        arcs
    } else {
        let akj = arcs[pkj];
        let d = aik.dist + akj.dist;
        let pij = edge_index(arcs, (aik.from, vj));
        if pij >= 0 && d >= arcs[pij].dist {
            arcs
        } else {
            let m = merged(aik.edit, akj.edit);
            if m.unchanged_words <= max_unchanged {
                put_arc(arcs, ArcView { from: aik.from, to: vj, dist: d as u64, edit: m })
            } else {
                arcs
            }
        }
    }
}

/// The relaxations of `aik` through the first `j` vertices, in order.
pub open spec fn relax_through(arcs: Seq<ArcView>, aik: ArcView, vs: Seq<Vertex>, max_unchanged: usize, j: nat) -> Seq<ArcView>
    decreases j,
{
    if j == 0 {
        arcs
    } else {
        relax(relax_through(arcs, aik, vs, max_unchanged, (j - 1) as nat), aik, vs[j - 1], max_unchanged)
    }
}

/// The relaxations through `vs[k]` of the arc from `vs[i]`, if there is one.
pub open spec fn relax_row(arcs: Seq<ArcView>, vs: Seq<Vertex>, max_unchanged: usize, k: int, i: int) -> Seq<ArcView> {
    let p = edge_index(arcs, (vs[i], vs[k]));
    if p < 0 {
        arcs
    } else {
        relax_through(arcs, arcs[p], vs, max_unchanged, vs.len())
    }
}

/// The rows of round `k` for the first `i` vertices.
pub open spec fn relax_rows(arcs: Seq<ArcView>, vs: Seq<Vertex>, max_unchanged: usize, k: int, i: nat) -> Seq<ArcView>
    decreases i,
{
    if i == 0 {
        arcs
    } else {
        relax_row(relax_rows(arcs, vs, max_unchanged, k, (i - 1) as nat), vs, max_unchanged, k, i - 1)
    }
}

/// The first `k` rounds, each through one intermediate vertex.
pub open spec fn relax_rounds(arcs: Seq<ArcView>, vs: Seq<Vertex>, max_unchanged: usize, k: nat) -> Seq<ArcView>
    decreases k,
{
    if k == 0 {
        arcs
    } else {
        relax_rows(relax_rounds(arcs, vs, max_unchanged, (k - 1) as nat), vs, max_unchanged, k - 1, vs.len())
    }
}

/// A merged no-op: an arc that spans more than one step and changes nothing.
pub open spec fn is_transitive_noop(a: ArcView) -> bool {
    a.edit.kind == EditKind::Noop && a.dist > 1
}

/// The arcs after all rounds, without merged no-ops.
pub open spec fn transitive_closure(arcs: Seq<ArcView>, vs: Seq<Vertex>, max_unchanged: usize) -> Seq<ArcView> {
    relax_rounds(arcs, vs, max_unchanged, vs.len()).filter(|a: ArcView| !is_transitive_noop(a))
}

/// Every arc has length at least 1.
pub open spec fn lengths_positive(arcs: Seq<ArcView>) -> bool {
    forall|k: int| 0 <= k < arcs.len() ==> #[trigger] arcs[k].dist >= 1
}

/// The relaxation of `aik` towards `vj` stays within the machine's integers:
/// the length of the two-arc path fits in `u64`, and when that path is
/// taken the two counts of unchanged words sum within `usize`.
pub open spec fn step_fits(arcs: Seq<ArcView>, aik: ArcView, vj: Vertex) -> bool {
    let pkj = edge_index(arcs, (aik.to, vj));
    pkj < 0 || {
        let akj = arcs[pkj];
        let d = aik.dist + akj.dist;
        let pij = edge_index(arcs, (aik.from, vj));
        &&& d <= u64::MAX
        &&& (pij < 0 || d < arcs[pij].dist) ==> aik.edit.unchanged_words + akj.edit.unchanged_words <= usize::MAX
    }
}

/// Every relaxation of `relax_through(.., j)` stays within the machine's integers.
pub open spec fn through_fits(arcs: Seq<ArcView>, aik: ArcView, vs: Seq<Vertex>, max_unchanged: usize, j: nat) -> bool
    decreases j,
{
    if j == 0 {
        true
    } else {
        through_fits(arcs, aik, vs, max_unchanged, (j - 1) as nat) && step_fits(
            relax_through(arcs, aik, vs, max_unchanged, (j - 1) as nat),
            aik,
            vs[j - 1],
        )
    }
}

/// Every relaxation of `relax_row` stays within the machine's integers.
pub open spec fn row_fits(arcs: Seq<ArcView>, vs: Seq<Vertex>, max_unchanged: usize, k: int, i: int) -> bool {
    let p = edge_index(arcs, (vs[i], vs[k]));
    p < 0 || through_fits(arcs, arcs[p], vs, max_unchanged, vs.len())
}

/// Every relaxation of `relax_rows(.., i)` stays within the machine's integers.
pub open spec fn rows_fits(arcs: Seq<ArcView>, vs: Seq<Vertex>, max_unchanged: usize, k: int, i: nat) -> bool
    decreases i,
{
    if i == 0 {
        true
    } else {
        rows_fits(arcs, vs, max_unchanged, k, (i - 1) as nat) && row_fits(
            relax_rows(arcs, vs, max_unchanged, k, (i - 1) as nat),
            vs,
            max_unchanged,
            k,
            i - 1,
        )
    }
}

/// Every relaxation of `relax_rounds(.., k)` stays within the machine's integers.
pub open spec fn rounds_fits(arcs: Seq<ArcView>, vs: Seq<Vertex>, max_unchanged: usize, k: nat) -> bool
    decreases k,
{
    if k == 0 {
        true
    } else {
        rounds_fits(arcs, vs, max_unchanged, (k - 1) as nat) && rows_fits(
            relax_rounds(arcs, vs, max_unchanged, (k - 1) as nat),
            vs,
            max_unchanged,
            k - 1,
            vs.len(),
        )
    }
}

/// No relaxation of the whole closure leaves the machine's integers.
pub open spec fn closure_fits(arcs: Seq<ArcView>, vs: Seq<Vertex>, max_unchanged: usize) -> bool {
    rounds_fits(arcs, vs, max_unchanged, vs.len())
}

proof fn lemma_through_fits_prefix(arcs: Seq<ArcView>, aik: ArcView, vs: Seq<Vertex>, max_unchanged: usize, j: nat, big: nat)
    requires
        j <= big,
        through_fits(arcs, aik, vs, max_unchanged, big),
    ensures
        through_fits(arcs, aik, vs, max_unchanged, j),
    decreases big,
{
    if big > j {
        lemma_through_fits_prefix(arcs, aik, vs, max_unchanged, j, (big - 1) as nat);
    }
}

proof fn lemma_rows_fits_prefix(arcs: Seq<ArcView>, vs: Seq<Vertex>, max_unchanged: usize, k: int, i: nat, big: nat)
    requires
        i <= big,
        rows_fits(arcs, vs, max_unchanged, k, big),
    ensures
        rows_fits(arcs, vs, max_unchanged, k, i),
    decreases big,
{
    if big > i {
        lemma_rows_fits_prefix(arcs, vs, max_unchanged, k, i, (big - 1) as nat);
    }
}

proof fn lemma_rounds_fits_prefix(arcs: Seq<ArcView>, vs: Seq<Vertex>, max_unchanged: usize, k: nat, big: nat)
    requires
        k <= big,
        rounds_fits(arcs, vs, max_unchanged, big),
    ensures
        rounds_fits(arcs, vs, max_unchanged, k),
    decreases big,
{
    if big > k {
        lemma_rounds_fits_prefix(arcs, vs, max_unchanged, k, (big - 1) as nat);
    }
}

proof fn lemma_edge_index_range(arcs: Seq<ArcView>, e: Edge)
    ensures
        edge_index(arcs, e) >= 0 ==> edge_index(arcs, e) < arcs.len() && arc_edge(arcs[edge_index(arcs, e)]) == e,
    decreases arcs.len(),
{
    if arcs.len() > 0 {
        lemma_edge_index_range(arcs.drop_last(), e);
    }
}

proof fn lemma_relax_in_lattice(arcs: Seq<ArcView>, aik: ArcView, vj: Vertex, max_unchanged: usize)
    requires
        in_lattice(arcs),
        arc_in_lattice(aik),
    ensures
        step_fits(arcs, aik, vj),
        in_lattice(relax(arcs, aik, vj, max_unchanged)),
{
    let pkj = edge_index(arcs, (aik.to, vj));
    lemma_edge_index_range(arcs, (aik.to, vj));
    lemma_edge_index_range(arcs, (aik.from, vj));
    if pkj >= 0 {
        let akj = arcs[pkj];
        assert(arc_in_lattice(akj));
        lemma_merge_in_lattice(aik, akj);
        let a = ArcView { from: aik.from, to: vj, dist: (aik.dist + akj.dist) as u64, edit: merged(aik.edit, akj.edit) };
        lemma_edge_index_range(arcs, arc_edge(a));
        let r = relax(arcs, aik, vj, max_unchanged);
        assert forall|x: int| 0 <= x < r.len() implies arc_in_lattice(#[trigger] r[x]) by {
            if x < arcs.len() && r[x] != a {
                assert(r[x] == arcs[x]);
            }
        }
    }
}

proof fn lemma_through_in_lattice(arcs: Seq<ArcView>, aik: ArcView, vs: Seq<Vertex>, max_unchanged: usize, j: nat)
    requires
        in_lattice(arcs),
        arc_in_lattice(aik),
    ensures
        through_fits(arcs, aik, vs, max_unchanged, j),
        in_lattice(relax_through(arcs, aik, vs, max_unchanged, j)),
    decreases j,
{
    if j > 0 {
        lemma_through_in_lattice(arcs, aik, vs, max_unchanged, (j - 1) as nat);
        lemma_relax_in_lattice(relax_through(arcs, aik, vs, max_unchanged, (j - 1) as nat), aik, vs[j - 1], max_unchanged);
    }
}

proof fn lemma_rows_in_lattice(arcs: Seq<ArcView>, vs: Seq<Vertex>, max_unchanged: usize, k: int, i: nat)
    requires
        in_lattice(arcs),
    ensures
        rows_fits(arcs, vs, max_unchanged, k, i),
        in_lattice(relax_rows(arcs, vs, max_unchanged, k, i)),
    decreases i,
{
    if i > 0 {
        lemma_rows_in_lattice(arcs, vs, max_unchanged, k, (i - 1) as nat);
        let cur = relax_rows(arcs, vs, max_unchanged, k, (i - 1) as nat);
        let p = edge_index(cur, (vs[i - 1], vs[k]));
        lemma_edge_index_range(cur, (vs[i - 1], vs[k]));
        if p >= 0 {
            lemma_through_in_lattice(cur, cur[p], vs, max_unchanged, vs.len());
        }
    }
}

proof fn lemma_rounds_in_lattice(arcs: Seq<ArcView>, vs: Seq<Vertex>, max_unchanged: usize, k: nat)
    requires
        in_lattice(arcs),
    ensures
        rounds_fits(arcs, vs, max_unchanged, k),
        in_lattice(relax_rounds(arcs, vs, max_unchanged, k)),
    decreases k,
{
    if k > 0 {
        lemma_rounds_in_lattice(arcs, vs, max_unchanged, (k - 1) as nat);
        lemma_rows_in_lattice(relax_rounds(arcs, vs, max_unchanged, (k - 1) as nat), vs, max_unchanged, k - 1, vs.len());
    }
}

/// On arcs that run forward through the alignment matrix, the closure
/// never leaves the machine's integers, and its arcs run forward too.
pub proof fn lemma_lattice_closure_fits(arcs: Seq<ArcView>, vs: Seq<Vertex>, max_unchanged: usize)
    requires
        in_lattice(arcs),
    ensures
        closure_fits(arcs, vs, max_unchanged),
        in_lattice(transitive_closure(arcs, vs, max_unchanged)),
{
    lemma_rounds_in_lattice(arcs, vs, max_unchanged, vs.len());
    let all = relax_rounds(arcs, vs, max_unchanged, vs.len());
    let keep = |a: ArcView| !is_transitive_noop(a);
    let res = all.filter(keep);
    assert forall|x: int| 0 <= x < res.len() implies arc_in_lattice(#[trigger] res[x]) by {
        assert(res.contains(res[x]));
        all.lemma_filter_contains_rev(keep, res[x]);
    }
}

pub(crate) proof fn lemma_edge_index_unique(arcs: Seq<ArcView>, e: Edge)
    requires
        edges_of(arcs).no_duplicates(),
    ensures
        edges_of(arcs).contains(e) ==> 0 <= edge_index(arcs, e) < arcs.len() && arc_edge(arcs[edge_index(arcs, e)]) == e,
        !edges_of(arcs).contains(e) ==> edge_index(arcs, e) == -1,
        forall|p: int| 0 <= p < arcs.len() && arc_edge(arcs[p]) == e ==> edge_index(arcs, e) == p,
    decreases arcs.len(),
{
    if arcs.len() > 0 {
        let init = arcs.drop_last();
        assert(edges_of(init) =~= edges_of(arcs).drop_last());
        lemma_edge_index_unique(init, e);
        let l = arcs.len() - 1;
        assert(edges_of(arcs)[l] == arc_edge(arcs[l]));
        if edges_of(init).contains(e) {
            let q = choose|q: int| 0 <= q < init.len() && edges_of(init)[q] == e;
            assert(edges_of(arcs)[q] == e);
        }
        if edges_of(arcs).contains(e) && !edges_of(init).contains(e) {
            let q = choose|q: int| 0 <= q < arcs.len() && edges_of(arcs)[q] == e;
            if q < l {
                assert(edges_of(init)[q] == e);
            }
        }
        assert forall|p: int| 0 <= p < arcs.len() && arc_edge(arcs[p]) == e implies edge_index(arcs, e) == p by {
            if p < l {
                assert(arc_edge(init[p]) == e);
                assert(edges_of(arcs)[p] == edges_of(arcs)[l] ==> p == l);
            } else {
                if edges_of(init).contains(e) {
                    let q = choose|q: int| 0 <= q < init.len() && edges_of(init)[q] == e;
                    assert(edges_of(arcs)[q] == e);
                    assert(edges_of(arcs)[q] == edges_of(arcs)[l]);
                }
            }
        }
    }
}

/// One relaxation of the closure through the arc `aik` towards `vj`. When
/// there is an arc `arcs[q]` from the end of `aik` to `vj`, every arc from
/// the start of `aik` to `vj` is longer than the two together, and their
/// merged edit keeps at most `max_unchanged` words, the result holds the arc
/// of that two-arc path with the merged edit, whatever the kinds of the two
/// edits, and keeps every arc with another edge. When the merged edit keeps
/// more words, or an arc from the start of `aik` to `vj` is no longer than
/// the path, nothing changes.
pub proof fn lemma_relax_adds_path_arc(arcs: Seq<ArcView>, aik: ArcView, vj: Vertex, max_unchanged: usize, q: int)
    requires
        edges_of(arcs).no_duplicates(),
        0 <= q < arcs.len(),
        arc_edge(arcs[q]) == (aik.to, vj),
        aik.dist + arcs[q].dist <= u64::MAX,
        aik.edit.unchanged_words + arcs[q].edit.unchanged_words <= usize::MAX,
    ensures
        ({
            let d = aik.dist + arcs[q].dist;
            let path_arc = ArcView { from: aik.from, to: vj, dist: d as u64, edit: merged(aik.edit, arcs[q].edit) };
            let shorter = forall|p: int| 0 <= p < arcs.len() && arc_edge(#[trigger] arcs[p]) == (aik.from, vj) ==> d < arcs[p].dist;
            let r = relax(arcs, aik, vj, max_unchanged);
            &&& (shorter && aik.edit.unchanged_words + arcs[q].edit.unchanged_words <= max_unchanged) ==> {
                &&& r.contains(path_arc)
                &&& forall|p: int| 0 <= p < arcs.len() && arc_edge(arcs[p]) != (aik.from, vj) ==> r.contains(#[trigger] arcs[p])
            }
            &&& (!shorter || aik.edit.unchanged_words + arcs[q].edit.unchanged_words > max_unchanged) ==> r == arcs
        }),
{
    let d = aik.dist + arcs[q].dist;
    let path_arc = ArcView { from: aik.from, to: vj, dist: d as u64, edit: merged(aik.edit, arcs[q].edit) };
    lemma_edge_index_unique(arcs, (aik.to, vj));
    lemma_edge_index_unique(arcs, (aik.from, vj));
    assert(edge_index(arcs, (aik.to, vj)) == q);
    let pij = edge_index(arcs, (aik.from, vj));
    let r = relax(arcs, aik, vj, max_unchanged);
    let shorter = forall|p: int| 0 <= p < arcs.len() && arc_edge(#[trigger] arcs[p]) == (aik.from, vj) ==> d < arcs[p].dist;
    if pij >= 0 {
        assert(arc_edge(arcs[pij]) == (aik.from, vj));
        if shorter {
            assert(d < arcs[pij].dist);
        }
    }
    if shorter && aik.edit.unchanged_words + arcs[q].edit.unchanged_words <= max_unchanged {
        assert(merged(aik.edit, arcs[q].edit).unchanged_words <= max_unchanged);
        lemma_edge_index_unique(arcs, arc_edge(path_arc));
        if pij >= 0 {
            assert(r == arcs.update(pij, path_arc));
            assert(r[pij] == path_arc);
            assert forall|p: int| 0 <= p < arcs.len() && arc_edge(arcs[p]) != (aik.from, vj) implies r.contains(#[trigger] arcs[p]) by {
                assert(p != pij);
                assert(r[p] == arcs[p]);
            }
        } else {
            assert(r == arcs.push(path_arc));
            assert(r[arcs.len() as int] == path_arc);
            assert forall|p: int| 0 <= p < arcs.len() && arc_edge(arcs[p]) != (aik.from, vj) implies r.contains(#[trigger] arcs[p]) by {
                assert(r[p] == arcs[p]);
            }
        }
    }
    if !shorter {
        let p = choose|p: int| 0 <= p < arcs.len() && arc_edge(#[trigger] arcs[p]) == (aik.from, vj) && !(d < arcs[p].dist);
        assert(pij == p);
    }
}

/// `idx[p][q]` is the position in `arcs` of the arc from `vs[p]` to `vs[q]`,
/// or `None` when there is none.
pub open spec fn index_ok(idx: Seq<Vec<Option<usize>>>, arcs: Seq<ArcView>, vs: Seq<Vertex>) -> bool {
    &&& idx.len() == vs.len()
    &&& forall|p: int| 0 <= p < vs.len() ==> #[trigger] idx[p]@.len() == vs.len()
    &&& forall|p: int, q: int|
        0 <= p < vs.len() && 0 <= q < vs.len() ==> match #[trigger] idx[p]@[q] {
            Some(a) => a < arcs.len() && arc_edge(arcs[a as int]) == (vs[p], vs[q]),
            None => !edges_of(arcs).contains((vs[p], vs[q])),
        }
}

fn build_index(vs: &Vec<Vertex>, arcs: &Vec<Arc>) -> (idx: Vec<Vec<Option<usize>>>)
    requires
        vs@.no_duplicates(),
        edges_of(arcs_view(arcs@)).no_duplicates(),
    ensures
        index_ok(idx@, arcs_view(arcs@), vs@),
{
    let ghost av = arcs_view(arcs@);
    let n = vs.len();
    let mut idx: Vec<Vec<Option<usize>>> = Vec::new();
    let mut r: usize = 0;
    while r < n
        invariant
            n == vs.len(),
            r <= n,
            idx.len() == r,
            forall|p: int| 0 <= p < r ==> #[trigger] idx[p]@.len() == n,
            forall|p: int, q: int| 0 <= p < r && 0 <= q < n ==> (#[trigger] idx[p]@[q]) is None,
        decreases n - r,
    {
        let mut row: Vec<Option<usize>> = Vec::new();
        let mut c: usize = 0;
        while c < n
            invariant
                c <= n,
                row.len() == c,
                forall|q: int| 0 <= q < c ==> (#[trigger] row@[q]) is None,
            decreases n - c,
        {
            row.push(None);
            c = c + 1;
        }
        idx.push(row);
        r = r + 1;
    }
    let mut a: usize = 0;
    while a < arcs.len()
        invariant
            n == vs.len(),
            av == arcs_view(arcs@),
            vs@.no_duplicates(),
            edges_of(av).no_duplicates(),
            a <= arcs.len(),
            idx.len() == n,
            forall|p: int| 0 <= p < n ==> #[trigger] idx[p]@.len() == n,
            forall|p: int, q: int|
                0 <= p < n && 0 <= q < n ==> match #[trigger] idx[p]@[q] {
                    Some(x) => x < a && arc_edge(av[x as int]) == (vs@[p], vs@[q]),
                    None => forall|y: int| 0 <= y < a ==> arc_edge(#[trigger] av[y]) != (vs@[p], vs@[q]),
                },
        decreases arcs.len() - a,
    {
        let pf = vertex_position(vs, arcs[a].from);
        let pt = vertex_position(vs, arcs[a].to);
        let ghost old_idx = idx@;
        if pf.is_some() && pt.is_some() {
            let p = pf.unwrap();
            let q = pt.unwrap();
            idx[p][q] = Some(a);
            proof {
                assert forall|p2: int, q2: int|
                    0 <= p2 < n && 0 <= q2 < n implies match #[trigger] idx@[p2]@[q2] {
                        Some(x) => x < a + 1 && arc_edge(av[x as int]) == (vs@[p2], vs@[q2]),
                        None => forall|y: int| 0 <= y < a + 1 ==> arc_edge(#[trigger] av[y]) != (vs@[p2], vs@[q2]),
                    } by {
                    if p2 == p && q2 == q {
                    } else {
                        assert(idx@[p2]@[q2] == old_idx[p2]@[q2]);
                        if vs@[p2] == vs@[p as int] {
                            assert(p2 == p);
                        }
                        if vs@[q2] == vs@[q as int] {
                            assert(q2 == q);
                        }
                    }
                }
            }
        } else {
            proof {
                assert forall|p2: int, q2: int|
                    0 <= p2 < n && 0 <= q2 < n implies match #[trigger] idx@[p2]@[q2] {
                        Some(x) => x < a + 1 && arc_edge(av[x as int]) == (vs@[p2], vs@[q2]),
                        None => forall|y: int| 0 <= y < a + 1 ==> arc_edge(#[trigger] av[y]) != (vs@[p2], vs@[q2]),
                    } by {
                    if pf.is_none() {
                        assert(!vs@.contains(av[a as int].from));
                        assert(vs@[p2] != av[a as int].from);
                    } else {
                        assert(vs@[q2] != av[a as int].to);
                    }
                }
            }
        }
        proof {
            assert forall|p2: int, q2: int|
                0 <= p2 < n && 0 <= q2 < n && (#[trigger] idx@[p2]@[q2]) is Some implies idx@[p2]@[q2]->0 < a + 1 by {
            }
            assert(edges_of(av)[a as int] == arc_edge(av[a as int]));
        }
        a = a + 1;
    }
    proof {
        assert forall|p: int, q: int|
            0 <= p < n && 0 <= q < n implies match #[trigger] idx@[p]@[q] {
                Some(x) => x < av.len() && arc_edge(av[x as int]) == (vs@[p], vs@[q]),
                None => !edges_of(av).contains((vs@[p], vs@[q])),
            } by {
            if idx@[p]@[q] is None && edges_of(av).contains((vs@[p], vs@[q])) {
                let y = choose|y: int| 0 <= y < av.len() && edges_of(av)[y] == (vs@[p], vs@[q]);
                assert(arc_edge(av[y]) == (vs@[p], vs@[q]));
            }
        }
    }
    idx
}

proof fn lemma_merge_in_lattice(aik: ArcView, akj: ArcView)
    requires
        arc_in_lattice(aik),
        arc_in_lattice(akj),
        aik.to == akj.from,
    ensures
        aik.dist + akj.dist <= u64::MAX,
        aik.edit.unchanged_words + akj.edit.unchanged_words <= usize::MAX,
        arc_in_lattice(
            ArcView {
                from: aik.from,
                to: akj.to,
                dist: (aik.dist + akj.dist) as u64,
                edit: merged(aik.edit, akj.edit),
            },
        ),
{
}

fn relax_row_exec(
    arcs: &mut Vec<Arc>,
    idx: &mut Vec<Vec<Option<usize>>>,
    vs: &Vec<Vertex>,
    max_unchanged: usize,
    k: usize,
    i: usize,
)
    requires
        k < vs.len(),
        i < vs.len(),
        vs@.no_duplicates(),
        edges_of(arcs_view(old(arcs)@)).no_duplicates(),
        row_fits(arcs_view(old(arcs)@), vs@, max_unchanged, k as int, i as int),
        index_ok(old(idx)@, arcs_view(old(arcs)@), vs@),
    ensures
        arcs_view(final(arcs)@) == relax_row(arcs_view(old(arcs)@), vs@, max_unchanged, k as int, i as int),
        edges_of(arcs_view(final(arcs)@)).no_duplicates(),
        lengths_positive(arcs_view(old(arcs)@)) ==> lengths_positive(arcs_view(final(arcs)@)),
        index_ok(final(idx)@, arcs_view(final(arcs)@), vs@),
        forall|x: ArcView|
            #[trigger] arcs_view(final(arcs)@).contains(x) ==> arcs_view(old(arcs)@).contains(x)
                || x.edit.unchanged_words <= max_unchanged,
        forall|e: Edge| #[trigger] edges_of(arcs_view(old(arcs)@)).contains(e) ==> edges_of(arcs_view(final(arcs)@)).contains(e),
        lengths_positive(arcs_view(old(arcs)@)) ==> forall|x: ArcView|
            #[trigger] arcs_view(old(arcs)@).contains(x) && x.dist == 1 ==> arcs_view(final(arcs)@).contains(x),
{
    let ghost start = arcs_view(arcs@);
    proof {
        lemma_edge_index_unique(start, (vs@[i as int], vs@[k as int]));
    }
    let pik = match idx[i][k] {
        None => {
            return;
        },
        Some(p) => p,
    };
    let aik = arcs[pik].duplicate();
    assert(aik@ == start[pik as int]);
    assert(arc_edge(start[pik as int]) == (vs@[i as int], vs@[k as int]));
    assert(edge_index(start, (vs@[i as int], vs@[k as int])) == pik);
    assert(through_fits(start, aik@, vs@, max_unchanged, vs@.len()));
    let n = vs.len();
    let mut j: usize = 0;
    while j < n
        invariant
            n == vs.len(),
            k < n,
            i < n,
            j <= n,
            vs@.no_duplicates(),
            aik@.from == vs@[i as int],
            aik@.to == vs@[k as int],
            through_fits(start, aik@, vs@, max_unchanged, n as nat),
            lengths_positive(start) ==> aik@.dist >= 1,
            arcs_view(arcs@) == relax_through(start, aik@, vs@, max_unchanged, j as nat),
            edges_of(arcs_view(arcs@)).no_duplicates(),
            lengths_positive(start) ==> lengths_positive(arcs_view(arcs@)),
            index_ok(idx@, arcs_view(arcs@), vs@),
            forall|x: ArcView| #[trigger] arcs_view(arcs@).contains(x) ==> start.contains(x) || x.edit.unchanged_words <= max_unchanged,
            forall|e: Edge| #[trigger] edges_of(start).contains(e) ==> edges_of(arcs_view(arcs@)).contains(e),
            lengths_positive(start) ==> forall|x: ArcView| #[trigger] start.contains(x) && x.dist == 1 ==> arcs_view(arcs@).contains(x),
        decreases n - j,
    {
        let ghost cur = arcs_view(arcs@);
        proof {
            lemma_edge_index_unique(cur, (vs@[k as int], vs@[j as int]));
            lemma_edge_index_unique(cur, (vs@[i as int], vs@[j as int]));
        }
        match idx[k][j] {
            None => {},
            Some(pkj) => {
                assert(cur[pkj as int] == arcs@[pkj as int]@);
                proof {
                    lemma_through_fits_prefix(start, aik@, vs@, max_unchanged, (j + 1) as nat, n as nat);
                    assert(step_fits(cur, aik@, vs@[j as int]));
                    assert(edge_index(cur, (vs@[k as int], vs@[j as int])) == pkj);
                }
                let d = aik.dist + arcs[pkj].dist;
                let better = match idx[i][j] {
                    None => true,
                    Some(pij) => d < arcs[pij].dist,
                };
                if better {
                    let m = merge_edits(&aik.edit, &arcs[pkj].edit);
                    if m.unchanged_words <= max_unchanged {
                        let arc = Arc { from: vs[i], to: vs[j], dist: d, edit: m };
                        let ghost new_arc = arc@;
                        match idx[i][j] {
                            Some(p) => {
                                arcs.set(p, arc);
                                proof {
                                    let after = arcs_view(arcs@);
                                    assert(after =~= cur.update(p as int, new_arc));
                                    assert(edges_of(after) =~= edges_of(cur).update(p as int, (vs@[i as int], vs@[j as int])));
                                    assert(edges_of(cur)[p as int] == (vs@[i as int], vs@[j as int]));
                                    assert(edges_of(after) =~= edges_of(cur));
                                    if lengths_positive(start) {
                                        assert(cur[pkj as int].dist >= 1);
                                        assert forall|x: int| 0 <= x < after.len() implies #[trigger] after[x].dist >= 1 by {
                                            if x != p {
                                                assert(after[x] == cur[x]);
                                            }
                                        }
                                    }
                                    assert forall|y: ArcView| #[trigger] after.contains(y) implies start.contains(y) || y.edit.unchanged_words <= max_unchanged by {
                                        let q = choose|q: int| 0 <= q < after.len() && after[q] == y;
                                        if q != p {
                                            assert(cur[q] == y);
                                            assert(cur.contains(y));
                                        }
                                    }
                                    if lengths_positive(start) {
                                        assert forall|y: ArcView| #[trigger] start.contains(y) && y.dist == 1 implies after.contains(y) by {
                                            assert(cur.contains(y));
                                            let q = choose|q: int| 0 <= q < cur.len() && cur[q] == y;
                                            if q == p {
                                                assert(cur[pkj as int].dist >= 1);
                                                assert(d < cur[p as int].dist);
                                            }
                                            assert(after[q] == y);
                                        }
                                    }
                                }
                            },
                            None => {
                                let ghost old_idx = idx@;
                                idx[i][j] = Some(arcs.len());
                                arcs.push(arc);
                                proof {
                                    let after = arcs_view(arcs@);
                                    let e = (vs@[i as int], vs@[j as int]);
                                    assert(after =~= cur.push(new_arc));
                                    assert(edges_of(after) =~= edges_of(cur).push(e));
                                    if lengths_positive(start) {
                                        assert(cur[pkj as int].dist >= 1);
                                        assert forall|x: int| 0 <= x < after.len() implies #[trigger] after[x].dist >= 1 by {
                                            if x < cur.len() {
                                                assert(after[x] == cur[x]);
                                            }
                                        }
                                    }
                                    assert forall|y: ArcView| #[trigger] after.contains(y) implies start.contains(y) || y.edit.unchanged_words <= max_unchanged by {
                                        let q = choose|q: int| 0 <= q < after.len() && after[q] == y;
                                        if q < cur.len() {
                                            assert(cur[q] == y);
                                            assert(cur.contains(y));
                                        }
                                    }
                                    assert forall|e2: Edge| #[trigger] edges_of(cur).contains(e2) implies edges_of(after).contains(e2) by {
                                        let q = choose|q: int| 0 <= q < edges_of(cur).len() && edges_of(cur)[q] == e2;
                                        assert(edges_of(after)[q] == e2);
                                    }
                                    if lengths_positive(start) {
                                        assert forall|y: ArcView| #[trigger] start.contains(y) && y.dist == 1 implies after.contains(y) by {
                                            assert(cur.contains(y));
                                            let q = choose|q: int| 0 <= q < cur.len() && cur[q] == y;
                                            assert(after[q] == y);
                                        }
                                    }
                                    assert forall|p2: int, q2: int|
                                        0 <= p2 < n && 0 <= q2 < n implies match #[trigger] idx@[p2]@[q2] {
                                            Some(a) => a < after.len() && arc_edge(after[a as int]) == (vs@[p2], vs@[q2]),
                                            None => !edges_of(after).contains((vs@[p2], vs@[q2])),
                                        } by {
                                        if p2 == i && q2 == j {
                                        } else {
                                            assert(idx@[p2]@[q2] == old_idx[p2]@[q2]);
                                            if (vs@[p2], vs@[q2]) == e {
                                                assert(vs@[p2] == vs@[i as int]);
                                                assert(vs@[q2] == vs@[j as int]);
                                            }
                                            match idx@[p2]@[q2] {
                                                Some(a) => {
                                                    assert(after[a as int] == cur[a as int]);
                                                },
                                                None => {
                                                    if edges_of(after).contains((vs@[p2], vs@[q2])) {
                                                        let y = choose|y: int| 0 <= y < edges_of(after).len() && edges_of(after)[y] == (vs@[p2], vs@[q2]);
                                                        assert(edges_of(cur)[y] == (vs@[p2], vs@[q2]));
                                                    }
                                                },
                                            }
                                        }
                                    }
                                }
                            },
                        }
                    }
                }
            },
        }
        assert(arcs_view(arcs@) == relax(cur, aik@, vs@[j as int], max_unchanged));
        j = j + 1;
    }
}

pub(crate) proof fn lemma_filter_edges_unique(s: Seq<ArcView>, keep: spec_fn(ArcView) -> bool)
    requires
        edges_of(s).no_duplicates(),
    ensures
        edges_of(s.filter(keep)).no_duplicates(),
    decreases s.len(),
{
    reveal(Seq::filter);
    if s.len() > 0 {
        let init = s.drop_last();
        assert(edges_of(init) =~= edges_of(s).drop_last());
        lemma_filter_edges_unique(init, keep);
        if keep(s.last()) {
            let f = init.filter(keep);
            let fe = edges_of(f);
            let e = arc_edge(s.last());
            assert(edges_of(f.push(s.last())) =~= fe.push(e));
            assert forall|x: int| 0 <= x < fe.len() implies fe[x] != e by {
                assert(f.contains(f[x]));
                init.lemma_filter_contains_rev(keep, f[x]);
                assert(init.contains(f[x]));
                let q = choose|q: int| 0 <= q < init.len() && init[q] == f[x];
                assert(edges_of(s)[q] == fe[x]);
                assert(edges_of(s)[s.len() - 1] == e);
            }
        }
    }
}

fn prune_transitive_noops(arcs: Vec<Arc>) -> (res: Vec<Arc>)
    ensures
        arcs_view(res@) == arcs_view(arcs@).filter(|a: ArcView| !is_transitive_noop(a)),
{
    let ghost av = arcs_view(arcs@);
    let ghost keep = |a: ArcView| !is_transitive_noop(a);
    let mut rest = arcs;
    let mut out: Vec<Arc> = Vec::new();
    let mut t: usize = 0;
    let ghost total = rest.len();
    while rest.len() > 0
        invariant
            av.len() == total,
            keep == (|a: ArcView| !is_transitive_noop(a)),
            t + rest.len() == total,
            arcs_view(rest@) == av.subrange(t as int, total as int),
            arcs_view(out@) == av.take(t as int).filter(keep),
        decreases rest.len(),
    {
        let ghost old_rest = rest@;
        assert(arcs_view(old_rest)[0] == av[t as int]);
        let a = rest.remove(0);
        assert(a@ == av[t as int]);
        proof {
            reveal(Seq::filter);
            assert(av.take(t + 1).drop_last() =~= av.take(t as int));
            assert(av.take(t + 1).last() == av[t as int]);
            assert(av.take(t + 1).filter(keep) == (if keep(av[t as int]) {
                av.take(t as int).filter(keep).push(av[t as int])
            } else {
                av.take(t as int).filter(keep)
            }));
            assert(rest@ =~= old_rest.subrange(1, old_rest.len() as int));
            assert forall|q: int| 0 <= q < rest@.len() implies arcs_view(rest@)[q] == av.subrange(t + 1, total as int)[q] by {
                assert(arcs_view(old_rest)[q + 1] == av[t + 1 + q]);
            }
            assert(arcs_view(rest@) =~= av.subrange(t + 1, total as int));
        }
        let ghost before = arcs_view(out@);
        if !(a.edit.is_noop() && a.dist > 1) {
            assert(keep(av[t as int]));
            out.push(a);
            assert(arcs_view(out@) =~= before.push(av[t as int]));
        } else {
            assert(!keep(av[t as int]));
        }
        t = t + 1;
    }
    assert(av.take(total as int) =~= av);
    out
}

/// Extends the lattice, Floyd-Warshall style, with an arc for every
/// shorter path of two arcs whose merged edit keeps at most
/// `max_unchanged_words` words, then drops the merged no-ops.
///
/// Lengths and counts of unchanged words are integers here, so no path
/// that the closure adds may leave the machine's integers
/// (`closure_fits`); every graph whose arcs run forward through the
/// alignment matrix meets this (`lemma_lattice_closure_fits`).
pub fn transitive_arcs(graph: EditGraph, max_unchanged_words: usize) -> (res: EditGraph)
    requires
        graph@.wf(),
        closure_fits(graph@.arcs, graph@.vertices, max_unchanged_words),
    ensures
        res@.vertices == graph@.vertices,
        res@.arcs == transitive_closure(graph@.arcs, graph@.vertices, max_unchanged_words),
        res@.wf(),
        in_lattice(graph@.arcs) ==> in_lattice(res@.arcs),
        forall|k: int| 0 <= k < res@.arcs.len() ==> !is_transitive_noop(#[trigger] res@.arcs[k]),
        forall|k: int|
            0 <= k < res@.arcs.len() ==> graph@.arcs.contains(#[trigger] res@.arcs[k])
                || res@.arcs[k].edit.unchanged_words <= max_unchanged_words,
        lengths_positive(graph@.arcs) ==> forall|a: ArcView| #[trigger] graph@.arcs.contains(a) && a.dist == 1 ==> res@.arcs.contains(a),
{
    let ghost gv = graph@;
    let EditGraph { vertices, mut arcs } = graph;
    let mut idx = build_index(&vertices, &arcs);
    let n = vertices.len();
    let mut k: usize = 0;
    while k < n
        invariant
            n == vertices.len(),
            k <= n,
            vertices@ == gv.vertices,
            vertices@.no_duplicates(),
            arcs_view(arcs@) == relax_rounds(gv.arcs, gv.vertices, max_unchanged_words, k as nat),
            edges_of(arcs_view(arcs@)).no_duplicates(),
            closure_fits(gv.arcs, gv.vertices, max_unchanged_words),
            lengths_positive(gv.arcs) ==> lengths_positive(arcs_view(arcs@)),
            index_ok(idx@, arcs_view(arcs@), vertices@),
            forall|x: ArcView| #[trigger] arcs_view(arcs@).contains(x) ==> gv.arcs.contains(x) || x.edit.unchanged_words <= max_unchanged_words,
            lengths_positive(gv.arcs) ==> forall|x: ArcView| #[trigger] gv.arcs.contains(x) && x.dist == 1 ==> arcs_view(arcs@).contains(x),
        decreases n - k,
    {
        let ghost round_start = arcs_view(arcs@);
        proof {
            lemma_rounds_fits_prefix(gv.arcs, gv.vertices, max_unchanged_words, (k + 1) as nat, n as nat);
        }
        let mut i: usize = 0;
        while i < n
            invariant
                n == vertices.len(),
                k < n,
                i <= n,
                vertices@ == gv.vertices,
                vertices@.no_duplicates(),
                arcs_view(arcs@) == relax_rows(round_start, gv.vertices, max_unchanged_words, k as int, i as nat),
                edges_of(arcs_view(arcs@)).no_duplicates(),
                rows_fits(round_start, gv.vertices, max_unchanged_words, k as int, n as nat),
                lengths_positive(gv.arcs) ==> lengths_positive(arcs_view(arcs@)),
                index_ok(idx@, arcs_view(arcs@), vertices@),
                forall|x: ArcView| #[trigger] arcs_view(arcs@).contains(x) ==> gv.arcs.contains(x) || x.edit.unchanged_words <= max_unchanged_words,
                lengths_positive(gv.arcs) ==> forall|x: ArcView| #[trigger] gv.arcs.contains(x) && x.dist == 1 ==> arcs_view(arcs@).contains(x),
            decreases n - i,
        {
            let ghost row_start = arcs_view(arcs@);
            proof {
                lemma_rows_fits_prefix(round_start, gv.vertices, max_unchanged_words, k as int, (i + 1) as nat, n as nat);
            }
            relax_row_exec(&mut arcs, &mut idx, &vertices, max_unchanged_words, k, i);
            proof {
                if lengths_positive(gv.arcs) {
                    assert forall|x: ArcView| #[trigger] gv.arcs.contains(x) && x.dist == 1 implies arcs_view(arcs@).contains(x) by {
                        assert(row_start.contains(x));
                    }
                }
                assert forall|x: ArcView| #[trigger] arcs_view(arcs@).contains(x) implies gv.arcs.contains(x) || x.edit.unchanged_words <= max_unchanged_words by {
                    if row_start.contains(x) {
                    }
                }
            }
            i = i + 1;
        }
        k = k + 1;
    }
    let ghost closed = arcs_view(arcs@);
    let arcs = prune_transitive_noops(arcs);
    proof {
        let keep = |a: ArcView| !is_transitive_noop(a);
        let res = arcs_view(arcs@);
        assert forall|x: int| 0 <= x < res.len() implies !is_transitive_noop(#[trigger] res[x]) && closed.contains(res[x]) by {
            closed.lemma_filter_pred(keep, x);
            assert(res.contains(res[x]));
            closed.lemma_filter_contains_rev(keep, res[x]);
        }
        if in_lattice(gv.arcs) {
            lemma_lattice_closure_fits(gv.arcs, gv.vertices, max_unchanged_words);
        }
        assert forall|x: int| 0 <= x < res.len() implies gv.arcs.contains(#[trigger] res[x]) || res[x].edit.unchanged_words <= max_unchanged_words by {
            assert(closed.contains(res[x]));
        }
        if lengths_positive(gv.arcs) {
            assert forall|a: ArcView| #[trigger] gv.arcs.contains(a) && a.dist == 1 implies res.contains(a) by {
                assert(closed.contains(a));
                let q = choose|q: int| 0 <= q < closed.len() && closed[q] == a;
                closed.lemma_filter_contains(keep, q);
            }
        }
        lemma_filter_edges_unique(closed, keep);
    }
    EditGraph { vertices, arcs }
}

} // verus!
