//! The lexicographic order of vertices and edges, and sorting by it.

use vstd::prelude::*;
use crate::align::Vertex;
use crate::graph::{Arc, ArcView, Edge, edges_of};

verus! {

/// `a` comes before `b`: first by row, then by column.
pub open spec fn vertex_lt(a: Vertex, b: Vertex) -> bool {
    a.0 < b.0 || (a.0 == b.0 && a.1 < b.1)
}

/// `e` comes before `f`: first by source vertex, then by target vertex.
pub open spec fn edge_lt(e: Edge, f: Edge) -> bool {
    vertex_lt(e.0, f.0) || (e.0 == f.0 && vertex_lt(e.1, f.1))
}

/// Each vertex of `s` comes before the next ones.
pub open spec fn vertices_sorted(s: Seq<Vertex>) -> bool {
    forall|i: int, j: int| 0 <= i < j < s.len() ==> vertex_lt(#[trigger] s[i], #[trigger] s[j])
}

/// Each edge of `s` comes before the next ones.
pub open spec fn edges_sorted(s: Seq<Edge>) -> bool {
    forall|i: int, j: int| 0 <= i < j < s.len() ==> edge_lt(#[trigger] s[i], #[trigger] s[j])
}

/// Whether `a` comes before `b`.
pub fn vertex_less(a: Vertex, b: Vertex) -> (res: bool)
    ensures
        res == vertex_lt(a, b),
{
    a.0 < b.0 || (a.0 == b.0 && a.1 < b.1)
}

/// Whether `e` comes before `f`.
pub fn edge_less(e: Edge, f: Edge) -> (res: bool)
    ensures
        res == edge_lt(e, f),
{
    vertex_less(e.0, f.0) || (e.0.0 == f.0.0 && e.0.1 == f.0.1 && vertex_less(e.1, f.1))
}

/// Whether two vertices are the same.
pub fn vertex_eq(a: Vertex, b: Vertex) -> (res: bool)
    ensures
        res == (a == b),
{
    a.0 == b.0 && a.1 == b.1
}

/// Whether two edges are the same.
pub fn edge_eq(e: Edge, f: Edge) -> (res: bool)
    ensures
        res == (e == f),
{
    vertex_eq(e.0, f.0) && vertex_eq(e.1, f.1)
}

/// The values of a list of arcs.
pub open spec fn arcs_view(s: Seq<Arc>) -> Seq<ArcView> {
    s.map_values(|a: Arc| a@)
}

/// The edge of an arc.
pub open spec fn arc_edge(a: ArcView) -> Edge {
    (a.from, a.to)
}

/// Two increasing lists of the same edges are the same list.
pub proof fn lemma_sorted_edges_unique(a: Seq<Edge>, b: Seq<Edge>)
    requires
        edges_sorted(a),
        edges_sorted(b),
        forall|e: Edge| a.contains(e) <==> b.contains(e),
    ensures
        a == b,
    decreases a.len(),
{
    if a.len() == 0 {
        if b.len() > 0 {
            assert(b.contains(b[0]));
        }
        assert(a =~= b);
    } else {
        if b.len() == 0 {
            assert(a.contains(a[0]));
        }
        assert(a.contains(a[0]));
        assert(b.contains(b[0]));
        let i = choose|i: int| 0 <= i < b.len() && b[i] == a[0];
        let j = choose|j: int| 0 <= j < a.len() && a[j] == b[0];
        if i > 0 {
            assert(edge_lt(b[0], b[i]));
            if j > 0 {
                assert(edge_lt(a[0], a[j]));
            }
        }
        assert(a[0] == b[0]);
        let a2 = a.drop_first();
        let b2 = b.drop_first();
        assert forall|e: Edge| a2.contains(e) <==> b2.contains(e) by {
            if a2.contains(e) {
                let k = choose|k: int| 0 <= k < a2.len() && a2[k] == e;
                assert(a[k + 1] == e);
                assert(edge_lt(a[0], a[k + 1]));
                assert(a.contains(e));
                let m = choose|m: int| 0 <= m < b.len() && b[m] == e;
                assert(m != 0);
                assert(b2[m - 1] == e);
            }
            if b2.contains(e) {
                let k = choose|k: int| 0 <= k < b2.len() && b2[k] == e;
                assert(b[k + 1] == e);
                assert(edge_lt(b[0], b[k + 1]));
                assert(b.contains(e));
                let m = choose|m: int| 0 <= m < a.len() && a[m] == e;
                assert(m != 0);
                assert(a2[m - 1] == e);
            }
        }
        assert forall|x: int, y: int| 0 <= x < y < a2.len() implies edge_lt(#[trigger] a2[x], #[trigger] a2[y]) by {
            assert(a2[x] == a[x + 1]);
            assert(a2[y] == a[y + 1]);
        }
        assert forall|x: int, y: int| 0 <= x < y < b2.len() implies edge_lt(#[trigger] b2[x], #[trigger] b2[y]) by {
            assert(b2[x] == b[x + 1]);
            assert(b2[y] == b[y + 1]);
        }
        lemma_sorted_edges_unique(a2, b2);
        assert(a =~= seq![a[0]] + a2);
        assert(b =~= seq![b[0]] + b2);
    }
}

/// Two increasing lists of the same vertices are the same list.
pub proof fn lemma_sorted_vertices_unique(a: Seq<Vertex>, b: Seq<Vertex>)
    requires
        vertices_sorted(a),
        vertices_sorted(b),
        forall|v: Vertex| a.contains(v) <==> b.contains(v),
    ensures
        a == b,
{
    let ea = a.map_values(|v: Vertex| (v, v));
    let eb = b.map_values(|v: Vertex| (v, v));
    assert(edges_sorted(ea)) by {
        assert forall|i: int, j: int| 0 <= i < j < ea.len() implies edge_lt(#[trigger] ea[i], #[trigger] ea[j]) by {
            assert(vertex_lt(a[i], a[j]));
        }
    }
    assert(edges_sorted(eb)) by {
        assert forall|i: int, j: int| 0 <= i < j < eb.len() implies edge_lt(#[trigger] eb[i], #[trigger] eb[j]) by {
            assert(vertex_lt(b[i], b[j]));
        }
    }
    assert forall|e: Edge| ea.contains(e) <==> eb.contains(e) by {
        if ea.contains(e) {
            let i = choose|i: int| 0 <= i < ea.len() && ea[i] == e;
            assert(a.contains(a[i]));
            let j = choose|j: int| 0 <= j < b.len() && b[j] == a[i];
            assert(eb[j] == e);
        }
        if eb.contains(e) {
            let i = choose|i: int| 0 <= i < eb.len() && eb[i] == e;
            assert(b.contains(b[i]));
            let j = choose|j: int| 0 <= j < a.len() && a[j] == b[i];
            assert(ea[j] == e);
        }
    }
    lemma_sorted_edges_unique(ea, eb);
    assert(a.len() == ea.len() && eb.len() == b.len());
    assert forall|i: int| 0 <= i < a.len() implies a[i] == b[i] by {
        assert(ea[i] == eb[i]);
        assert(ea[i].0 == a[i]);
        assert(eb[i].0 == b[i]);
    }
    assert(a =~= b);
}

/// The edges of the arcs at positions `pos`.
pub open spec fn edges_at(arcs: Seq<ArcView>, pos: Seq<usize>) -> Seq<Edge> {
    pos.map_values(|p: usize| arc_edge(arcs[p as int]))
}

/// The keys at positions `pos`.
pub open spec fn keys_at(keys: Seq<Edge>, pos: Seq<usize>) -> Seq<Edge> {
    pos.map_values(|p: usize| keys[p as int])
}

/// Orders positions of distinct keys by their keys (a selection sort).
pub fn sort_by_keys(keys: &Vec<Edge>, v: Vec<usize>) -> (res: Vec<usize>)
    requires
        forall|k: int| 0 <= k < v.len() ==> #[trigger] v@[k] < keys.len(),
        keys_at(keys@, v@).no_duplicates(),
    ensures
        forall|k: int| 0 <= k < res.len() ==> #[trigger] res@[k] < keys.len(),
        edges_sorted(keys_at(keys@, res@)),
        forall|p: usize| res@.contains(p) <==> v@.contains(p),
{
    let ghost av = keys@;
    let ghost orig = v@;
    let mut rest = v;
    let mut out: Vec<usize> = Vec::new();
    while rest.len() > 0
        invariant
            av == keys@,
            forall|k: int| 0 <= k < rest.len() ==> #[trigger] rest@[k] < keys.len(),
            forall|k: int| 0 <= k < out.len() ==> #[trigger] out@[k] < keys.len(),
            edges_sorted(keys_at(av, out@)),
            keys_at(av, rest@).no_duplicates(),
            forall|i: int, j: int|
                0 <= i < out.len() && 0 <= j < rest.len() ==> edge_lt(
                    av[#[trigger] out@[i] as int],
                    av[#[trigger] rest@[j] as int],
                ),
            forall|x: usize| orig.contains(x) <==> (out@.contains(x) || rest@.contains(x)),
        decreases rest.len(),
    {
        let mut best: usize = 0;
        let mut k: usize = 1;
        while k < rest.len()
            invariant
                av == keys@,
                forall|q: int| 0 <= q < rest.len() ==> #[trigger] rest@[q] < keys.len(),
                1 <= k <= rest.len(),
                best < k,
                forall|j: int| 0 <= j < k && j != best ==> edge_lt(av[rest@[best as int] as int], av[#[trigger] rest@[j] as int]),
                keys_at(av, rest@).no_duplicates(),
            decreases rest.len() - k,
        {
            let a = rest[k];
            let b = rest[best];
            assert(keys_at(av, rest@)[k as int] != keys_at(av, rest@)[best as int]);
            if edge_less(keys[a], keys[b]) {
                best = k;
            }
            k = k + 1;
        }
        let ghost old_rest = rest@;
        let ghost old_out = out@;
        let x = rest.remove(best);
        out.push(x);
        proof {
            assert(rest@ =~= old_rest.remove(best as int));
            assert(out@ =~= old_out.push(x));
            assert forall|i: int, j: int| 0 <= i < out.len() && 0 <= j < rest.len() implies edge_lt(
                av[#[trigger] out@[i] as int],
                av[#[trigger] rest@[j] as int],
            ) by {
                if j < best {
                    assert(rest@[j] == old_rest[j]);
                } else {
                    assert(rest@[j] == old_rest[j + 1]);
                }
                if i < old_out.len() {
                    assert(out@[i] == old_out[i]);
                }
            }
            assert forall|i: int, j: int| 0 <= i < j < out.len() implies edge_lt(
                #[trigger] keys_at(av, out@)[i],
                #[trigger] keys_at(av, out@)[j],
            ) by {
                if j == out.len() - 1 {
                    assert(out@[i] == old_out[i]);
                } else {
                    assert(keys_at(av, old_out)[i] == keys_at(av, out@)[i]);
                    assert(keys_at(av, old_out)[j] == keys_at(av, out@)[j]);
                }
            }
            assert forall|i: int, j: int| 0 <= i < rest.len() && 0 <= j < rest.len() && i != j implies keys_at(av, rest@)[i] != keys_at(av, rest@)[j] by {
                let oi = if i < best { i } else { i + 1 };
                let oj = if j < best { j } else { j + 1 };
                assert(keys_at(av, rest@)[i] == keys_at(av, old_rest)[oi]);
                assert(keys_at(av, rest@)[j] == keys_at(av, old_rest)[oj]);
            }
            assert forall|y: usize| orig.contains(y) implies (out@.contains(y) || rest@.contains(y)) by {
                if old_out.contains(y) {
                    let q = choose|q: int| 0 <= q < old_out.len() && old_out[q] == y;
                    assert(out@[q] == y);
                } else {
                    let q = choose|q: int| 0 <= q < old_rest.len() && old_rest[q] == y;
                    if q < best {
                        assert(rest@[q] == y);
                    } else if q > best {
                        assert(rest@[q - 1] == y);
                    } else {
                        assert(out@[out.len() - 1] == y);
                    }
                }
            }
            assert forall|y: usize| (out@.contains(y) || rest@.contains(y)) implies orig.contains(y) by {
                if out@.contains(y) {
                    let q = choose|q: int| 0 <= q < out@.len() && out@[q] == y;
                    if q < old_out.len() {
                        assert(old_out[q] == y);
                        assert(old_out.contains(y));
                    } else {
                        assert(old_rest[best as int] == y);
                        assert(old_rest.contains(y));
                    }
                } else {
                    let q = choose|q: int| 0 <= q < rest@.len() && rest@[q] == y;
                    if q < best {
                        assert(old_rest[q] == y);
                    } else {
                        assert(old_rest[q + 1] == y);
                    }
                    assert(old_rest.contains(y));
                }
            }
        }
    }
    out
}


/// The positions `0..n`.
fn all_positions(n: usize) -> (res: Vec<usize>)
    ensures
        res.len() == n,
        forall|k: int| 0 <= k < n ==> #[trigger] res@[k] == k,
{
    let mut res: Vec<usize> = Vec::new();
    let mut k: usize = 0;
    while k < n
        invariant
            k <= n,
            res.len() == k,
            forall|t: int| 0 <= t < k ==> #[trigger] res@[t] == t,
        decreases n - k,
    {
        res.push(k);
        k = k + 1;
    }
    res
}

/// Orders all positions of distinct keys by their keys.
fn sorted_positions(keys: &Vec<Edge>) -> (res: Vec<usize>)
    requires
        keys@.no_duplicates(),
    ensures
        forall|k: int| 0 <= k < res.len() ==> #[trigger] res@[k] < keys.len(),
        edges_sorted(keys_at(keys@, res@)),
        forall|p: usize| res@.contains(p) <==> p < keys.len(),
{
    let pos = all_positions(keys.len());
    proof {
        assert(keys_at(keys@, pos@) =~= keys@);
    }
    let res = sort_by_keys(keys, pos);
    proof {
        assert forall|p: usize| res@.contains(p) <==> p < keys.len() by {
            if p < keys.len() {
                assert(pos@[p as int] == p);
            }
        }
    }
    res
}

/// The edges of a list of arcs.
fn arc_edges(arcs: &Vec<Arc>) -> (res: Vec<Edge>)
    ensures
        res@ == edges_of(arcs_view(arcs@)),
{
    let mut res: Vec<Edge> = Vec::new();
    let mut k: usize = 0;
    while k < arcs.len()
        invariant
            k <= arcs.len(),
            res@ == edges_of(arcs_view(arcs@)).take(k as int),
        decreases arcs.len() - k,
    {
        res.push((arcs[k].from, arcs[k].to));
        k = k + 1;
    }
    assert(edges_of(arcs_view(arcs@)).take(arcs.len() as int) =~= edges_of(arcs_view(arcs@)));
    res
}

/// Sorts distinct vertices. A vertex is keyed by its edge to `(0, 0)`,
/// and those edges are in the order of their first vertices.
pub fn sort_vertices(v: Vec<Vertex>) -> (res: Vec<Vertex>)
    requires
        v@.no_duplicates(),
    ensures
        vertices_sorted(res@),
        forall|x: Vertex| res@.contains(x) <==> v@.contains(x),
        res@.no_duplicates(),
{
    let mut keys: Vec<Edge> = Vec::new();
    let mut k: usize = 0;
    while k < v.len()
        invariant
            k <= v.len(),
            keys.len() == k,
            forall|t: int| 0 <= t < k ==> #[trigger] keys@[t] == (v@[t], (0usize, 0usize)),
        decreases v.len() - k,
    {
        keys.push((v[k], (0, 0)));
        k = k + 1;
    }
    let perm = sorted_positions(&keys);
    let mut out: Vec<Vertex> = Vec::new();
    let mut t: usize = 0;
    while t < perm.len()
        invariant
            t <= perm.len(),
            keys.len() == v.len(),
            forall|q: int| 0 <= q < perm.len() ==> #[trigger] perm@[q] < keys.len(),
            out.len() == t,
            forall|q: int| 0 <= q < t ==> #[trigger] out@[q] == v@[perm@[q] as int],
        decreases perm.len() - t,
    {
        out.push(v[perm[t]]);
        t = t + 1;
    }
    proof {
        let ks = keys_at(keys@, perm@);
        assert forall|i: int, j: int| 0 <= i < j < out.len() implies vertex_lt(#[trigger] out@[i], #[trigger] out@[j]) by {
            assert(edge_lt(ks[i], ks[j]));
        }
        assert forall|i: int, j: int| 0 <= i < out.len() && 0 <= j < out.len() && i != j implies out@[i] != out@[j] by {
            if i < j {
                assert(vertex_lt(out@[i], out@[j]));
            } else {
                assert(vertex_lt(out@[j], out@[i]));
            }
        }
        assert forall|x: Vertex| out@.contains(x) <==> v@.contains(x) by {
            if out@.contains(x) {
                let q = choose|q: int| 0 <= q < out.len() && out@[q] == x;
                assert(v@[perm@[q] as int] == x);
            }
            if v@.contains(x) {
                let p = choose|p: int| 0 <= p < v.len() && v@[p] == x;
                assert(perm@.contains(p as usize));
                let q = choose|q: int| 0 <= q < perm.len() && perm@[q] == p as usize;
                assert(out@[q] == x);
            }
        }
    }
    out
}

/// Sorts arcs with distinct edges by their edges.
pub fn sort_arcs(v: Vec<Arc>) -> (res: Vec<Arc>)
    requires
        edges_of(arcs_view(v@)).no_duplicates(),
    ensures
        edges_sorted(edges_of(arcs_view(res@))),
        edges_of(arcs_view(res@)).no_duplicates(),
        forall|a: ArcView| arcs_view(res@).contains(a) <==> arcs_view(v@).contains(a),
{
    let ghost av = arcs_view(v@);
    let keys = arc_edges(&v);
    let perm = sorted_positions(&keys);
    let mut out: Vec<Arc> = Vec::new();
    let mut t: usize = 0;
    while t < perm.len()
        invariant
            t <= perm.len(),
            av == arcs_view(v@),
            keys.len() == v.len(),
            forall|q: int| 0 <= q < perm.len() ==> #[trigger] perm@[q] < keys.len(),
            out.len() == t,
            forall|q: int| 0 <= q < t ==> #[trigger] arcs_view(out@)[q] == av[perm@[q] as int],
        decreases perm.len() - t,
    {
        let ghost before = arcs_view(out@);
        out.push(v[perm[t]].duplicate());
        proof {
            assert(arcs_view(out@) =~= before.push(av[perm@[t as int] as int]));
        }
        t = t + 1;
    }
    proof {
        let ov = arcs_view(out@);
        let ks = keys_at(keys@, perm@);
        assert(edges_of(ov) =~= ks) by {
            assert forall|q: int| 0 <= q < ov.len() implies edges_of(ov)[q] == ks[q] by {
                assert(ov[q] == av[perm@[q] as int]);
                assert(edges_of(av)[perm@[q] as int] == keys@[perm@[q] as int]);
            }
        }
        assert forall|i: int, j: int| 0 <= i < ks.len() && 0 <= j < ks.len() && i != j implies ks[i] != ks[j] by {
            if i < j {
                assert(edge_lt(ks[i], ks[j]));
            } else {
                assert(edge_lt(ks[j], ks[i]));
            }
        }
        assert forall|a: ArcView| ov.contains(a) <==> av.contains(a) by {
            if ov.contains(a) {
                let q = choose|q: int| 0 <= q < ov.len() && ov[q] == a;
                assert(av[perm@[q] as int] == a);
            }
            if av.contains(a) {
                let p = choose|p: int| 0 <= p < av.len() && av[p] == a;
                assert(perm@.contains(p as usize));
                let q = choose|q: int| 0 <= q < perm.len() && perm@[q] == p as usize;
                assert(ov[q] == a);
            }
        }
    }
    out
}

/// Orders positions of arcs with distinct edges by the edges of their arcs.
pub fn sort_positions_by_edge(arcs: &Vec<Arc>, v: Vec<usize>) -> (res: Vec<usize>)
    requires
        forall|k: int| 0 <= k < v.len() ==> #[trigger] v@[k] < arcs.len(),
        edges_at(arcs_view(arcs@), v@).no_duplicates(),
    ensures
        forall|k: int| 0 <= k < res.len() ==> #[trigger] res@[k] < arcs.len(),
        edges_sorted(edges_at(arcs_view(arcs@), res@)),
        forall|p: usize| res@.contains(p) <==> v@.contains(p),
{
    let ghost av = arcs_view(arcs@);
    let keys = arc_edges(arcs);
    proof {
        assert(keys_at(keys@, v@) =~= edges_at(av, v@)) by {
            assert forall|q: int| 0 <= q < v.len() implies keys_at(keys@, v@)[q] == edges_at(av, v@)[q] by {
                assert(edges_of(av)[v@[q] as int] == arc_edge(av[v@[q] as int]));
            }
        }
    }
    let res = sort_by_keys(&keys, v);
    proof {
        assert(keys_at(keys@, res@) =~= edges_at(av, res@)) by {
            assert forall|q: int| 0 <= q < res.len() implies keys_at(keys@, res@)[q] == edges_at(av, res@)[q] by {
                assert(edges_of(av)[res@[q] as int] == arc_edge(av[res@[q] as int]));
            }
        }
    }
    res
}

} // verus!
