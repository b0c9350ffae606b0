//! The lattice of edits between a source sentence and a hypothesis, and its
//! construction from the backpointers of the alignment matrix.

use vstd::prelude::*;
use crate::align::{Vertex, preds_view};
use crate::edit::{Edit, EditView};
use crate::order::{vertices_sorted, edges_sorted, sort_vertices, sort_arcs, vertex_eq, edge_eq, arcs_view, arc_edge, lemma_sorted_edges_unique, lemma_sorted_vertices_unique};

verus! {

/// An arc of the lattice, from one vertex to another.
pub type Edge = (Vertex, Vertex);

/// An arc of the lattice: its end points, its length and the edit it stands for.
pub struct Arc {
    pub from: Vertex,
    pub to: Vertex,
    pub dist: u64,
    pub edit: Edit,
}

/// The mathematical value of an [`Arc`].
pub struct ArcView {
    pub from: Vertex,
    pub to: Vertex,
    pub dist: u64,
    pub edit: EditView,
}

impl View for Arc {
    type V = ArcView;

    open spec fn view(&self) -> ArcView {
        ArcView { from: self.from, to: self.to, dist: self.dist, edit: self.edit@ }
    }
}

impl Arc {
    /// A copy of this arc.
    pub fn duplicate(&self) -> (res: Arc)
        ensures
            res@ == self@,
    {
        Arc { from: self.from, to: self.to, dist: self.dist, edit: self.edit.duplicate() }
    }
}

/// The lattice of edits: its vertices and its arcs, in order.
pub struct EditGraph {
    pub vertices: Vec<Vertex>,
    pub arcs: Vec<Arc>,
}

/// The mathematical value of an [`EditGraph`].
pub struct GraphView {
    pub vertices: Seq<Vertex>,
    pub arcs: Seq<ArcView>,
}

impl View for EditGraph {
    type V = GraphView;

    open spec fn view(&self) -> GraphView {
        GraphView { vertices: self.vertices@, arcs: self.arcs@.map_values(|a: Arc| a@) }
    }
}

/// The edges of a list of arcs.
pub open spec fn edges_of(arcs: Seq<ArcView>) -> Seq<Edge> {
    arcs.map_values(|a: ArcView| (a.from, a.to))
}

impl GraphView {
    /// The edges of the graph, in the order of its arcs.
    pub open spec fn edges(self) -> Seq<Edge> {
        edges_of(self.arcs)
    }

    /// No vertex and no edge occurs twice.
    pub open spec fn wf(self) -> bool {
        &&& self.vertices.no_duplicates()
        &&& self.edges().no_duplicates()
    }
}

/// The backpointers of vertex `v`: those of its cell when `v` lies in the
/// table, none otherwise.
pub open spec fn preds_at(bp: Seq<Vec<Vec<(Vertex, Edit)>>>, v: Vertex) -> Seq<(Vertex, EditView)> {
    if v.0 < bp.len() && v.1 < bp[v.0 as int]@.len() {
        preds_view(bp[v.0 as int]@[v.1 as int]@)
    } else {
        Seq::empty()
    }
}

/// The vertices that `v` points back to.
pub open spec fn pred_vertices(bp: Seq<Vec<Vec<(Vertex, Edit)>>>, v: Vertex) -> Seq<Vertex> {
    preds_at(bp, v).map_values(|p: (Vertex, EditView)| p.0)
}

/// `path` starts at `start` and each of its vertices points back to the next.
pub open spec fn is_back_path(bp: Seq<Vec<Vec<(Vertex, Edit)>>>, start: Vertex, path: Seq<Vertex>) -> bool {
    &&& path.len() >= 1
    &&& path[0] == start
    &&& forall|k: int| 0 <= k < path.len() - 1 ==> #[trigger] pred_vertices(bp, path[k]).contains(path[k + 1])
}

/// Vertex `v` can be reached from `start` by following backpointers.
pub open spec fn reaches(bp: Seq<Vec<Vec<(Vertex, Edit)>>>, start: Vertex, v: Vertex) -> bool {
    exists|path: Seq<Vertex>| #[trigger] is_back_path(bp, start, path) && path.last() == v
}

/// The arcs into `v`, one per backpointer of `v`, each of length 1.
pub open spec fn arcs_into(bp: Seq<Vec<Vec<(Vertex, Edit)>>>, v: Vertex) -> Seq<ArcView> {
    preds_at(bp, v).map_values(|p: (Vertex, EditView)| ArcView { from: p.0, to: v, dist: 1, edit: p.1 })
}

/// The arcs into each of `vs`, in the order of `vs`.
pub open spec fn arcs_into_all(bp: Seq<Vec<Vec<(Vertex, Edit)>>>, vs: Seq<Vertex>) -> Seq<ArcView>
    decreases vs.len(),
{
    if vs.len() == 0 {
        Seq::empty()
    } else {
        arcs_into_all(bp, vs.drop_last()) + arcs_into(bp, vs.last())
    }
}

/// A table of backpointers of `rows` by `cols` cells.
pub open spec fn backpointer_table(bp: Seq<Vec<Vec<(Vertex, Edit)>>>, rows: int, cols: int) -> bool {
    &&& bp.len() == rows
    &&& forall|i: int| 0 <= i < rows ==> #[trigger] bp[i]@.len() == cols
}

/// The backpointers of one cell lead to different vertices.
pub open spec fn distinct_preds(bp: Seq<Vec<Vec<(Vertex, Edit)>>>) -> bool {
    forall|i: int, j: int, k1: int, k2: int|
        0 <= i < bp.len() && 0 <= j < bp[i]@.len() && 0 <= k1 < bp[i]@[j]@.len() && 0 <= k2 < bp[i]@[j]@.len()
            && k1 != k2 ==> (#[trigger] bp[i]@[j]@[k1]).0 != (#[trigger] bp[i]@[j]@[k2]).0
}

spec fn row_unvisited(r: Seq<bool>) -> nat
    decreases r.len(),
{
    if r.len() == 0 {
        0
    } else {
        row_unvisited(r.drop_last()) + if r.last() { 0nat } else { 1nat }
    }
}

spec fn grid_unvisited(g: Seq<Vec<bool>>) -> nat
    decreases g.len(),
{
    if g.len() == 0 {
        0
    } else {
        grid_unvisited(g.drop_last()) + row_unvisited(g.last()@)
    }
}

proof fn lemma_row_mark(r: Seq<bool>, c: int)
    requires
        0 <= c < r.len(),
        !r[c],
    ensures
        row_unvisited(r.update(c, true)) + 1 == row_unvisited(r),
    decreases r.len(),
{
    let r2 = r.update(c, true);
    if c == r.len() - 1 {
        assert(r2.drop_last() =~= r.drop_last());
    } else {
        lemma_row_mark(r.drop_last(), c);
        assert(r2.drop_last() =~= r.drop_last().update(c, true));
    }
}

proof fn lemma_grid_mark(g: Seq<Vec<bool>>, g2: Seq<Vec<bool>>, i: int, c: int)
    requires
        0 <= i < g.len(),
        g2.len() == g.len(),
        0 <= c < g[i]@.len(),
        !g[i]@[c],
        g2[i]@ == g[i]@.update(c, true),
        forall|k: int| 0 <= k < g.len() && k != i ==> g2[k] == g[k],
    ensures
        grid_unvisited(g2) + 1 == grid_unvisited(g),
    decreases g.len(),
{
    if i == g.len() - 1 {
        assert(g2.drop_last() =~= g.drop_last());
        lemma_row_mark(g[i]@, c);
    } else {
        lemma_grid_mark(g.drop_last(), g2.drop_last(), i, c);
        assert(g2.last() == g.last());
    }
}

proof fn lemma_arcs_into_all_edges(bp: Seq<Vec<Vec<(Vertex, Edit)>>>, vs: Seq<Vertex>, e: Edge)
    ensures
        edges_of(arcs_into_all(bp, vs)).contains(e) <==> (vs.contains(e.1) && pred_vertices(bp, e.1).contains(e.0)),
    decreases vs.len(),
{
    if vs.len() > 0 {
        let init = vs.drop_last();
        let v = vs.last();
        lemma_arcs_into_all_edges(bp, init, e);
        let a0 = arcs_into_all(bp, init);
        let a1 = arcs_into(bp, v);
        assert(edges_of(a0 + a1) =~= edges_of(a0) + edges_of(a1));
        assert(edges_of(a1) =~= pred_vertices(bp, v).map_values(|p: Vertex| (p, v)));
        let ea = edges_of(a0);
        let eb = edges_of(a1);
        if (ea + eb).contains(e) {
            let k = choose|k: int| 0 <= k < (ea + eb).len() && (ea + eb)[k] == e;
            if k < ea.len() {
                assert(ea[k] == e);
                assert(ea.contains(e));
                let q = choose|q: int| 0 <= q < init.len() && init[q] == e.1;
                assert(vs[q] == e.1);
            } else {
                assert(eb[k - ea.len()] == e);
                assert(pred_vertices(bp, v)[k - ea.len()] == e.0);
                assert(vs[vs.len() - 1] == v);
            }
        }
        if vs.contains(e.1) && pred_vertices(bp, e.1).contains(e.0) {
            if e.1 == v {
                let k = choose|k: int| 0 <= k < pred_vertices(bp, v).len() && pred_vertices(bp, v)[k] == e.0;
                assert(eb[k] == e);
                assert((ea + eb)[ea.len() + k] == e);
            } else {
                let k = choose|k: int| 0 <= k < vs.len() && vs[k] == e.1;
                assert(init[k] == e.1);
                assert(ea.contains(e));
                let q = choose|q: int| 0 <= q < ea.len() && ea[q] == e;
                assert((ea + eb)[q] == e);
            }
        }
    }
}

proof fn lemma_arcs_into_all_unique(bp: Seq<Vec<Vec<(Vertex, Edit)>>>, vs: Seq<Vertex>)
    requires
        vs.no_duplicates(),
        forall|k: int| 0 <= k < vs.len() ==> (#[trigger] pred_vertices(bp, vs[k])).no_duplicates(),
    ensures
        edges_of(arcs_into_all(bp, vs)).no_duplicates(),
    decreases vs.len(),
{
    if vs.len() > 0 {
        let init = vs.drop_last();
        let v = vs.last();
        assert forall|k: int| 0 <= k < init.len() implies (#[trigger] pred_vertices(bp, init[k])).no_duplicates() by {
            assert(init[k] == vs[k]);
        }
        lemma_arcs_into_all_unique(bp, init);
        let a0 = arcs_into_all(bp, init);
        let a1 = arcs_into(bp, v);
        let ea = edges_of(a0);
        let eb = edges_of(a1);
        assert(edges_of(a0 + a1) =~= ea + eb);
        assert(pred_vertices(bp, vs[vs.len() - 1]).no_duplicates());
        assert forall|i: int, j: int| 0 <= i < (ea + eb).len() && 0 <= j < (ea + eb).len() && i != j implies (ea + eb)[i] != (ea + eb)[j] by {
            if i < ea.len() && j >= ea.len() {
                lemma_arcs_into_all_edges(bp, init, ea[i]);
                assert(ea.contains(ea[i]));
                assert(eb[j - ea.len()].1 == v);
                if ea[i] == eb[j - ea.len()] {
                    let q = choose|q: int| 0 <= q < init.len() && init[q] == v;
                    assert(vs[q] == vs[vs.len() - 1]);
                }
            } else if i >= ea.len() && j < ea.len() {
                lemma_arcs_into_all_edges(bp, init, ea[j]);
                assert(ea.contains(ea[j]));
                assert(eb[i - ea.len()].1 == v);
                if ea[j] == eb[i - ea.len()] {
                    let q = choose|q: int| 0 <= q < init.len() && init[q] == v;
                    assert(vs[q] == vs[vs.len() - 1]);
                }
            } else if i >= ea.len() && j >= ea.len() {
                assert(eb[i - ea.len()].0 == pred_vertices(bp, v)[i - ea.len()]);
                assert(eb[j - ea.len()].0 == pred_vertices(bp, v)[j - ea.len()]);
            }
        }
    }
}

proof fn lemma_closed_holds_path(bp: Seq<Vec<Vec<(Vertex, Edit)>>>, start: Vertex, s: Seq<Vertex>, path: Seq<Vertex>, k: int)
    requires
        s.contains(start),
        forall|u: Vertex, p: Vertex| s.contains(u) && #[trigger] pred_vertices(bp, u).contains(p) ==> #[trigger] s.contains(p),
        is_back_path(bp, start, path),
        0 <= k < path.len(),
    ensures
        s.contains(path[k]),
    decreases k,
{
    if k > 0 {
        lemma_closed_holds_path(bp, start, s, path, k - 1);
        let j = k - 1;
        assert(pred_vertices(bp, path[j]).contains(path[j + 1]));
    }
}

proof fn lemma_closed_holds_reachable(bp: Seq<Vec<Vec<(Vertex, Edit)>>>, start: Vertex, s: Seq<Vertex>, v: Vertex)
    requires
        s.contains(start),
        forall|u: Vertex, p: Vertex| s.contains(u) && #[trigger] pred_vertices(bp, u).contains(p) ==> #[trigger] s.contains(p),
        reaches(bp, start, v),
    ensures
        s.contains(v),
{
    let path = choose|path: Seq<Vertex>| #[trigger] is_back_path(bp, start, path) && path.last() == v;
    lemma_closed_holds_path(bp, start, s, path, path.len() - 1);
}

proof fn lemma_reaches_pred(bp: Seq<Vec<Vec<(Vertex, Edit)>>>, start: Vertex, v: Vertex, p: Vertex)
    requires
        reaches(bp, start, v),
        pred_vertices(bp, v).contains(p),
    ensures
        reaches(bp, start, p),
{
    let path = choose|path: Seq<Vertex>| #[trigger] is_back_path(bp, start, path) && path.last() == v;
    let path2 = path.push(p);
    assert forall|k: int| 0 <= k < path2.len() - 1 implies #[trigger] pred_vertices(bp, path2[k]).contains(path2[k + 1]) by {
        if k < path.len() - 1 {
            assert(pred_vertices(bp, path[k]).contains(path[k + 1]));
        }
    }
    assert(is_back_path(bp, start, path2));
}

/// The state of a breadth-first walk: the vertices waiting, first to be
/// taken first, and the vertices taken so far, in order.
pub struct BfsState {
    pub queue: Seq<Vertex>,
    pub visited: Seq<Vertex>,
}

/// One step of the walk: the first waiting vertex is dropped if it was taken
/// before; otherwise it is taken and its backpointers not yet taken join the
/// end of the queue, in order.
pub open spec fn bfs_step(bp: Seq<Vec<Vec<(Vertex, Edit)>>>, s: BfsState) -> BfsState {
    let v = s.queue[0];
    let rest = s.queue.drop_first();
    if s.visited.contains(v) {
        BfsState { queue: rest, visited: s.visited }
    } else {
        let vis = s.visited.push(v);
        BfsState { queue: rest + pred_vertices(bp, v).filter(|p: Vertex| !vis.contains(p)), visited: vis }
    }
}

/// The walk from `s` after `steps` steps, or earlier when the queue empties.
pub open spec fn bfs_run(bp: Seq<Vec<Vec<(Vertex, Edit)>>>, s: BfsState, steps: nat) -> BfsState
    decreases steps,
{
    if steps == 0 {
        s
    } else {
        let t = bfs_run(bp, s, (steps - 1) as nat);
        if t.queue.len() == 0 {
            t
        } else {
            bfs_step(bp, t)
        }
    }
}

/// The vertices that a breadth-first walk from `start` along the
/// backpointers takes, in the order taken.
pub open spec fn bfs_order(bp: Seq<Vec<Vec<(Vertex, Edit)>>>, start: Vertex, vs: Seq<Vertex>) -> bool {
    exists|steps: nat|
        {
            let t = #[trigger] bfs_run(bp, BfsState { queue: seq![start], visited: Seq::empty() }, steps);
            t.queue.len() == 0 && t.visited == vs
        }
}

/// `g` holds, each once and in breadth-first order, the vertices that
/// `start` reaches through the backpointers `bp`, and for each of them, in
/// the order of the vertices, one arc of length 1 per backpointer.
pub open spec fn built_from(g: GraphView, bp: Seq<Vec<Vec<(Vertex, Edit)>>>, start: Vertex) -> bool {
    &&& g.vertices.no_duplicates()
    &&& bfs_order(bp, start, g.vertices)
    &&& forall|v: Vertex| g.vertices.contains(v) <==> reaches(bp, start, v)
    &&& g.arcs == arcs_into_all(bp, g.vertices)
}

/// A graph built from backpointers that lead, within each cell, to
/// different vertices has no repeated vertex or edge.
pub proof fn lemma_built_wf(g: GraphView, bp: Seq<Vec<Vec<(Vertex, Edit)>>>, start: Vertex)
    requires
        built_from(g, bp, start),
        distinct_preds(bp),
    ensures
        g.wf(),
{
    assert forall|k: int| 0 <= k < g.vertices.len() implies (#[trigger] pred_vertices(bp, g.vertices[k])).no_duplicates() by {
        let u = g.vertices[k];
        assert forall|a: int, b: int| 0 <= a < pred_vertices(bp, u).len() && 0 <= b < pred_vertices(bp, u).len() && a != b implies pred_vertices(bp, u)[a] != pred_vertices(bp, u)[b] by {
            assert(bp[u.0 as int]@[u.1 as int]@[a].0 == pred_vertices(bp, u)[a]);
            assert(bp[u.0 as int]@[u.1 as int]@[b].0 == pred_vertices(bp, u)[b]);
        }
    }
    lemma_arcs_into_all_unique(bp, g.vertices);
}

/// Collects the vertices that the end cell of the alignment matrix reaches
/// by following backpointers, breadth first, and one arc of length 1 per
/// backpointer of each of them. A vertex outside the table has no
/// backpointers. No edge repeats when the backpointers of each cell lead
/// to different vertices.
pub fn build_edit_graph(mat: &Vec<Vec<u64>>, backpointers: &Vec<Vec<Vec<(Vertex, Edit)>>>) -> (g: EditGraph)
    requires
        mat.len() >= 1,
        mat[0].len() >= 1,
        backpointer_table(backpointers@, mat.len() as int, mat[0].len() as int),
    ensures
        built_from(g@, backpointers@, ((mat.len() - 1) as usize, (mat[0].len() - 1) as usize)),
        distinct_preds(backpointers@) ==> g@.wf(),
{
    let ghost bp = backpointers@;
    let rows = mat.len();
    let cols = mat[0].len();
    let v_start: Vertex = (rows - 1, cols - 1);
    let mut visited: Vec<Vec<bool>> = Vec::new();
    let mut r: usize = 0;
    while r < rows
        invariant
            r <= rows,
            visited.len() == r,
            forall|i: int| 0 <= i < r ==> #[trigger] visited[i]@.len() == cols,
            forall|i: int, j: int| 0 <= i < r && 0 <= j < cols ==> !#[trigger] visited[i]@[j],
        decreases rows - r,
    {
        let mut row: Vec<bool> = Vec::new();
        let mut c: usize = 0;
        while c < cols
            invariant
                c <= cols,
                row.len() == c,
                forall|j: int| 0 <= j < c ==> !#[trigger] row@[j],
            decreases cols - c,
        {
            row.push(false);
            c = c + 1;
        }
        visited.push(row);
        r = r + 1;
    }
    let mut queue: Vec<Vertex> = Vec::new();
    queue.push(v_start);
    let mut vertices: Vec<Vertex> = Vec::new();
    let mut arcs: Vec<Arc> = Vec::new();
    proof {
        assert(is_back_path(bp, v_start, seq![v_start]));
        assert(seq![v_start].last() == v_start);
    }
    let ghost init = BfsState { queue: seq![v_start], visited: Seq::empty() };
    let ghost mut steps: nat = 0;
    assert(queue@ =~= seq![v_start]);
    assert(vertices@ =~= Seq::<Vertex>::empty());
    while !queue.is_empty()
        invariant
            init == (BfsState { queue: seq![v_start], visited: Seq::empty() }),
            bfs_run(bp, init, steps) == (BfsState { queue: queue@, visited: vertices@ }),
            rows == mat.len(),
            cols == mat[0].len(),
            v_start == ((rows - 1) as usize, (cols - 1) as usize),
            bp == backpointers@,
            backpointer_table(bp, rows as int, cols as int),
            visited.len() == rows,
            forall|i: int| 0 <= i < rows ==> #[trigger] visited[i]@.len() == cols,
            forall|i: int, j: int|
                0 <= i < rows && 0 <= j < cols ==> (#[trigger] visited[i]@[j] <==> vertices@.contains(
                    (i as usize, j as usize),
                )),
            vertices@.no_duplicates(),
            forall|u: Vertex, p: Vertex|
                vertices@.contains(u) && #[trigger] pred_vertices(bp, u).contains(p) ==> vertices@.contains(p)
                    || queue@.contains(p),
            forall|u: Vertex| #[trigger] vertices@.contains(u) ==> reaches(bp, v_start, u),
            forall|u: Vertex| #[trigger] queue@.contains(u) ==> reaches(bp, v_start, u),
            vertices@.contains(v_start) || queue@.contains(v_start),
            arcs@.map_values(|a: Arc| a@) == arcs_into_all(bp, vertices@),
        decreases grid_unvisited(visited@), queue.len(),
    {
        let ghost old_q = queue@;
        let ghost prev = BfsState { queue: queue@, visited: vertices@ };
        let v = queue.remove(0);
        proof {
            assert(old_q[0] == v);
            assert(old_q.contains(v));
            assert forall|p: Vertex| old_q.contains(p) implies p == v || queue@.contains(p) by {
                let q = choose|q: int| 0 <= q < old_q.len() && old_q[q] == p;
                if q > 0 {
                    assert(queue@[q - 1] == p);
                }
            }
            assert forall|p: Vertex| queue@.contains(p) implies old_q.contains(p) by {
                let q = choose|q: int| 0 <= q < queue@.len() && queue@[q] == p;
                assert(old_q[q + 1] == p);
            }
        }
        let in_table = v.0 < rows && v.1 < cols;
        let seen = if in_table { visited[v.0][v.1] } else { vertex_position(&vertices, v).is_some() };
        if seen {
            assert(vertices@.contains((v.0, v.1)));
            assert forall|u: Vertex| #[trigger] queue@.contains(u) implies reaches(bp, v_start, u) by {
                assert(old_q.contains(u));
            }
            proof {
                assert(queue@ =~= old_q.drop_first());
                assert(bfs_step(bp, prev) == (BfsState { queue: queue@, visited: vertices@ }));
                steps = steps + 1;
            }
            continue;
        }
        let ghost old_visited = visited@;
        let ghost old_vertices = vertices@;
        if in_table {
            visited[v.0][v.1] = true;
            proof {
                lemma_grid_mark(old_visited, visited@, v.0 as int, v.1 as int);
            }
        }
        vertices.push(v);
        proof {
            assert(vertices@[vertices@.len() - 1] == v);
            assert(vertices@.contains(v));
            assert(vertices@.last() == v);
            assert(reaches(bp, v_start, v));
            assert forall|u: Vertex| #[trigger] vertices@.contains(u) implies reaches(bp, v_start, u) by {
                if u != v {
                    let q = choose|q: int| 0 <= q < vertices@.len() && vertices@[q] == u;
                    assert(old_vertices[q] == u);
                    assert(old_vertices.contains(u));
                }
            }
            assert forall|u: Vertex| #[trigger] queue@.contains(u) implies reaches(bp, v_start, u) by {
                assert(old_q.contains(u));
            }
            assert forall|i: int, j: int|
                0 <= i < rows && 0 <= j < cols implies (#[trigger] visited[i]@[j] <==> vertices@.contains(
                    (i as usize, j as usize),
                )) by {
                if i == v.0 && j == v.1 {
                } else {
                    assert(visited@[i]@[j] == old_visited[i]@[j]);
                    assert((i as usize, j as usize) != v);
                    if old_vertices.contains((i as usize, j as usize)) {
                        let q = choose|q: int| 0 <= q < old_vertices.len() && old_vertices[q] == (i as usize, j as usize);
                        assert(vertices@[q] == (i as usize, j as usize));
                    }
                    if vertices@.contains((i as usize, j as usize)) {
                        let q = choose|q: int| 0 <= q < vertices@.len() && vertices@[q] == (i as usize, j as usize);
                        assert(q < old_vertices.len());
                        assert(old_vertices[q] == (i as usize, j as usize));
                    }
                }
            }
            assert forall|u: Vertex, p: Vertex|
                old_vertices.contains(u) && #[trigger] pred_vertices(bp, u).contains(p) implies vertices@.contains(p)
                    || queue@.contains(p) by {
                if old_vertices.contains(p) {
                    let q = choose|q: int| 0 <= q < old_vertices.len() && old_vertices[q] == p;
                    assert(vertices@[q] == p);
                }
            }
        }
        let n_preds = if in_table { backpointers[v.0][v.1].len() } else { 0 };
        assert(preds_at(bp, v).len() == n_preds);
        let ghost rest = old_q.drop_first();
        let ghost vis = vertices@;
        let ghost keep = |p: Vertex| !vis.contains(p);
        proof {
            assert(queue@ =~= rest);
            reveal(Seq::filter);
            assert(pred_vertices(bp, v).take(0) =~= Seq::<Vertex>::empty());
            assert(queue@ =~= rest + pred_vertices(bp, v).take(0).filter(keep));
            assert(prev.queue[0] == v);
            assert(!prev.visited.contains(v));
        }
        proof {
            if !old_vertices.contains(v_start) && v_start != v {
                assert(old_q.contains(v_start));
                let q = choose|q: int| 0 <= q < old_q.len() && old_q[q] == v_start;
                assert(rest[q - 1] == v_start);
                assert(queue@.contains(v_start));
            }
            if !old_vertices.contains(v_start) && v_start == v {
                assert(vertices@.contains(v_start));
            }
            if old_vertices.contains(v_start) {
                let q = choose|q: int| 0 <= q < old_vertices.len() && old_vertices[q] == v_start;
                assert(vertices@[q] == v_start);
            }
        }
        let mut k: usize = 0;
        while k < n_preds
            invariant
                bfs_run(bp, init, steps) == prev,
                prev.queue == old_q,
                prev.visited == old_vertices,
                old_q.len() > 0,
                old_q[0] == v,
                !old_vertices.contains(v),
                rest == old_q.drop_first(),
                vis == vertices@,
                keep == (|p: Vertex| !vis.contains(p)),
                queue@ == rest + pred_vertices(bp, v).take(k as int).filter(keep),
                rows == mat.len(),
                cols == mat[0].len(),
                v_start == ((rows - 1) as usize, (cols - 1) as usize),
                bp == backpointers@,
                backpointer_table(bp, rows as int, cols as int),
                in_table == (v.0 < rows && v.1 < cols),
                in_table || n_preds == 0,
                preds_at(bp, v).len() == n_preds,
                k <= n_preds,
                visited.len() == rows,
                forall|i: int| 0 <= i < rows ==> #[trigger] visited[i]@.len() == cols,
                forall|i: int, j: int|
                    0 <= i < rows && 0 <= j < cols ==> (#[trigger] visited[i]@[j] <==> vertices@.contains(
                        (i as usize, j as usize),
                    )),
                vertices@ == old_vertices.push(v),
                vertices@.no_duplicates(),
                forall|u: Vertex, p: Vertex|
                    old_vertices.contains(u) && #[trigger] pred_vertices(bp, u).contains(p) ==> vertices@.contains(p)
                        || queue@.contains(p),
                forall|q: int| 0 <= q < k ==> vertices@.contains(#[trigger] pred_vertices(bp, v)[q]) || queue@.contains(pred_vertices(bp, v)[q]),
                forall|u: Vertex| #[trigger] vertices@.contains(u) ==> reaches(bp, v_start, u),
                forall|u: Vertex| #[trigger] queue@.contains(u) ==> reaches(bp, v_start, u),
                vertices@.contains(v_start) || queue@.contains(v_start),
                arcs@.map_values(|a: Arc| a@) == arcs_into_all(bp, old_vertices) + arcs_into(bp, v).take(k as int),
            decreases n_preds - k,
        {
            let pr = &backpointers[v.0][v.1][k];
            assert(preds_at(bp, v)[k as int] == (pr.0, pr.1@));
            let vprev = pr.0;
            let ghost q_before = queue@;
            assert(vertices@[vertices@.len() - 1] == v);
            assert(vertices@.contains(v));
            assert(pred_vertices(bp, v)[k as int] == vprev);
            proof {
                assert(pred_vertices(bp, v).contains(vprev));
                lemma_reaches_pred(bp, v_start, v, vprev);
            }
            let ghost old_arcs = arcs@.map_values(|a: Arc| a@);
            arcs.push(Arc { from: vprev, to: v, dist: 1, edit: pr.1.duplicate() });
            assert(arcs@.map_values(|a: Arc| a@) =~= old_arcs.push(arcs_into(bp, v)[k as int]));
            assert(arcs_into(bp, v).take(k + 1) =~= arcs_into(bp, v).take(k as int).push(arcs_into(bp, v)[k as int]));
            proof {
                reveal(Seq::filter);
                assert(pred_vertices(bp, v).take(k + 1).drop_last() =~= pred_vertices(bp, v).take(k as int));
                assert(pred_vertices(bp, v).take(k + 1).last() == vprev);
            }
            let prev_seen = if vprev.0 < rows && vprev.1 < cols {
                visited[vprev.0][vprev.1]
            } else {
                vertex_position(&vertices, vprev).is_some()
            };
            if !prev_seen {
                queue.push(vprev);
                assert(queue@.last() == vprev);
                assert(keep(vprev));
                assert(queue@ =~= rest + pred_vertices(bp, v).take(k + 1).filter(keep));
            } else {
                assert(!keep(vprev));
                assert(queue@ =~= rest + pred_vertices(bp, v).take(k + 1).filter(keep));
            }
            proof {
                assert forall|p: Vertex| q_before.contains(p) implies queue@.contains(p) by {
                    let q = choose|q: int| 0 <= q < q_before.len() && q_before[q] == p;
                    assert(queue@[q] == p);
                }
                assert(vertices@.contains(vprev) || queue@.contains(vprev));
                assert forall|u: Vertex| #[trigger] queue@.contains(u) implies reaches(bp, v_start, u) by {
                    if u != vprev {
                        let q = choose|q: int| 0 <= q < queue@.len() && queue@[q] == u;
                        assert(q < q_before.len());
                        assert(q_before[q] == u);
                        assert(q_before.contains(u));
                    }
                }
            }
            k = k + 1;
        }
        proof {
            assert(pred_vertices(bp, v).take(n_preds as int) =~= pred_vertices(bp, v));
            assert(bfs_step(bp, prev) == (BfsState { queue: queue@, visited: vertices@ }));
            steps = steps + 1;
            assert(arcs_into(bp, v).take(n_preds as int) =~= arcs_into(bp, v));
            assert(vertices@.drop_last() =~= old_vertices);
            assert(vertices@.last() == v);
            assert forall|u: Vertex, p: Vertex|
                vertices@.contains(u) && #[trigger] pred_vertices(bp, u).contains(p) implies vertices@.contains(p)
                    || queue@.contains(p) by {
                if u == v {
                    let q = choose|q: int| 0 <= q < pred_vertices(bp, v).len() && pred_vertices(bp, v)[q] == p;
                } else {
                    let q = choose|q: int| 0 <= q < vertices@.len() && vertices@[q] == u;
                    assert(old_vertices[q] == u);
                }
            }
        }
    }
    proof {
        assert(bfs_run(bp, init, steps).queue.len() == 0);
        assert(bfs_order(bp, v_start, vertices@));
        assert forall|u: Vertex, p: Vertex|
            vertices@.contains(u) && #[trigger] pred_vertices(bp, u).contains(p) implies #[trigger] vertices@.contains(p) by {
        }
        assert forall|v: Vertex| reaches(bp, v_start, v) implies vertices@.contains(v) by {
            lemma_closed_holds_reachable(bp, v_start, vertices@, v);
        }
        if distinct_preds(bp) {
            lemma_built_wf(GraphView { vertices: vertices@, arcs: arcs@.map_values(|a: Arc| a@) }, bp, v_start);
        }
    }
    EditGraph { vertices, arcs }
}

/// The position of `v` in `vs`, if it is there.
pub fn vertex_position(vs: &Vec<Vertex>, v: Vertex) -> (res: Option<usize>)
    ensures
        match res {
            Some(p) => p < vs.len() && vs@[p as int] == v,
            None => !vs@.contains(v),
        },
{
    let mut i: usize = 0;
    while i < vs.len()
        invariant
            i <= vs.len(),
            forall|k: int| 0 <= k < i ==> vs@[k] != v,
        decreases vs.len() - i,
    {
        if vertex_eq(vs[i], v) {
            return Some(i);
        }
        i = i + 1;
    }
    None
}

/// The position of the arc with edge `e` in `arcs`, if there is one.
pub fn find_arc(arcs: &Vec<Arc>, e: Edge) -> (res: Option<usize>)
    ensures
        match res {
            Some(k) => k < arcs.len() && arc_edge(arcs@[k as int]@) == e && forall|j: int|
                0 <= j < k ==> arc_edge(#[trigger] arcs@[j]@) != e,
            None => !edges_of(arcs_view(arcs@)).contains(e),
        },
{
    let mut i: usize = 0;
    while i < arcs.len()
        invariant
            i <= arcs.len(),
            forall|k: int| 0 <= k < i ==> arc_edge(#[trigger] arcs@[k]@) != e,
        decreases arcs.len() - i,
    {
        if edge_eq((arcs[i].from, arcs[i].to), e) {
            return Some(i);
        }
        i = i + 1;
    }
    proof {
        if edges_of(arcs_view(arcs@)).contains(e) {
            let k = choose|k: int| 0 <= k < arcs@.len() && edges_of(arcs_view(arcs@))[k] == e;
            assert(arc_edge(arcs@[k]@) == e);
        }
    }
    None
}

/// The arc `a` of the union of two lattices keeps its data from the first
/// lattice when its edge is there, and from the second otherwise.
pub open spec fn merged_arc(g1: GraphView, g2: GraphView, a: ArcView) -> bool {
    if g1.edges().contains(arc_edge(a)) {
        g1.arcs.contains(a)
    } else {
        g2.arcs.contains(a)
    }
}

/// `m` is the union of `g1` and `g2`: its vertices and its edges are those
/// of either, in increasing order, and an edge of both keeps the length and
/// edit it has in `g1`.
pub open spec fn merge_of(m: GraphView, g1: GraphView, g2: GraphView) -> bool {
    &&& m.wf()
    &&& vertices_sorted(m.vertices)
    &&& forall|v: Vertex| m.vertices.contains(v) <==> (g1.vertices.contains(v) || g2.vertices.contains(v))
    &&& edges_sorted(m.edges())
    &&& forall|e: Edge| m.edges().contains(e) <==> (g1.edges().contains(e) || g2.edges().contains(e))
    &&& forall|i: int| 0 <= i < m.arcs.len() ==> merged_arc(g1, g2, #[trigger] m.arcs[i])
}

/// Arcs of `g` with the same edge are the same arc: an edge that `g` lists
/// more than once has one length and one edit.
pub open spec fn single_valued(g: GraphView) -> bool {
    forall|p: int, q: int|
        0 <= p < g.arcs.len() && 0 <= q < g.arcs.len() && arc_edge(#[trigger] g.arcs[p]) == arc_edge(#[trigger] g.arcs[q])
            ==> g.arcs[p] == g.arcs[q]
}

/// A graph without repeated edges lists each edge with one length and edit.
pub proof fn lemma_wf_single_valued(g: GraphView)
    requires
        g.edges().no_duplicates(),
    ensures
        single_valued(g),
{
    assert forall|p: int, q: int|
        0 <= p < g.arcs.len() && 0 <= q < g.arcs.len() && arc_edge(#[trigger] g.arcs[p]) == arc_edge(#[trigger] g.arcs[q])
        implies g.arcs[p] == g.arcs[q] by {
        assert(g.edges()[p] == g.edges()[q]);
    }
}

/// The union of two lattices, vertices and edges sorted; an edge of both
/// keeps the length and edit of the first. Repeated vertices and edges of
/// the second lattice are taken once.
pub fn merge_graphs(g1: EditGraph, g2: EditGraph) -> (res: EditGraph)
    requires
        g1@.wf(),
        single_valued(g2@),
    ensures
        merge_of(res@, g1@, g2@),
{
    let ghost gv1 = g1@;
    let ghost gv2 = g2@;
    let EditGraph { vertices: v1, arcs: a1 } = g1;
    let EditGraph { vertices: v2, arcs: a2 } = g2;
    let mut vertices = v1;
    let mut i: usize = 0;
    while i < v2.len()
        invariant
            i <= v2.len(),
            v2@ == gv2.vertices,
            vertices@.no_duplicates(),
            forall|v: Vertex| vertices@.contains(v) <==> (gv1.vertices.contains(v) || gv2.vertices.take(i as int).contains(v)),
        decreases v2.len() - i,
    {
        let v = v2[i];
        let ghost before = vertices@;
        if vertex_position(&vertices, v).is_none() {
            vertices.push(v);
        }
        proof {
            assert(gv2.vertices.take(i + 1) =~= gv2.vertices.take(i as int).push(v));
            assert forall|x: Vertex| vertices@.contains(x) <==> (gv1.vertices.contains(x) || gv2.vertices.take(i + 1).contains(x)) by {
                if before.contains(x) {
                    let q = choose|q: int| 0 <= q < before.len() && before[q] == x;
                    assert(vertices@[q] == x);
                }
                if vertices@.contains(x) && x != v {
                    let q = choose|q: int| 0 <= q < vertices@.len() && vertices@[q] == x;
                    assert(q < before.len());
                    assert(before[q] == x);
                }
                let t0 = gv2.vertices.take(i as int);
                let t1 = gv2.vertices.take(i + 1);
                if t1.contains(x) && x != v {
                    let q = choose|q: int| 0 <= q < t1.len() && t1[q] == x;
                    assert(t0[q] == x);
                }
                if t0.contains(x) {
                    let q = choose|q: int| 0 <= q < t0.len() && t0[q] == x;
                    assert(t1[q] == x);
                }
                if x == v {
                    assert(gv2.vertices.take(i + 1)[i as int] == x);
                    if !before.contains(v) {
                        assert(vertices@[vertices@.len() - 1] == x);
                    }
                }
            }
        }
        i = i + 1;
    }
    assert(gv2.vertices.take(v2.len() as int) =~= gv2.vertices);
    let vertices = sort_vertices(vertices);
    let mut arcs = a1;
    proof {
        assert forall|k: int| 0 <= k < arcs@.len() implies merged_arc(gv1, gv2, #[trigger] arcs_view(arcs@)[k]) by {
            assert(gv1.edges()[k] == arc_edge(gv1.arcs[k]));
            assert(gv1.arcs.contains(gv1.arcs[k]));
        }
    }
    let mut j: usize = 0;
    while j < a2.len()
        invariant
            j <= a2.len(),
            arcs_view(a2@) == gv2.arcs,
            gv1.wf(),
            edges_of(arcs_view(arcs@)).no_duplicates(),
            forall|e: Edge|
                #![trigger edges_of(arcs_view(arcs@)).contains(e)]
                #![trigger gv1.edges().contains(e)]
                #![trigger edges_of(gv2.arcs.take(j as int)).contains(e)]
                edges_of(arcs_view(arcs@)).contains(e) <==> (gv1.edges().contains(e) || edges_of(gv2.arcs.take(j as int)).contains(e)),
            forall|k: int| 0 <= k < arcs@.len() ==> merged_arc(gv1, gv2, #[trigger] arcs_view(arcs@)[k]),
        decreases a2.len() - j,
    {
        let ghost before = arcs_view(arcs@);
        let e = (a2[j].from, a2[j].to);
        let ghost ej = edges_of(gv2.arcs)[j as int];
        assert(ej == e);
        let found = find_arc(&arcs, e);
        if found.is_none() {
            arcs.push(a2[j].duplicate());
        }
        proof {
            let after = arcs_view(arcs@);
            assert(edges_of(gv2.arcs.take(j + 1)) =~= edges_of(gv2.arcs.take(j as int)).push(e));
            if found.is_none() {
                assert(after =~= before.push(gv2.arcs[j as int]));
                assert(edges_of(after) =~= edges_of(before).push(e));
                assert(!gv1.edges().contains(e));
                assert(gv2.arcs.contains(gv2.arcs[j as int]));
            } else {
                assert(after == before);
            }
            let t0 = edges_of(gv2.arcs.take(j as int));
            let t1 = edges_of(gv2.arcs.take(j + 1));
            assert(t1 =~= t0.push(e));
            assert forall|x: Edge| #[trigger] edges_of(arcs_view(arcs@)).contains(x) <==> (gv1.edges().contains(x) || edges_of(gv2.arcs.take(j + 1)).contains(x)) by {
                if edges_of(after).contains(x) {
                    if x == e {
                        assert(t1[j as int] == x);
                    } else if found.is_none() {
                        let q = choose|q: int| 0 <= q < edges_of(after).len() && edges_of(after)[q] == x;
                        assert(edges_of(before)[q] == x);
                        assert(edges_of(before).contains(x));
                        if t0.contains(x) {
                            let r = choose|r: int| 0 <= r < t0.len() && t0[r] == x;
                            assert(t1[r] == x);
                        }
                    } else {
                        assert(edges_of(before).contains(x));
                        if t0.contains(x) {
                            let r = choose|r: int| 0 <= r < t0.len() && t0[r] == x;
                            assert(t1[r] == x);
                        }
                    }
                }
                if gv1.edges().contains(x) || t1.contains(x) {
                    if x == e {
                        if found.is_none() {
                            assert(edges_of(after)[edges_of(after).len() - 1] == x);
                        } else {
                            let k = found.unwrap();
                            assert(edges_of(before)[k as int] == x);
                        }
                    } else {
                        if t1.contains(x) {
                            let r = choose|r: int| 0 <= r < t1.len() && t1[r] == x;
                            assert(t0[r] == x);
                            assert(t0.contains(x));
                        }
                        assert(edges_of(before).contains(x));
                        let q = choose|q: int| 0 <= q < edges_of(before).len() && edges_of(before)[q] == x;
                        assert(edges_of(after)[q] == x);
                    }
                }
            }
            if found.is_none() {
                assert forall|k: int| 0 <= k < after.len() implies merged_arc(gv1, gv2, #[trigger] after[k]) by {
                    if k < before.len() {
                        assert(after[k] == before[k]);
                    }
                }
            }
        }
        j = j + 1;
    }
    assert(gv2.arcs.take(a2.len() as int) =~= gv2.arcs);
    let ghost unsorted = arcs_view(arcs@);
    let arcs = sort_arcs(arcs);
    proof {
        let rv = arcs_view(arcs@);
        assert forall|e: Edge| edges_of(rv).contains(e) <==> edges_of(unsorted).contains(e) by {
            if edges_of(rv).contains(e) {
                let q = choose|q: int| 0 <= q < rv.len() && edges_of(rv)[q] == e;
                assert(rv.contains(rv[q]));
                let r = choose|r: int| 0 <= r < unsorted.len() && unsorted[r] == rv[q];
                assert(edges_of(unsorted)[r] == e);
            }
            if edges_of(unsorted).contains(e) {
                let q = choose|q: int| 0 <= q < unsorted.len() && edges_of(unsorted)[q] == e;
                assert(unsorted.contains(unsorted[q]));
                let r = choose|r: int| 0 <= r < rv.len() && rv[r] == unsorted[q];
                assert(edges_of(rv)[r] == e);
            }
        }
        let rv = arcs_view(arcs@);
        assert forall|i: int| 0 <= i < rv.len() implies merged_arc(gv1, gv2, #[trigger] rv[i]) by {
            assert(rv.contains(rv[i]));
        }
    }
    EditGraph { vertices, arcs }
}


/// The union of two lattices is well defined: two unions of the same
/// lattices are the same.
pub proof fn lemma_merge_unique(m: GraphView, m2: GraphView, g1: GraphView, g2: GraphView)
    requires
        g1.wf(),
        single_valued(g2),
        merge_of(m, g1, g2),
        merge_of(m2, g1, g2),
    ensures
        m == m2,
{
    assert forall|v: Vertex| m.vertices.contains(v) <==> m2.vertices.contains(v) by {}
    lemma_sorted_vertices_unique(m.vertices, m2.vertices);
    assert forall|e: Edge| m.edges().contains(e) <==> m2.edges().contains(e) by {}
    lemma_sorted_edges_unique(m.edges(), m2.edges());
    assert forall|i: int| 0 <= i < m.arcs.len() implies m.arcs[i] == m2.arcs[i] by {
        let a = m.arcs[i];
        let b = m2.arcs[i];
        assert(m.edges()[i] == m2.edges()[i]);
        assert(arc_edge(a) == arc_edge(b));
        assert(merged_arc(g1, g2, a));
        assert(merged_arc(g1, g2, b));
        let g = if g1.edges().contains(arc_edge(a)) { g1 } else { g2 };
        let p = choose|p: int| 0 <= p < g.arcs.len() && g.arcs[p] == a;
        let q = choose|q: int| 0 <= q < g.arcs.len() && g.arcs[q] == b;
        assert(g.edges()[p] == g.edges()[q]);
        if g == g2 {
            assert(arc_edge(g2.arcs[p]) == arc_edge(g2.arcs[q]));
        }
    }
    assert(m.arcs =~= m2.arcs);
}

/// Merging is symmetric where the two lattices agree: when every edge that
/// both have carries the same length and edit in each, the union of `g1`
/// with `g2` equals the union of `g2` with `g1`.
pub proof fn lemma_merge_commutes(m: GraphView, m2: GraphView, g1: GraphView, g2: GraphView)
    requires
        g1.wf(),
        g2.wf(),
        forall|p: int, q: int|
            0 <= p < g1.arcs.len() && 0 <= q < g2.arcs.len() && arc_edge(#[trigger] g1.arcs[p]) == arc_edge(
                #[trigger] g2.arcs[q],
            ) ==> g1.arcs[p] == g2.arcs[q],
        merge_of(m, g1, g2),
        merge_of(m2, g2, g1),
    ensures
        m == m2,
{
    assert forall|i: int| 0 <= i < m2.arcs.len() implies merged_arc(g1, g2, #[trigger] m2.arcs[i]) by {
        let a = m2.arcs[i];
        assert(merged_arc(g2, g1, a));
        if g1.edges().contains(arc_edge(a)) {
            let p = choose|p: int| 0 <= p < g1.edges().len() && g1.edges()[p] == arc_edge(a);
            assert(arc_edge(g1.arcs[p]) == arc_edge(a));
            if g2.edges().contains(arc_edge(a)) {
                let q = choose|q: int| 0 <= q < g2.arcs.len() && g2.arcs[q] == a;
                assert(g1.arcs[p] == g2.arcs[q]);
                assert(g1.arcs.contains(g1.arcs[p]));
            }
        } else {
            if !g2.edges().contains(arc_edge(a)) {
                let p = choose|p: int| 0 <= p < g1.arcs.len() && g1.arcs[p] == a;
                assert(g1.edges()[p] == arc_edge(a));
            }
        }
    }
    assert(merge_of(m2, g1, g2));
    lemma_wf_single_valued(g2);
    lemma_merge_unique(m, m2, g1, g2);
}

} // verus!
