//! Weighted edit distance between two token sequences, with every optimal
//! step recorded as a backpointer.

use vstd::prelude::*;
use crate::edit::{EditKind, Edit, EditView};

verus! {

/// A cell of the alignment matrix: (source tokens consumed, hypothesis tokens consumed).
pub type Vertex = (usize, usize);

/// The larger of two integers.
pub open spec fn max_int(a: int, b: int) -> int {
    if a < b { b } else { a }
}

/// The smallest of three integers.
pub open spec fn min3(a: int, b: int, c: int) -> int {
    let ab = if a <= b { a } else { b };
    if ab <= c { ab } else { c }
}

/// The cost of aligning source token `i - 1` with hypothesis token `j - 1`.
pub open spec fn sub_cost(first: Seq<Seq<char>>, second: Seq<Seq<char>>, cost_sub: int, i: int, j: int) -> int {
    if first[i - 1] == second[j - 1] { 0 } else { cost_sub }
}

/// The entry `(i, j)` of the alignment matrix: the border holds the row and
/// column index, every inner cell the cheapest of substitution (free on equal
/// tokens), deletion and insertion.
pub open spec fn lev(
    first: Seq<Seq<char>>,
    second: Seq<Seq<char>>,
    cost_ins: int,
    cost_del: int,
    cost_sub: int,
    i: nat,
    j: nat,
) -> int
    decreases i + j,
{
    if i == 0 {
        j as int
    } else if j == 0 {
        i as int
    } else {
        min3(
            lev(first, second, cost_ins, cost_del, cost_sub, (i - 1) as nat, (j - 1) as nat) + sub_cost(first, second, cost_sub, i as int, j as int),
            lev(first, second, cost_ins, cost_del, cost_sub, (i - 1) as nat, j) + cost_del,
            lev(first, second, cost_ins, cost_del, cost_sub, i, (j - 1) as nat) + cost_ins,
        )
    }
}

/// Deleting source token `i - 1`.
pub open spec fn del_edit(first: Seq<Seq<char>>, i: int) -> EditView {
    EditView {
        kind: EditKind::Del,
        start: (i - 1) as usize,
        end: i as usize,
        orig: first[i - 1],
        corr: Seq::empty(),
        unchanged_words: 0,
    }
}

/// Inserting hypothesis token `j - 1` before source position `i`.
pub open spec fn ins_edit(second: Seq<Seq<char>>, i: int, j: int) -> EditView {
    EditView {
        kind: EditKind::Ins,
        start: i as usize,
        end: i as usize,
        orig: Seq::empty(),
        corr: second[j - 1],
        unchanged_words: 0,
    }
}

/// Aligning source token `i - 1` with hypothesis token `j - 1`: a no-op on
/// equal tokens (one unchanged word), a substitution otherwise.
pub open spec fn sub_edit(first: Seq<Seq<char>>, second: Seq<Seq<char>>, i: int, j: int) -> EditView {
    let same = first[i - 1] == second[j - 1];
    EditView {
        kind: if same { EditKind::Noop } else { EditKind::Sub },
        start: (i - 1) as usize,
        end: i as usize,
        orig: first[i - 1],
        corr: second[j - 1],
        unchanged_words: if same { 1 } else { 0 },
    }
}

/// The optimal predecessors of cell `(i, j)`, in the order substitution,
/// deletion, insertion, each with the edit that leads from it to `(i, j)`.
pub open spec fn cell_preds(
    first: Seq<Seq<char>>,
    second: Seq<Seq<char>>,
    cost_ins: int,
    cost_del: int,
    cost_sub: int,
    i: nat,
    j: nat,
) -> Seq<(Vertex, EditView)> {
    if i == 0 && j == 0 {
        Seq::empty()
    } else if j == 0 {
        seq![(((i - 1) as usize, 0usize), del_edit(first, i as int))]
    } else if i == 0 {
        seq![((0usize, (j - 1) as usize), ins_edit(second, 0, j as int))]
    } else {
        let best = lev(first, second, cost_ins, cost_del, cost_sub, i, j);
        let sub_val = lev(first, second, cost_ins, cost_del, cost_sub, (i - 1) as nat, (j - 1) as nat)
            + sub_cost(first, second, cost_sub, i as int, j as int);
        let del_val = lev(first, second, cost_ins, cost_del, cost_sub, (i - 1) as nat, j) + cost_del;
        let ins_val = lev(first, second, cost_ins, cost_del, cost_sub, i, (j - 1) as nat) + cost_ins;
        (if sub_val == best {
            seq![(((i - 1) as usize, (j - 1) as usize), sub_edit(first, second, i as int, j as int))]
        } else {
            Seq::empty()
        }) + (if del_val == best {
            seq![(((i - 1) as usize, j as usize), del_edit(first, i as int))]
        } else {
            Seq::empty()
        }) + (if ins_val == best {
            seq![((i as usize, (j - 1) as usize), ins_edit(second, i as int, j as int))]
        } else {
            Seq::empty()
        })
    }
}

/// Every backpointer of cell `(i, j)` leads from the cell left of it, above
/// it or diagonally before it, and its edit is fixed by that step: it spans
/// source positions `p.0..i`, takes the source token it consumes as its
/// original text and the hypothesis token it consumes as its correction, is
/// an insertion, a deletion, a no-op on equal tokens or a substitution, and
/// counts one unchanged word exactly when it is a no-op.
pub proof fn lemma_backpointer_edits(
    first: Seq<Seq<char>>,
    second: Seq<Seq<char>>,
    cost_ins: int,
    cost_del: int,
    cost_sub: int,
    i: nat,
    j: nat,
    k: int,
)
    requires
        i <= first.len() <= usize::MAX,
        j <= second.len() <= usize::MAX,
        0 <= k < cell_preds(first, second, cost_ins, cost_del, cost_sub, i, j).len(),
    ensures
        ({
            let (p, e) = cell_preds(first, second, cost_ins, cost_del, cost_sub, i, j)[k];
            &&& (p == ((i - 1) as usize, (j - 1) as usize) && i > 0 && j > 0)
                || (p == ((i - 1) as usize, j as usize) && i > 0)
                || (p == (i as usize, (j - 1) as usize) && j > 0)
            &&& e.start == p.0
            &&& e.end == i
            &&& e.orig == (if p.0 < i { first[p.0 as int] } else { Seq::<char>::empty() })
            &&& e.corr == (if p.1 < j { second[p.1 as int] } else { Seq::<char>::empty() })
            &&& e.kind == (if p.0 == i {
                EditKind::Ins
            } else if p.1 == j {
                EditKind::Del
            } else if first[p.0 as int] == second[p.1 as int] {
                EditKind::Noop
            } else {
                EditKind::Sub
            })
            &&& e.unchanged_words == (if e.kind == EditKind::Noop { 1usize } else { 0usize })
        }),
{
    let preds = cell_preds(first, second, cost_ins, cost_del, cost_sub, i, j);
    if i > 0 && j > 0 {
        let best = lev(first, second, cost_ins, cost_del, cost_sub, i, j);
        let sub_val = lev(first, second, cost_ins, cost_del, cost_sub, (i - 1) as nat, (j - 1) as nat)
            + sub_cost(first, second, cost_sub, i as int, j as int);
        let del_val = lev(first, second, cost_ins, cost_del, cost_sub, (i - 1) as nat, j) + cost_del;
        let ins_val = lev(first, second, cost_ins, cost_del, cost_sub, i, (j - 1) as nat) + cost_ins;
        let a: Seq<(Vertex, EditView)> = if sub_val == best {
            seq![(((i - 1) as usize, (j - 1) as usize), sub_edit(first, second, i as int, j as int))]
        } else {
            Seq::empty()
        };
        let b: Seq<(Vertex, EditView)> = if del_val == best {
            seq![(((i - 1) as usize, j as usize), del_edit(first, i as int))]
        } else {
            Seq::empty()
        };
        let c: Seq<(Vertex, EditView)> = if ins_val == best {
            seq![((i as usize, (j - 1) as usize), ins_edit(second, i as int, j as int))]
        } else {
            Seq::empty()
        };
        assert(preds == a + b + c);
        if k < a.len() {
            assert(preds[k] == a[k]);
        } else if k < a.len() + b.len() {
            assert(preds[k] == b[k - a.len()]);
        } else {
            assert(preds[k] == c[k - a.len() - b.len()]);
        }
    }
}

/// The value of a list of backpointers.
pub open spec fn preds_view(s: Seq<(Vertex, Edit)>) -> Seq<(Vertex, EditView)> {
    s.map_values(|p: (Vertex, Edit)| (p.0, p.1@))
}

/// The first `rows` rows of the alignment matrix and of the backpointer
/// table, each `cols` cells wide, are filled as `lev` and `cell_preds` say.
pub open spec fn filled_rows(
    mat: Seq<Vec<u64>>,
    bp: Seq<Vec<Vec<(Vertex, Edit)>>>,
    first: Seq<Seq<char>>,
    second: Seq<Seq<char>>,
    cost_ins: int,
    cost_del: int,
    cost_sub: int,
    rows: int,
    cols: int,
) -> bool {
    &&& mat.len() == rows
    &&& bp.len() == rows
    &&& forall|r: int| 0 <= r < rows ==> #[trigger] mat[r]@.len() == cols && bp[r]@.len() == cols
    &&& forall|r: int, c: int|
        0 <= r < rows && 0 <= c < cols ==> #[trigger] mat[r]@[c] == lev(
            first,
            second,
            cost_ins,
            cost_del,
            cost_sub,
            r as nat,
            c as nat,
        )
    &&& forall|r: int, c: int|
        0 <= r < rows && 0 <= c < cols ==> preds_view(#[trigger] bp[r]@[c]@) == cell_preds(
            first,
            second,
            cost_ins,
            cost_del,
            cost_sub,
            r as nat,
            c as nat,
        )
}

proof fn lemma_lev_bound(
    first: Seq<Seq<char>>,
    second: Seq<Seq<char>>,
    cost_ins: int,
    cost_del: int,
    cost_sub: int,
    i: nat,
    j: nat,
)
    requires
        0 <= cost_ins,
        0 <= cost_del,
        0 <= cost_sub,
    ensures
        0 <= lev(first, second, cost_ins, cost_del, cost_sub, i, j) <= i + j * max_int(cost_ins, 1),
    decreases i + j,
{
    let c = max_int(cost_ins, 1);
    if i == 0 {
        assert(j <= j * c) by (nonlinear_arith)
            requires
                c >= 1,
        ;
    } else if j == 0 {
    } else {
        lemma_lev_bound(first, second, cost_ins, cost_del, cost_sub, (i - 1) as nat, (j - 1) as nat);
        lemma_lev_bound(first, second, cost_ins, cost_del, cost_sub, (i - 1) as nat, j);
        lemma_lev_bound(first, second, cost_ins, cost_del, cost_sub, i, (j - 1) as nat);
        assert((j - 1) * c + c == j * c) by (nonlinear_arith);
    }
}

proof fn lemma_small_bound(i: int, j: int, c: int)
    requires
        0 <= i <= u32::MAX,
        0 <= j <= u32::MAX,
        1 <= c <= u32::MAX,
    ensures
        i + j * c + 0xffff_ffff <= u64::MAX,
{
    assert(j * c <= 0xffff_ffff * 0xffff_ffffint) by (nonlinear_arith)
        requires
            0 <= j <= 0xffff_ffff,
            1 <= c <= 0xffff_ffff,
    ;
}

fn make_del(first: &Vec<String>, i: usize) -> (res: Edit)
    requires
        1 <= i <= first.len(),
    ensures
        res@ == del_edit(first.deep_view(), i as int),
{
    Edit {
        kind: EditKind::Del,
        start: i - 1,
        end: i,
        orig: first[i - 1].clone(),
        corr: String::new(),
        unchanged_words: 0,
    }
}

fn make_ins(second: &Vec<String>, i: usize, j: usize) -> (res: Edit)
    requires
        1 <= j <= second.len(),
    ensures
        res@ == ins_edit(second.deep_view(), i as int, j as int),
{
    Edit {
        kind: EditKind::Ins,
        start: i,
        end: i,
        orig: String::new(),
        corr: second[j - 1].clone(),
        unchanged_words: 0,
    }
}

fn make_sub(first: &Vec<String>, second: &Vec<String>, i: usize, j: usize) -> (res: Edit)
    requires
        1 <= i <= first.len(),
        1 <= j <= second.len(),
    ensures
        res@ == sub_edit(first.deep_view(), second.deep_view(), i as int, j as int),
{
    let same = first[i - 1] == second[j - 1];
    Edit {
        kind: if same { EditKind::Noop } else { EditKind::Sub },
        start: i - 1,
        end: i,
        orig: first[i - 1].clone(),
        corr: second[j - 1].clone(),
        unchanged_words: if same { 1 } else { 0 },
    }
}

/// Fills the alignment matrix of `first` (source) against `second`
/// (hypothesis) and records, for every cell, its optimal predecessors.
///
/// Entry `[i][j]` of the first result is `lev(.., i, j)`; entry `[i][j]` of
/// the second lists the backpointers of cell `(i, j)`.
pub fn levenshtein_matrix(
    first: &Vec<String>,
    second: &Vec<String>,
    cost_ins: u32,
    cost_del: u32,
    cost_sub: u32,
) -> (res: (Vec<Vec<u64>>, Vec<Vec<Vec<(Vertex, Edit)>>>))
    requires
        first.len() < u32::MAX,
        second.len() < u32::MAX,
    ensures
        filled_rows(
            res.0@,
            res.1@,
            first.deep_view(),
            second.deep_view(),
            cost_ins as int,
            cost_del as int,
            cost_sub as int,
            first.len() + 1,
            second.len() + 1,
        ),
{
    let ghost fv = first.deep_view();
    let ghost sv = second.deep_view();
    let ghost ci = cost_ins as int;
    let ghost cd = cost_del as int;
    let ghost cs = cost_sub as int;
    let n = first.len() + 1;
    let m = second.len() + 1;
    let mut mat: Vec<Vec<u64>> = Vec::new();
    let mut backpointers: Vec<Vec<Vec<(Vertex, Edit)>>> = Vec::new();
    let mut i: usize = 0;
    while i < n
        invariant
            n == first.len() + 1,
            m == second.len() + 1,
            first.len() < u32::MAX,
            second.len() < u32::MAX,
            fv == first.deep_view(),
            sv == second.deep_view(),
            ci == cost_ins as int,
            cd == cost_del as int,
            cs == cost_sub as int,
            i <= n,
            filled_rows(mat@, backpointers@, fv, sv, ci, cd, cs, i as int, m as int),
        decreases n - i,
    {
        let mut row: Vec<u64> = Vec::new();
        let mut bp_row: Vec<Vec<(Vertex, Edit)>> = Vec::new();
        let mut j: usize = 0;
        while j < m
            invariant
                n == first.len() + 1,
                m == second.len() + 1,
                first.len() < u32::MAX,
                second.len() < u32::MAX,
                fv == first.deep_view(),
                sv == second.deep_view(),
                ci == cost_ins as int,
                cd == cost_del as int,
                cs == cost_sub as int,
                i < n,
                j <= m,
                filled_rows(mat@, backpointers@, fv, sv, ci, cd, cs, i as int, m as int),
                row.len() == j,
                bp_row.len() == j,
                forall|c: int| 0 <= c < j ==> #[trigger] row@[c] == lev(fv, sv, ci, cd, cs, i as nat, c as nat),
                forall|c: int|
                    0 <= c < j ==> preds_view(#[trigger] bp_row@[c]@) == cell_preds(fv, sv, ci, cd, cs, i as nat, c as nat),
            decreases m - j,
        {
            let mut preds: Vec<(Vertex, Edit)> = Vec::new();
            let value: u64;
            if i == 0 && j == 0 {
                value = 0;
                assert(preds_view(preds@) =~= cell_preds(fv, sv, ci, cd, cs, 0, 0));
            } else if j == 0 {
                value = i as u64;
                preds.push(((i - 1, 0), make_del(first, i)));
                assert(preds_view(preds@) =~= cell_preds(fv, sv, ci, cd, cs, i as nat, 0));
            } else if i == 0 {
                value = j as u64;
                preds.push(((0, j - 1), make_ins(second, 0, j)));
                assert(preds_view(preds@) =~= cell_preds(fv, sv, ci, cd, cs, 0, j as nat));
            } else {
                proof {
                    lemma_lev_bound(fv, sv, ci, cd, cs, (i - 1) as nat, (j - 1) as nat);
                    lemma_lev_bound(fv, sv, ci, cd, cs, (i - 1) as nat, j as nat);
                    lemma_lev_bound(fv, sv, ci, cd, cs, i as nat, (j - 1) as nat);
                    let c = max_int(ci, 1);
                    lemma_small_bound(i - 1, j - 1, c);
                    lemma_small_bound(i - 1, j as int, c);
                    lemma_small_bound(i as int, j - 1, c);
                    assert((j - 1) * c <= j * c) by (nonlinear_arith)
                        requires
                            c >= 1,
                            j >= 1,
                    ;
                }
                let same = first[i - 1] == second[j - 1];
                let sub_c: u64 = if same { 0 } else { cost_sub as u64 };
                assert(mat@[i - 1]@[j - 1] == lev(fv, sv, ci, cd, cs, (i - 1) as nat, (j - 1) as nat));
                assert(mat@[i - 1]@[j as int] == lev(fv, sv, ci, cd, cs, (i - 1) as nat, j as nat));
                let sub_val = mat[i - 1][j - 1] + sub_c;
                let del_val = mat[i - 1][j] + cost_del as u64;
                let ins_val = row[j - 1] + cost_ins as u64;
                let mut best = if sub_val <= del_val { sub_val } else { del_val };
                if ins_val < best {
                    best = ins_val;
                }
                value = best;
                let ghost bestv = lev(fv, sv, ci, cd, cs, i as nat, j as nat);
                assert(best == bestv);
                if sub_val == best {
                    preds.push(((i - 1, j - 1), make_sub(first, second, i, j)));
                }
                let ghost p1 = preds@;
                if del_val == best {
                    preds.push(((i - 1, j), make_del(first, i)));
                }
                let ghost p2 = preds@;
                if ins_val == best {
                    preds.push(((i, j - 1), make_ins(second, i, j)));
                }
                proof {
                    let s1 = if sub_val == best {
                        seq![(((i - 1) as usize, (j - 1) as usize), sub_edit(fv, sv, i as int, j as int))]
                    } else {
                        Seq::<(Vertex, EditView)>::empty()
                    };
                    let s2 = if del_val == best {
                        seq![(((i - 1) as usize, j as usize), del_edit(fv, i as int))]
                    } else {
                        Seq::<(Vertex, EditView)>::empty()
                    };
                    let s3 = if ins_val == best {
                        seq![((i as usize, (j - 1) as usize), ins_edit(sv, i as int, j as int))]
                    } else {
                        Seq::<(Vertex, EditView)>::empty()
                    };
                    assert(preds_view(p1) =~= s1);
                    assert(preds_view(p2) =~= s1 + s2);
                    assert(preds_view(preds@) =~= s1 + s2 + s3);
                }
            }
            row.push(value);
            bp_row.push(preds);
            j = j + 1;
        }
        let ghost old_mat = mat@;
        let ghost old_bp = backpointers@;
        mat.push(row);
        backpointers.push(bp_row);
        assert(mat@[i as int] == row);
        assert(backpointers@[i as int] == bp_row);
        assert forall|r: int, c: int| 0 <= r <= i && 0 <= c < m implies #[trigger] mat@[r]@[c] == lev(fv, sv, ci, cd, cs, r as nat, c as nat) by {
            if r < i {
                assert(mat@[r] == old_mat[r]);
            }
        }
        assert forall|r: int, c: int| 0 <= r <= i && 0 <= c < m implies preds_view(#[trigger] backpointers@[r]@[c]@) == cell_preds(fv, sv, ci, cd, cs, r as nat, c as nat) by {
            if r < i {
                assert(backpointers@[r] == old_bp[r]);
            }
        }
        i = i + 1;
    }
    (mat, backpointers)
}

} // verus!
