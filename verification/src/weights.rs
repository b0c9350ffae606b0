//! Weighing the arcs of the lattice against one annotator's gold edits.
//!
//! The weight of an arc starts as its length. An arc whose edit the gold
//! accepts gets minus the number of arcs as its weight; every other arc that
//! changes something gets a small penalty added. The library lists these
//! events in order; the caller applies them to floating-point weights. The
//! events of one span name only arcs of that span, so the order in which the
//! spans are taken does not change the weights.

use vstd::prelude::*;
use crate::align::Vertex;
use crate::edit::{Edit, EditKind, EditView, GoldEdit, GoldEditView, matches_gold, edit_matches_gold};
use crate::graph::{Arc, ArcView, EditGraph, Edge, edges_of};
use crate::order::{arcs_view, arc_edge, edges_sorted, edge_lt, vertex_eq, edges_at, sort_positions_by_edge, lemma_sorted_edges_unique};
use crate::closure::{lemma_edge_index_unique, lemma_filter_edges_unique};
use vstd::relations::{total_ordering, sorted_by};
use crate::closure::edge_index;

verus! {

/// A change to the weight of the arc at a position of the lattice.
#[derive(Clone, Copy, Debug, PartialEq, Eq, Structural)]
pub enum WeightEvent {
    /// The gold accepts the arc's edit: its weight becomes minus the number of arcs.
    Matched(usize),
    /// The arc's edit is not accepted: its weight grows by the penalty.
    Penalized(usize),
}

/// The values of a list of gold edits.
pub open spec fn golds_view(s: Seq<GoldEdit>) -> Seq<GoldEditView> {
    s.map_values(|g: GoldEdit| g@)
}

/// The source span of an arc's edit.
pub open spec fn arc_span(a: ArcView) -> (usize, usize) {
    (a.edit.start, a.edit.end)
}

/// The gold edits with a non-negative span equal to `span`, in order.
pub open spec fn golds_for(golds: Seq<GoldEditView>, span: (usize, usize)) -> Seq<GoldEditView> {
    golds.filter(|g: GoldEditView| g.start >= 0 && g.end >= 0 && (g.start as usize, g.end as usize) == span)
}

/// `g` lists, in increasing order, exactly the edges of the arcs with span `span`.
pub open spec fn is_span_group(arcs: Seq<ArcView>, span: (usize, usize), g: Seq<Edge>) -> bool {
    &&& edges_sorted(g)
    &&& forall|e: Edge| g.contains(e) <==> exists|k: int| 0 <= k < arcs.len() && arc_span(#[trigger] arcs[k]) == span && arc_edge(arcs[k]) == e
}

/// The edges of the arcs with span `span`, in increasing order.
pub open spec fn span_group(arcs: Seq<ArcView>, span: (usize, usize)) -> Seq<Edge> {
    choose|g: Seq<Edge>| is_span_group(arcs, span, g)
}

/// The spans of the arcs, each once, in the order of their first arc.
pub open spec fn span_order(arcs: Seq<ArcView>) -> Seq<(usize, usize)>
    decreases arcs.len(),
{
    if arcs.len() == 0 {
        Seq::empty()
    } else {
        let prev = span_order(arcs.drop_last());
        if prev.contains(arc_span(arcs.last())) {
            prev
        } else {
            prev.push(arc_span(arcs.last()))
        }
    }
}

/// The edit of the arc with edge `e`.
pub open spec fn edit_at(arcs: Seq<ArcView>, e: Edge) -> EditView {
    arcs[edge_index(arcs, e)].edit
}

/// The event for an arc not accepted: a penalty unless it is a no-op.
pub open spec fn penalty(arcs: Seq<ArcView>, e: Edge) -> Seq<WeightEvent> {
    if edit_at(arcs, e).kind != EditKind::Noop {
        seq![WeightEvent::Penalized(edge_index(arcs, e) as usize)]
    } else {
        Seq::empty()
    }
}

/// The events of a span that is not an insertion point: each arc, in
/// order, is matched when some gold edit accepts it, penalized otherwise.
pub open spec fn plain_events(arcs: Seq<ArcView>, g: Seq<Edge>, golds: Seq<GoldEditView>) -> Seq<WeightEvent>
    decreases g.len(),
{
    if g.len() == 0 {
        Seq::empty()
    } else {
        let e = g.last();
        plain_events(arcs, g.drop_last(), golds) + if exists|t: int| 0 <= t < golds.len() && matches_gold(edit_at(arcs, e), #[trigger] golds[t]) {
            seq![WeightEvent::Matched(edge_index(arcs, e) as usize)]
        } else {
            penalty(arcs, e)
        }
    }
}

/// The first gold edit in `golds[lo..=hi]` that accepts `edit`, searching upwards.
pub open spec fn find_up(edit: EditView, golds: Seq<GoldEditView>, lo: int, hi: int) -> Option<int>
    decreases hi - lo + 1,
{
    if lo > hi {
        None
    } else if matches_gold(edit, golds[lo]) {
        Some(lo)
    } else {
        find_up(edit, golds, lo + 1, hi)
    }
}

/// The last gold edit in `golds[lo..=hi]` that accepts `edit`, searching downwards.
pub open spec fn find_down(edit: EditView, golds: Seq<GoldEditView>, lo: int, hi: int) -> Option<int>
    decreases hi - lo + 1,
{
    if lo > hi {
        None
    } else if matches_gold(edit, golds[hi]) {
        Some(hi)
    } else {
        find_down(edit, golds, lo, hi - 1)
    }
}

/// The state of the two-pointer walk over the arcs of an insertion point:
/// the left and right arc pointers, the arc in hand, the window of gold
/// edits still open, whether the walk stopped, and the events so far.
pub struct WalkState {
    pub lptr: int,
    pub rptr: int,
    pub cur: int,
    pub g_lptr: int,
    pub g_rptr: int,
    pub stopped: bool,
    pub events: Seq<WeightEvent>,
}

/// From the left pointer `l`, skips (penalizing) the arcs that do not start
/// where `target` is; returns the new pointer and the penalties.
pub open spec fn skip_left(arcs: Seq<ArcView>, g: Seq<Edge>, l: int, target: Vertex) -> (int, Seq<WeightEvent>)
    decreases g.len() - l,
{
    if l < 0 || l >= g.len() || g[l].0 == target {
        (l, Seq::empty())
    } else {
        let (l2, ev) = skip_left(arcs, g, l + 1, target);
        (l2, penalty(arcs, g[l]) + ev)
    }
}

/// From the right pointer `r`, skips (penalizing) the arcs that do not end
/// where `target` is, never below 0; returns the new pointer and the penalties.
pub open spec fn skip_right(arcs: Seq<ArcView>, g: Seq<Edge>, r: int, target: Vertex) -> (int, Seq<WeightEvent>)
    decreases r,
{
    if r <= 0 || r >= g.len() || g[r].1 == target {
        (r, Seq::empty())
    } else {
        let (r2, ev) = skip_right(arcs, g, r - 1, target);
        (r2, penalty(arcs, g[r]) + ev)
    }
}

/// One step of the walk over the arcs `g` of an insertion point.
pub open spec fn walk_step(arcs: Seq<ArcView>, g: Seq<Edge>, golds: Seq<GoldEditView>, s: WalkState) -> WalkState {
    let e = g[s.cur];
    let edit = edit_at(arcs, e);
    let at_left = s.cur == s.lptr;
    let found = if golds.len() == 0 {
        None
    } else {
        let hi = if s.g_rptr < golds.len() - 1 { s.g_rptr } else { golds.len() - 1 };
        if at_left {
            find_up(edit, golds, s.g_lptr, hi)
        } else {
            find_down(edit, golds, s.g_lptr, hi)
        }
    };
    match found {
        Some(i) => {
            let events = s.events.push(WeightEvent::Matched(edge_index(arcs, e) as usize));
            if at_left {
                let (l2, ev) = skip_left(arcs, g, s.lptr + 1, e.1);
                WalkState { lptr: l2, rptr: s.rptr, cur: l2, g_lptr: i + 1, g_rptr: s.g_rptr, stopped: false, events: events + ev }
            } else {
                let gr = if i > 0 { i - 1 } else { 0 };
                if s.rptr > 0 {
                    let (r2, ev) = skip_right(arcs, g, s.rptr - 1, e.0);
                    WalkState { lptr: s.lptr, rptr: r2, cur: r2, g_lptr: s.g_lptr, g_rptr: gr, stopped: false, events: events + ev }
                } else {
                    WalkState { g_rptr: gr, stopped: true, events: events, ..s }
                }
            }
        },
        None => {
            let events = s.events + penalty(arcs, e);
            if at_left {
                WalkState { lptr: s.lptr + 1, cur: s.rptr, events: events, ..s }
            } else {
                let r2 = if s.rptr > 0 { s.rptr - 1 } else { s.rptr };
                WalkState { rptr: r2, cur: s.lptr, events: events, ..s }
            }
        },
    }
}

/// A measure of the work left to the walk.
pub open spec fn walk_measure(s: WalkState) -> nat {
    if s.stopped || s.lptr > s.rptr {
        0
    } else {
        (2 * (s.rptr - s.lptr + 1) + if s.cur != s.lptr { 1int } else { 0int }) as nat
    }
}

/// The walk from state `s` to its end.
pub open spec fn walk(arcs: Seq<ArcView>, g: Seq<Edge>, golds: Seq<GoldEditView>, s: WalkState) -> WalkState
    decreases walk_measure(s),
{
    if s.stopped || s.lptr > s.rptr {
        s
    } else {
        let t = walk_step(arcs, g, golds, s);
        if walk_measure(t) < walk_measure(s) {
            walk(arcs, g, golds, t)
        } else {
            t
        }
    }
}

/// The events of an insertion point: a walk from both ends of its arcs,
/// matching each arc in hand against the open window of gold edits.
pub open spec fn insertion_events(arcs: Seq<ArcView>, g: Seq<Edge>, golds: Seq<GoldEditView>) -> Seq<WeightEvent> {
    if g.len() == 0 {
        Seq::empty()
    } else {
        let start = WalkState {
            lptr: 0,
            rptr: g.len() - 1,
            cur: 0,
            g_lptr: 0,
            g_rptr: if golds.len() == 0 { 0 } else { golds.len() - 1 },
            stopped: false,
            events: Seq::empty(),
        };
        walk(arcs, g, golds, start).events
    }
}

/// The events of the arcs with span `span`.
pub open spec fn span_events(arcs: Seq<ArcView>, golds: Seq<GoldEditView>, span: (usize, usize)) -> Seq<WeightEvent> {
    let g = span_group(arcs, span);
    let gs = golds_for(golds, span);
    if span.0 == span.1 {
        insertion_events(arcs, g, gs)
    } else {
        plain_events(arcs, g, gs)
    }
}

/// The events of the spans `spans`, in order.
pub open spec fn events_of_spans(arcs: Seq<ArcView>, golds: Seq<GoldEditView>, spans: Seq<(usize, usize)>) -> Seq<WeightEvent>
    decreases spans.len(),
{
    if spans.len() == 0 {
        Seq::empty()
    } else {
        events_of_spans(arcs, golds, spans.drop_last()) + span_events(arcs, golds, spans.last())
    }
}

/// The events of all spans, spans in the order of their first arc.
pub open spec fn weight_events(arcs: Seq<ArcView>, golds: Seq<GoldEditView>) -> Seq<WeightEvent> {
    events_of_spans(arcs, golds, span_order(arcs))
}

/// `ev` names an arc of `arcs`: a matched arc has an edit that a gold edit
/// with a non-negative span accepts, a penalized arc changes something.
pub open spec fn event_ok(arcs: Seq<ArcView>, golds: Seq<GoldEditView>, ev: WeightEvent) -> bool {
    match ev {
        WeightEvent::Matched(k) => k < arcs.len() && exists|t: int|
            0 <= t < golds.len() && golds[t].start >= 0 && golds[t].end >= 0 && matches_gold(arcs[k as int].edit, #[trigger] golds[t]),
        WeightEvent::Penalized(k) => k < arcs.len() && arcs[k as int].edit.kind != EditKind::Noop,
    }
}

/// Every event of `evs` names an arc of `arcs` as `event_ok` says.
pub open spec fn events_ok(arcs: Seq<ArcView>, golds: Seq<GoldEditView>, evs: Seq<WeightEvent>) -> bool {
    forall|i: int| 0 <= i < evs.len() ==> event_ok(arcs, golds, #[trigger] evs[i])
}

/// The position of the arc that an event names.
pub open spec fn event_arc(ev: WeightEvent) -> usize {
    match ev {
        WeightEvent::Matched(k) => k,
        WeightEvent::Penalized(k) => k,
    }
}

/// The events of `evs` from position `from` on name arcs with span `span`.
pub open spec fn names_span(arcs: Seq<ArcView>, evs: Seq<WeightEvent>, from: int, span: (usize, usize)) -> bool {
    forall|i: int|
        from <= i < evs.len() ==> event_arc(#[trigger] evs[i]) < arcs.len() && arc_span(arcs[event_arc(evs[i]) as int]) == span
}

/// The arcs at the positions `gpos` all have span `span`.
pub open spec fn positions_in_span(arcs: Seq<ArcView>, gpos: Seq<usize>, span: (usize, usize)) -> bool {
    forall|x: int| 0 <= x < gpos.len() ==> #[trigger] gpos[x] < arcs.len() && arc_span(arcs[gpos[x] as int]) == span
}

/// `gpos` holds the positions in `arcs` of the arcs with edges `g`.
pub open spec fn group_positions(arcs: Seq<ArcView>, gpos: Seq<usize>, g: Seq<Edge>) -> bool {
    &&& gpos.len() == g.len()
    &&& forall|x: int|
        0 <= x < g.len() ==> {
            &&& #[trigger] gpos[x] < arcs.len()
            &&& arc_edge(arcs[gpos[x] as int]) == g[x]
            &&& edge_index(arcs, g[x]) == gpos[x]
        }
}

/// `sel` holds the positions in `golds` of the gold edits `gs`.
pub open spec fn gold_selection(golds: Seq<GoldEditView>, sel: Seq<usize>, gs: Seq<GoldEditView>) -> bool {
    &&& sel.len() == gs.len()
    &&& forall|t: int| 0 <= t < gs.len() ==> #[trigger] sel[t] < golds.len() && golds[sel[t] as int] == gs[t]
}

/// The edges of the arcs with span `span` can always be listed in
/// increasing order, so `span_group` names exactly them.
pub proof fn lemma_span_group(arcs: Seq<ArcView>, span: (usize, usize))
    requires
        edges_of(arcs).no_duplicates(),
    ensures
        is_span_group(arcs, span, span_group(arcs, span)),
{
    broadcast use vstd::seq_lib::group_seq_properties;
    let pred = |a: ArcView| arc_span(a) == span;
    let sel = arcs.filter(pred);
    let s = edges_of(sel);
    lemma_filter_edges_unique(arcs, pred);
    sel.filter_lemma(pred);
    assert forall|e: Edge| s.contains(e) <==> exists|k: int| 0 <= k < arcs.len() && arc_span(#[trigger] arcs[k]) == span && arc_edge(arcs[k]) == e by {
        if s.contains(e) {
            let i = choose|i: int| 0 <= i < s.len() && s[i] == e;
            assert(sel.contains(sel[i]));
            arcs.lemma_filter_contains_rev(pred, sel[i]);
            assert(pred(sel[i]));
            let k = choose|k: int| 0 <= k < arcs.len() && arcs[k] == sel[i];
            assert(arc_span(arcs[k]) == span && arc_edge(arcs[k]) == e);
        }
        if exists|k: int| 0 <= k < arcs.len() && arc_span(#[trigger] arcs[k]) == span && arc_edge(arcs[k]) == e {
            let k = choose|k: int| 0 <= k < arcs.len() && arc_span(#[trigger] arcs[k]) == span && arc_edge(arcs[k]) == e;
            arcs.lemma_filter_contains(pred, k);
            let i = choose|i: int| 0 <= i < sel.len() && sel[i] == arcs[k];
            assert(s[i] == e);
        }
    }
    let leq = |a: Edge, b: Edge| a == b || edge_lt(a, b);
    assert(total_ordering(leq)) by {
        assert forall|x: Edge, y: Edge, z: Edge| #[trigger] leq(x, y) && #[trigger] leq(y, z) implies leq(x, z) by {}
        assert forall|x: Edge, y: Edge| #[trigger] leq(x, y) && #[trigger] leq(y, x) implies x == y by {}
        assert forall|x: Edge, y: Edge| #[trigger] leq(x, y) || #[trigger] leq(y, x) by {}
        assert forall|x: Edge| #[trigger] leq(x, x) by {}
        assert(vstd::relations::reflexive(leq));
        assert(vstd::relations::antisymmetric(leq));
        assert(vstd::relations::transitive(leq));
        assert(vstd::relations::strongly_connected(leq));
    }
    let r = s.sort_by(leq);
    s.lemma_sort_by_ensures(leq);
    s.lemma_multiset_has_no_duplicates();
    r.lemma_multiset_has_no_duplicates_conv();
    assert forall|e: Edge| r.contains(e) <==> s.contains(e) by {
        s.to_multiset_ensures();
        r.to_multiset_ensures();
        assert(r.contains(e) <==> r.to_multiset().count(e) > 0);
        assert(s.contains(e) <==> s.to_multiset().count(e) > 0);
        assert(r.to_multiset().count(e) == s.to_multiset().count(e));
    }
    assert forall|i: int, j: int| 0 <= i < j < r.len() implies edge_lt(#[trigger] r[i], #[trigger] r[j]) by {
        assert(sorted_by(r, leq));
        assert(leq(r[i], r[j]));
    }
    assert(is_span_group(arcs, span, r));
}

proof fn lemma_span_in_order(arcs: Seq<ArcView>, k: int)
    requires
        0 <= k < arcs.len(),
    ensures
        span_order(arcs).contains(arc_span(arcs[k])),
    decreases arcs.len(),
{
    let prev = span_order(arcs.drop_last());
    if k < arcs.len() - 1 {
        lemma_span_in_order(arcs.drop_last(), k);
        assert(arcs.drop_last()[k] == arcs[k]);
        if !prev.contains(arc_span(arcs.last())) {
            let q = choose|q: int| 0 <= q < prev.len() && prev[q] == arc_span(arcs[k]);
            assert(prev.push(arc_span(arcs.last()))[q] == arc_span(arcs[k]));
        }
    } else {
        if !prev.contains(arc_span(arcs.last())) {
            assert(prev.push(arc_span(arcs.last()))[prev.len() as int] == arc_span(arcs[k]));
        }
    }
}

proof fn lemma_events_in_spans(arcs: Seq<ArcView>, golds: Seq<GoldEditView>, spans: Seq<(usize, usize)>, sp: (usize, usize), i: int)
    requires
        spans.contains(sp),
        0 <= i < span_events(arcs, golds, sp).len(),
    ensures
        events_of_spans(arcs, golds, spans).contains(span_events(arcs, golds, sp)[i]),
    decreases spans.len(),
{
    let pre = events_of_spans(arcs, golds, spans.drop_last());
    let last = span_events(arcs, golds, spans.last());
    assert(events_of_spans(arcs, golds, spans) == pre + last);
    if spans.last() == sp {
        assert((pre + last)[pre.len() + i] == last[i]);
    } else {
        let q = choose|q: int| 0 <= q < spans.len() && spans[q] == sp;
        assert(spans.drop_last()[q] == sp);
        lemma_events_in_spans(arcs, golds, spans.drop_last(), sp, i);
        let r = choose|r: int| 0 <= r < pre.len() && pre[r] == span_events(arcs, golds, sp)[i];
        assert((pre + last)[r] == pre[r]);
    }
}

proof fn lemma_events_from_span(arcs: Seq<ArcView>, golds: Seq<GoldEditView>, spans: Seq<(usize, usize)>, ev: WeightEvent)
    requires
        events_of_spans(arcs, golds, spans).contains(ev),
    ensures
        exists|sp: (usize, usize)| spans.contains(sp) && #[trigger] span_events(arcs, golds, sp).contains(ev),
    decreases spans.len(),
{
    let pre = events_of_spans(arcs, golds, spans.drop_last());
    let last = span_events(arcs, golds, spans.last());
    assert(events_of_spans(arcs, golds, spans) == pre + last);
    let r = choose|r: int| 0 <= r < (pre + last).len() && (pre + last)[r] == ev;
    if r < pre.len() {
        assert(pre[r] == ev);
        lemma_events_from_span(arcs, golds, spans.drop_last(), ev);
        let sp = choose|sp: (usize, usize)| spans.drop_last().contains(sp) && #[trigger] span_events(arcs, golds, sp).contains(ev);
        let q = choose|q: int| 0 <= q < spans.drop_last().len() && spans.drop_last()[q] == sp;
        assert(spans[q] == sp);
        assert(spans.contains(sp) && span_events(arcs, golds, sp).contains(ev));
    } else {
        assert(last[r - pre.len()] == ev);
        assert(last.contains(ev));
        assert(spans[spans.len() - 1] == spans.last());
        assert(spans.contains(spans.last()));
        assert(spans.contains(spans.last()) && span_events(arcs, golds, spans.last()).contains(ev));
    }
}

proof fn lemma_plain_matched(arcs: Seq<ArcView>, g: Seq<Edge>, golds: Seq<GoldEditView>, x: int)
    requires
        0 <= x < g.len(),
        exists|t: int| 0 <= t < golds.len() && matches_gold(edit_at(arcs, g[x]), #[trigger] golds[t]),
    ensures
        plain_events(arcs, g, golds).contains(WeightEvent::Matched(edge_index(arcs, g[x]) as usize)),
    decreases g.len(),
{
    let pre = plain_events(arcs, g.drop_last(), golds);
    let e = g.last();
    let here = if exists|t: int| 0 <= t < golds.len() && matches_gold(edit_at(arcs, e), #[trigger] golds[t]) {
        seq![WeightEvent::Matched(edge_index(arcs, e) as usize)]
    } else {
        penalty(arcs, e)
    };
    assert(plain_events(arcs, g, golds) == pre + here);
    if x == g.len() - 1 {
        assert((pre + here)[pre.len() as int] == here[0]);
    } else {
        assert(g.drop_last()[x] == g[x]);
        lemma_plain_matched(arcs, g.drop_last(), golds, x);
        let r = choose|r: int| 0 <= r < pre.len() && pre[r] == WeightEvent::Matched(edge_index(arcs, g[x]) as usize);
        assert((pre + here)[r] == pre[r]);
    }
}

proof fn lemma_plain_penalized(arcs: Seq<ArcView>, g: Seq<Edge>, golds: Seq<GoldEditView>, k: usize)
    requires
        plain_events(arcs, g, golds).contains(WeightEvent::Penalized(k)),
    ensures
        exists|x: int|
            0 <= x < g.len() && edge_index(arcs, #[trigger] g[x]) as usize == k && !(exists|t: int|
                0 <= t < golds.len() && matches_gold(edit_at(arcs, g[x]), #[trigger] golds[t])),
    decreases g.len(),
{
    let pre = plain_events(arcs, g.drop_last(), golds);
    let e = g.last();
    let matched = exists|t: int| 0 <= t < golds.len() && matches_gold(edit_at(arcs, e), #[trigger] golds[t]);
    let here = if matched {
        seq![WeightEvent::Matched(edge_index(arcs, e) as usize)]
    } else {
        penalty(arcs, e)
    };
    assert(plain_events(arcs, g, golds) == pre + here);
    let r = choose|r: int| 0 <= r < (pre + here).len() && (pre + here)[r] == WeightEvent::Penalized(k);
    if r < pre.len() {
        assert(pre[r] == WeightEvent::Penalized(k));
        lemma_plain_penalized(arcs, g.drop_last(), golds, k);
        let x = choose|x: int|
            0 <= x < g.drop_last().len() && edge_index(arcs, #[trigger] g.drop_last()[x]) as usize == k && !(exists|t: int|
                0 <= t < golds.len() && matches_gold(edit_at(arcs, g.drop_last()[x]), #[trigger] golds[t]));
        assert(g[x] == g.drop_last()[x]);
    } else {
        assert(here[r - pre.len()] == WeightEvent::Penalized(k));
        assert(!matched);
        let x = g.len() - 1;
        assert(g[x] == e);
        assert(edge_index(arcs, e) as usize == k);
    }
}

/// An arc of a span that is not an insertion point, whose edit a gold edit
/// (with a non-negative span) accepts, is matched: its weight becomes minus
/// the number of arcs, whatever its kind or its unchanged words.
pub proof fn lemma_accepted_arc_matched(arcs: Seq<ArcView>, golds: Seq<GoldEditView>, k: int, t: int)
    requires
        edges_of(arcs).no_duplicates(),
        0 <= k < arcs.len(),
        arcs[k].edit.start != arcs[k].edit.end,
        0 <= t < golds.len(),
        golds[t].start >= 0,
        golds[t].end >= 0,
        matches_gold(arcs[k].edit, golds[t]),
    ensures
        weight_events(arcs, golds).contains(WeightEvent::Matched(k as usize)),
{
    let sp = arc_span(arcs[k]);
    lemma_span_group(arcs, sp);
    let g = span_group(arcs, sp);
    let e = arc_edge(arcs[k]);
    assert(g.contains(e));
    let x = choose|x: int| 0 <= x < g.len() && g[x] == e;
    lemma_edge_index_unique(arcs, e);
    assert(edges_of(arcs)[k] == e);
    assert(edge_index(arcs, e) == k);
    assert(edit_at(arcs, e) == arcs[k].edit);
    let pred = |gd: GoldEditView| gd.start >= 0 && gd.end >= 0 && (gd.start as usize, gd.end as usize) == sp;
    let gs = golds_for(golds, sp);
    assert(pred(golds[t]));
    golds.lemma_filter_contains(pred, t);
    let t2 = choose|t2: int| 0 <= t2 < gs.len() && gs[t2] == golds[t];
    assert(matches_gold(edit_at(arcs, g[x]), gs[t2]));
    lemma_plain_matched(arcs, g, gs, x);
    let evs = span_events(arcs, golds, sp);
    assert(evs == plain_events(arcs, g, gs));
    let i = choose|i: int| 0 <= i < evs.len() && evs[i] == WeightEvent::Matched(k as usize);
    lemma_span_in_order(arcs, k);
    lemma_events_in_spans(arcs, golds, span_order(arcs), sp, i);
}

proof fn lemma_accepted_arc_not_penalized(arcs: Seq<ArcView>, golds: Seq<GoldEditView>, k: int, t: int)
    requires
        edges_of(arcs).no_duplicates(),
        forall|sp: (usize, usize)|
            #[trigger] span_order(arcs).contains(sp) ==> names_span(arcs, span_events(arcs, golds, sp), 0, sp),
        arcs.len() <= usize::MAX,
        0 <= k < arcs.len(),
        arcs[k].edit.start != arcs[k].edit.end,
        0 <= t < golds.len(),
        golds[t].start >= 0,
        golds[t].end >= 0,
        matches_gold(arcs[k].edit, golds[t]),
    ensures
        !weight_events(arcs, golds).contains(WeightEvent::Penalized(k as usize)),
{
    let ev = WeightEvent::Penalized(k as usize);
    if weight_events(arcs, golds).contains(ev) {
        lemma_events_from_span(arcs, golds, span_order(arcs), ev);
        let sp = choose|sp: (usize, usize)| span_order(arcs).contains(sp) && #[trigger] span_events(arcs, golds, sp).contains(ev);
        let evs = span_events(arcs, golds, sp);
        let i = choose|i: int| 0 <= i < evs.len() && evs[i] == ev;
        assert(names_span(arcs, evs, 0, sp));
        assert(event_arc(evs[i]) == k);
        assert(arc_span(arcs[k]) == sp);
        lemma_span_group(arcs, sp);
        let g = span_group(arcs, sp);
        let gs = golds_for(golds, sp);
        assert(evs == plain_events(arcs, g, gs));
        lemma_plain_penalized(arcs, g, gs, k as usize);
        let x = choose|x: int|
            0 <= x < g.len() && edge_index(arcs, #[trigger] g[x]) as usize == k as usize && !(exists|t2: int|
                0 <= t2 < gs.len() && matches_gold(edit_at(arcs, g[x]), #[trigger] gs[t2]));
        assert(g.contains(g[x]));
        let q = choose|q: int| 0 <= q < arcs.len() && arc_span(#[trigger] arcs[q]) == sp && arc_edge(arcs[q]) == g[x];
        assert(edges_of(arcs)[q] == g[x]);
        lemma_edge_index_unique(arcs, g[x]);
        assert(edge_index(arcs, g[x]) == q);
        assert(q == k);
        assert(edit_at(arcs, g[x]) == arcs[k].edit);
        let pred = |gd: GoldEditView| gd.start >= 0 && gd.end >= 0 && (gd.start as usize, gd.end as usize) == sp;
        assert(pred(golds[t]));
        golds.lemma_filter_contains(pred, t);
        let t2 = choose|t2: int| 0 <= t2 < gs.len() && gs[t2] == golds[t];
        assert(matches_gold(edit_at(arcs, g[x]), gs[t2]));
    }
}

pub(crate) proof fn lemma_find_range(edit: EditView, golds: Seq<GoldEditView>, lo: int, hi: int)
    ensures
        find_up(edit, golds, lo, hi) matches Some(i) ==> lo <= i <= hi && matches_gold(edit, golds[i]),
        find_down(edit, golds, lo, hi) matches Some(i) ==> lo <= i <= hi && matches_gold(edit, golds[i]),
    decreases hi - lo + 1,
{
    if lo <= hi {
        lemma_find_range(edit, golds, lo + 1, hi);
        lemma_find_range(edit, golds, lo, hi - 1);
    }
}

fn penalize(arcs: &Vec<Arc>, pos: usize, events: &mut Vec<WeightEvent>, Ghost(e): Ghost<Edge>, Ghost(gv): Ghost<Seq<GoldEditView>>)
    requires
        pos < arcs.len(),
        edge_index(arcs_view(arcs@), e) == pos,
        events_ok(arcs_view(arcs@), gv, old(events)@),
    ensures
        final(events)@ == old(events)@ + penalty(arcs_view(arcs@), e),
        events_ok(arcs_view(arcs@), gv, final(events)@),
        names_span(arcs_view(arcs@), final(events)@, old(events)@.len() as int, arc_span(arcs_view(arcs@)[pos as int])),
{
    assert(arcs_view(arcs@)[pos as int] == arcs@[pos as int]@);
    if !arcs[pos].edit.is_noop() {
        events.push(WeightEvent::Penalized(pos));
        assert(final(events)@ =~= old(events)@ + penalty(arcs_view(arcs@), e));
        assert forall|i: int| 0 <= i < events@.len() implies event_ok(arcs_view(arcs@), gv, #[trigger] events@[i]) by {
            if i < events@.len() - 1 {
                assert(events@[i] == old(events)@[i]);
            }
        }
    } else {
        assert(final(events)@ =~= old(events)@ + penalty(arcs_view(arcs@), e));
    }
}

fn find_up_exec(edit: &Edit, golds: &Vec<GoldEdit>, sel: &Vec<usize>, lo: usize, hi: usize, Ghost(gs): Ghost<Seq<GoldEditView>>) -> (res: Option<usize>)
    requires
        gold_selection(golds_view(golds@), sel@, gs),
        hi < gs.len(),
    ensures
        match find_up(edit@, gs, lo as int, hi as int) {
            Some(i) => res == Some(i as usize),
            None => res is None,
        },
        res matches Some(i) ==> lo <= i <= hi,
{
    if lo > hi {
        return None;
    }
    let mut i = lo;
    while i <= hi
        invariant
            gold_selection(golds_view(golds@), sel@, gs),
            hi < gs.len(),
            lo <= i <= hi + 1,
            hi < sel.len(),
            find_up(edit@, gs, lo as int, hi as int) == find_up(edit@, gs, i as int, hi as int),
        decreases hi + 1 - i,
    {
        assert(golds_view(golds@)[sel@[i as int] as int] == golds@[sel@[i as int] as int]@);
        if edit_matches_gold(edit, &golds[sel[i]]) {
            return Some(i);
        }
        i = i + 1;
    }
    None
}

fn find_down_exec(edit: &Edit, golds: &Vec<GoldEdit>, sel: &Vec<usize>, lo: usize, hi: usize, Ghost(gs): Ghost<Seq<GoldEditView>>) -> (res: Option<usize>)
    requires
        gold_selection(golds_view(golds@), sel@, gs),
        hi < gs.len(),
    ensures
        match find_down(edit@, gs, lo as int, hi as int) {
            Some(i) => res == Some(i as usize),
            None => res is None,
        },
        res matches Some(i) ==> lo <= i <= hi,
{
    if lo > hi {
        return None;
    }
    let mut i = hi;
    while i >= lo
        invariant
            gold_selection(golds_view(golds@), sel@, gs),
            hi < gs.len(),
            lo <= hi,
            lo <= i + 1,
            i <= hi,
            find_down(edit@, gs, lo as int, hi as int) == find_down(edit@, gs, lo as int, i as int),
        decreases i + 1 - lo,
    {
        assert(golds_view(golds@)[sel@[i as int] as int] == golds@[sel@[i as int] as int]@);
        if edit_matches_gold(edit, &golds[sel[i]]) {
            return Some(i);
        }
        if i == lo {
            assert(find_down(edit@, gs, lo as int, lo - 1) is None);
            return None;
        }
        i = i - 1;
    }
    None
}

fn skip_left_exec(
    arcs: &Vec<Arc>,
    gpos: &Vec<usize>,
    l0: usize,
    target: Vertex,
    events: &mut Vec<WeightEvent>,
    Ghost(g): Ghost<Seq<Edge>>,
    Ghost(gv): Ghost<Seq<GoldEditView>>,
    Ghost(span): Ghost<(usize, usize)>,
) -> (res: usize)
    requires
        positions_in_span(arcs_view(arcs@), gpos@, span),
        events_ok(arcs_view(arcs@), gv, old(events)@),
        group_positions(arcs_view(arcs@), gpos@, g),
        l0 <= g.len(),
    ensures
        names_span(arcs_view(arcs@), final(events)@, old(events)@.len() as int, span),
        events_ok(arcs_view(arcs@), gv, final(events)@),
        (res as int, final(events)@) == (skip_left(arcs_view(arcs@), g, l0 as int, target).0, old(events)@ + skip_left(arcs_view(arcs@), g, l0 as int, target).1),
        l0 <= res <= g.len(),
{
    let ghost av = arcs_view(arcs@);
    let ghost ev0 = events@;
    let mut l = l0;
    while l < gpos.len() && !vertex_eq((arcs[gpos[l]].from, arcs[gpos[l]].to).0, target)
        invariant
            group_positions(av, gpos@, g),
            events_ok(av, gv, events@),
            positions_in_span(av, gpos@, span),
            ev0 == old(events)@,
            names_span(av, events@, ev0.len() as int, span),
            av == arcs_view(arcs@),
            l0 <= l <= g.len(),
            ev0 + skip_left(av, g, l0 as int, target).1 == events@ + skip_left(av, g, l as int, target).1,
            skip_left(av, g, l0 as int, target).0 == skip_left(av, g, l as int, target).0,
        decreases g.len() - l,
    {
        assert(av[gpos@[l as int] as int] == arcs@[gpos@[l as int] as int]@);
        let ghost before = events@;
        penalize(arcs, gpos[l], events, Ghost(g[l as int]), Ghost(gv));
        assert forall|i: int| ev0.len() <= i < events@.len() implies event_arc(#[trigger] events@[i]) < av.len() && arc_span(av[event_arc(events@[i]) as int]) == span by {
            if i < before.len() {
                assert(events@[i] == before[i]);
            }
        }
        assert(events@ + skip_left(av, g, l + 1, target).1 =~= before + skip_left(av, g, l as int, target).1);
        l = l + 1;
    }
    proof {
        if l < gpos.len() {
            assert(av[gpos@[l as int] as int] == arcs@[gpos@[l as int] as int]@);
        }
        assert(skip_left(av, g, l as int, target).1 =~= Seq::<WeightEvent>::empty());
        assert(events@ =~= events@ + skip_left(av, g, l as int, target).1);
    }
    l
}

fn skip_right_exec(
    arcs: &Vec<Arc>,
    gpos: &Vec<usize>,
    r0: usize,
    target: Vertex,
    events: &mut Vec<WeightEvent>,
    Ghost(g): Ghost<Seq<Edge>>,
    Ghost(gv): Ghost<Seq<GoldEditView>>,
    Ghost(span): Ghost<(usize, usize)>,
) -> (res: usize)
    requires
        positions_in_span(arcs_view(arcs@), gpos@, span),
        events_ok(arcs_view(arcs@), gv, old(events)@),
        group_positions(arcs_view(arcs@), gpos@, g),
        r0 < g.len(),
    ensures
        names_span(arcs_view(arcs@), final(events)@, old(events)@.len() as int, span),
        events_ok(arcs_view(arcs@), gv, final(events)@),
        (res as int, final(events)@) == (skip_right(arcs_view(arcs@), g, r0 as int, target).0, old(events)@ + skip_right(arcs_view(arcs@), g, r0 as int, target).1),
        res <= r0,
{
    let ghost av = arcs_view(arcs@);
    let ghost ev0 = events@;
    let mut r = r0;
    while r > 0 && !vertex_eq((arcs[gpos[r]].from, arcs[gpos[r]].to).1, target)
        invariant
            group_positions(av, gpos@, g),
            events_ok(av, gv, events@),
            positions_in_span(av, gpos@, span),
            ev0 == old(events)@,
            names_span(av, events@, ev0.len() as int, span),
            av == arcs_view(arcs@),
            r < g.len(),
            r <= r0,
            ev0 + skip_right(av, g, r0 as int, target).1 == events@ + skip_right(av, g, r as int, target).1,
            skip_right(av, g, r0 as int, target).0 == skip_right(av, g, r as int, target).0,
        decreases r,
    {
        assert(av[gpos@[r as int] as int] == arcs@[gpos@[r as int] as int]@);
        let ghost before = events@;
        penalize(arcs, gpos[r], events, Ghost(g[r as int]), Ghost(gv));
        assert forall|i: int| ev0.len() <= i < events@.len() implies event_arc(#[trigger] events@[i]) < av.len() && arc_span(av[event_arc(events@[i]) as int]) == span by {
            if i < before.len() {
                assert(events@[i] == before[i]);
            }
        }
        assert(events@ + skip_right(av, g, r - 1, target).1 =~= before + skip_right(av, g, r as int, target).1);
        r = r - 1;
    }
    proof {
        if r > 0 {
            assert(av[gpos@[r as int] as int] == arcs@[gpos@[r as int] as int]@);
        }
        assert(skip_right(av, g, r as int, target).1 =~= Seq::<WeightEvent>::empty());
        assert(events@ =~= events@ + skip_right(av, g, r as int, target).1);
    }
    r
}

fn insertion_span_events(
    arcs: &Vec<Arc>,
    gpos: &Vec<usize>,
    golds: &Vec<GoldEdit>,
    sel: &Vec<usize>,
    events: &mut Vec<WeightEvent>,
    Ghost(g): Ghost<Seq<Edge>>,
    Ghost(gs): Ghost<Seq<GoldEditView>>,
    Ghost(span): Ghost<(usize, usize)>,
)
    requires
        positions_in_span(arcs_view(arcs@), gpos@, span),
        events_ok(arcs_view(arcs@), golds_view(golds@), old(events)@),
        forall|t: int| 0 <= t < gs.len() ==> (#[trigger] gs[t]).start >= 0 && gs[t].end >= 0,
        group_positions(arcs_view(arcs@), gpos@, g),
        gold_selection(golds_view(golds@), sel@, gs),
    ensures
        names_span(arcs_view(arcs@), final(events)@, old(events)@.len() as int, span),
        events_ok(arcs_view(arcs@), golds_view(golds@), final(events)@),
        final(events)@ == old(events)@ + insertion_events(arcs_view(arcs@), g, gs),
{
    let ghost av = arcs_view(arcs@);
    if gpos.len() == 0 {
        assert(events@ =~= events@ + insertion_events(av, g, gs));
        return;
    }
    let n = gpos.len();
    let mut lptr: usize = 0;
    let mut rptr: usize = n - 1;
    let mut cur: usize = 0;
    let mut g_lptr: usize = 0;
    let mut g_rptr: usize = if sel.len() == 0 { 0 } else { sel.len() - 1 };
    let ghost ev0 = events@;
    let ghost mut evs: Seq<WeightEvent> = Seq::empty();
    let ghost start = WalkState {
        lptr: 0,
        rptr: g.len() - 1,
        cur: 0,
        g_lptr: 0,
        g_rptr: if gs.len() == 0 { 0 } else { gs.len() - 1 },
        stopped: false,
        events: Seq::empty(),
    };
    let ghost target = walk(av, g, gs, start).events;
    let mut stopped = false;
    while lptr <= rptr && !stopped
        invariant
            av == arcs_view(arcs@),
            group_positions(av, gpos@, g),
            gold_selection(golds_view(golds@), sel@, gs),
            events_ok(av, golds_view(golds@), events@),
            positions_in_span(av, gpos@, span),
            names_span(av, events@, ev0.len() as int, span),
            forall|t: int| 0 <= t < gs.len() ==> (#[trigger] gs[t]).start >= 0 && gs[t].end >= 0,
            n == g.len(),
            n >= 1,
            rptr < n,
            lptr <= n,
            cur == lptr || cur == rptr,
            g_lptr <= gs.len(),
            events@ == ev0 + evs,
            target == insertion_events(av, g, gs),
            walk(
                av,
                g,
                gs,
                WalkState {
                    lptr: lptr as int,
                    rptr: rptr as int,
                    cur: cur as int,
                    g_lptr: g_lptr as int,
                    g_rptr: g_rptr as int,
                    stopped: stopped,
                    events: evs,
                },
            ).events == target,
        decreases (if stopped || lptr > rptr { 0int } else { 2 * (rptr - lptr + 1) + if cur != lptr { 1int } else { 0int } }),
    {
        let ghost st = WalkState {
            lptr: lptr as int,
            rptr: rptr as int,
            cur: cur as int,
            g_lptr: g_lptr as int,
            g_rptr: g_rptr as int,
            stopped: false,
            events: evs,
        };
        let ghost next = walk_step(av, g, gs, st);
        let pos = gpos[cur];
        let ghost cur_old = cur;
        assert(av[pos as int] == arcs@[pos as int]@);
        assert(edit_at(av, g[cur as int]) == arcs@[pos as int].edit@);
        let at_left = cur == lptr;
        let mut found: Option<usize> = None;
        if sel.len() > 0 {
            let hi = if g_rptr < sel.len() - 1 { g_rptr } else { sel.len() - 1 };
            if at_left {
                found = find_up_exec(&arcs[pos].edit, golds, sel, g_lptr, hi, Ghost(gs));
            } else {
                found = find_down_exec(&arcs[pos].edit, golds, sel, g_lptr, hi, Ghost(gs));
            }
        }
        let ghost ev_before = events@;
        proof {
            let sf = if gs.len() == 0 {
                None
            } else {
                let hi = if st.g_rptr < gs.len() - 1 { st.g_rptr } else { gs.len() - 1 };
                if at_left {
                    find_up(edit_at(av, g[cur as int]), gs, st.g_lptr, hi)
                } else {
                    find_down(edit_at(av, g[cur as int]), gs, st.g_lptr, hi)
                }
            };
            if gs.len() > 0 {
                let hi = if st.g_rptr < gs.len() - 1 { st.g_rptr } else { gs.len() - 1 };
                lemma_find_range(edit_at(av, g[cur as int]), gs, st.g_lptr, hi);
            }
            match sf {
                Some(i) => assert(found == Some(i as usize)),
                None => assert(found is None),
            }
            assert(g[cur as int] == (arcs@[pos as int].from, arcs@[pos as int].to));
        }
        match found {
            Some(i) => {
                events.push(WeightEvent::Matched(pos));
                proof {
                    let gv = golds_view(golds@);
                    assert(matches_gold(arcs@[pos as int].edit@, gs[i as int]));
                    assert(gv[sel@[i as int] as int] == gs[i as int]);
                    assert(event_ok(av, gv, WeightEvent::Matched(pos)));
                    assert forall|q: int| 0 <= q < events@.len() implies event_ok(av, gv, #[trigger] events@[q]) by {
                        if q < events@.len() - 1 {
                            assert(events@[q] == ev_before[q]);
                        }
                    }
                    evs = evs.push(WeightEvent::Matched(pos));
                    assert(events@ =~= ev0 + evs);
                }
                if at_left {
                    g_lptr = i + 1;
                    let target_v = arcs[pos].to;
                    lptr = skip_left_exec(arcs, gpos, lptr + 1, target_v, events, Ghost(g), Ghost(golds_view(golds@)), Ghost(span));
                    proof {
                        let sk = skip_left(av, g, st.lptr + 1, g[st.cur].1);
                        evs = evs + sk.1;
                        assert(events@ =~= ev0 + evs);
                    }
                    cur = lptr;
                } else {
                    g_rptr = if i > 0 { i - 1 } else { 0 };
                    if rptr > 0 {
                        let target_v = arcs[pos].from;
                        rptr = skip_right_exec(arcs, gpos, rptr - 1, target_v, events, Ghost(g), Ghost(golds_view(golds@)), Ghost(span));
                        proof {
                            let sk = skip_right(av, g, st.rptr - 1, g[st.cur].0);
                            evs = evs + sk.1;
                            assert(events@ =~= ev0 + evs);
                        }
                        cur = rptr;
                    } else {
                        stopped = true;
                    }
                }
            },
            None => {
                penalize(arcs, pos, events, Ghost(g[cur as int]), Ghost(golds_view(golds@)));
                proof {
                    evs = evs + penalty(av, g[st.cur]);
                    assert(events@ =~= ev0 + evs);
                }
                if at_left {
                    lptr = lptr + 1;
                    cur = rptr;
                } else {
                    if rptr > 0 {
                        rptr = rptr - 1;
                    }
                    cur = lptr;
                }
            },
        }
        proof {
            let now = WalkState {
                lptr: lptr as int,
                rptr: rptr as int,
                cur: cur as int,
                g_lptr: g_lptr as int,
                g_rptr: g_rptr as int,
                stopped: stopped,
                events: evs,
            };
            assert(gpos@[cur_old as int] == pos);
            assert(edge_index(av, g[st.cur]) == pos);
            assert(now.lptr == next.lptr);
            assert(now.rptr == next.rptr);
            assert(now.cur == next.cur);
            assert(now.g_lptr == next.g_lptr);
            assert(now.g_rptr == next.g_rptr);
            assert(now.stopped == next.stopped);
            assert(now.events == next.events);
            assert(now == next);
            assert(walk_measure(next) < walk_measure(st));
        }
    }
    proof {
        let fin = WalkState {
            lptr: lptr as int,
            rptr: rptr as int,
            cur: cur as int,
            g_lptr: g_lptr as int,
            g_rptr: g_rptr as int,
            stopped: stopped,
            events: evs,
        };
        assert(walk(av, g, gs, fin) == fin);
    }
}

fn any_gold_match(edit: &Edit, golds: &Vec<GoldEdit>, sel: &Vec<usize>, Ghost(gs): Ghost<Seq<GoldEditView>>) -> (res: bool)
    requires
        gold_selection(golds_view(golds@), sel@, gs),
    ensures
        res == exists|u: int| 0 <= u < gs.len() && matches_gold(edit@, #[trigger] gs[u]),
{
    let mut t: usize = 0;
    while t < sel.len()
        invariant
            gold_selection(golds_view(golds@), sel@, gs),
            t <= sel.len(),
            forall|u: int| 0 <= u < t ==> !matches_gold(edit@, #[trigger] gs[u]),
        decreases sel.len() - t,
    {
        assert(golds_view(golds@)[sel@[t as int] as int] == golds@[sel@[t as int] as int]@);
        if edit_matches_gold(edit, &golds[sel[t]]) {
            assert(matches_gold(edit@, gs[t as int]));
            return true;
        }
        t = t + 1;
    }
    false
}

fn plain_span_events(
    arcs: &Vec<Arc>,
    gpos: &Vec<usize>,
    golds: &Vec<GoldEdit>,
    sel: &Vec<usize>,
    events: &mut Vec<WeightEvent>,
    Ghost(g): Ghost<Seq<Edge>>,
    Ghost(gs): Ghost<Seq<GoldEditView>>,
    Ghost(span): Ghost<(usize, usize)>,
)
    requires
        positions_in_span(arcs_view(arcs@), gpos@, span),
        events_ok(arcs_view(arcs@), golds_view(golds@), old(events)@),
        forall|t: int| 0 <= t < gs.len() ==> (#[trigger] gs[t]).start >= 0 && gs[t].end >= 0,
        group_positions(arcs_view(arcs@), gpos@, g),
        gold_selection(golds_view(golds@), sel@, gs),
    ensures
        names_span(arcs_view(arcs@), final(events)@, old(events)@.len() as int, span),
        events_ok(arcs_view(arcs@), golds_view(golds@), final(events)@),
        final(events)@ == old(events)@ + plain_events(arcs_view(arcs@), g, gs),
{
    let ghost av = arcs_view(arcs@);
    let ghost ev0 = events@;
    let mut x: usize = 0;
    while x < gpos.len()
        invariant
            av == arcs_view(arcs@),
            group_positions(av, gpos@, g),
            gold_selection(golds_view(golds@), sel@, gs),
            events_ok(av, golds_view(golds@), events@),
            positions_in_span(av, gpos@, span),
            names_span(av, events@, ev0.len() as int, span),
            forall|t: int| 0 <= t < gs.len() ==> (#[trigger] gs[t]).start >= 0 && gs[t].end >= 0,
            x <= gpos.len(),
            events@ == ev0 + plain_events(av, g.take(x as int), gs),
        decreases gpos.len() - x,
    {
        let pos = gpos[x];
        assert(av[pos as int] == arcs@[pos as int]@);
        let ghost e = g[x as int];
        assert(edit_at(av, e) == arcs@[pos as int].edit@);
        let has_match = any_gold_match(&arcs[pos].edit, golds, sel, Ghost(gs));
        let ghost exists_match = exists|u: int| 0 <= u < gs.len() && matches_gold(edit_at(av, e), #[trigger] gs[u]);
        assert(has_match == exists_match);
        assert(g.take(x + 1).drop_last() =~= g.take(x as int));
        assert(g.take(x + 1).last() == e);
        let ghost before = events@;
        if has_match {
            events.push(WeightEvent::Matched(pos));
            assert(events@ =~= before + seq![WeightEvent::Matched(pos)]);
            proof {
                let gv = golds_view(golds@);
                let u = choose|u: int| 0 <= u < gs.len() && matches_gold(edit_at(av, e), #[trigger] gs[u]);
                assert(gv[sel@[u] as int] == gs[u]);
                assert(event_ok(av, gv, WeightEvent::Matched(pos)));
                assert forall|q: int| 0 <= q < events@.len() implies event_ok(av, gv, #[trigger] events@[q]) by {
                    if q < events@.len() - 1 {
                        assert(events@[q] == before[q]);
                    }
                }
            }
        } else {
            penalize(arcs, pos, events, Ghost(e), Ghost(golds_view(golds@)));
        }
        assert(events@ =~= ev0 + plain_events(av, g.take(x + 1), gs));
        x = x + 1;
    }
    assert(g.take(gpos.len() as int) =~= g);
}

fn golds_for_span(golds: &Vec<GoldEdit>, span: (usize, usize)) -> (sel: Vec<usize>)
    ensures
        gold_selection(golds_view(golds@), sel@, golds_for(golds_view(golds@), span)),
{
    let ghost gv = golds_view(golds@);
    let ghost pred = |g: GoldEditView| g.start >= 0 && g.end >= 0 && (g.start as usize, g.end as usize) == span;
    let mut sel: Vec<usize> = Vec::new();
    let mut t: usize = 0;
    while t < golds.len()
        invariant
            gv == golds_view(golds@),
            pred == (|g: GoldEditView| g.start >= 0 && g.end >= 0 && (g.start as usize, g.end as usize) == span),
            t <= golds.len(),
            gold_selection(gv, sel@, gv.take(t as int).filter(pred)),
        decreases golds.len() - t,
    {
        proof {
            reveal(Seq::filter);
            assert(gv.take(t + 1).drop_last() =~= gv.take(t as int));
            assert(gv.take(t + 1).last() == gv[t as int]);
            assert(gv[t as int] == golds@[t as int]@);
        }
        let g = &golds[t];
        let ghost before = sel@;
        let ghost prev = gv.take(t as int).filter(pred);
        if g.start >= 0 && g.end >= 0 && g.start as usize == span.0 && g.end as usize == span.1 {
            sel.push(t);
            assert(pred(gv[t as int]));
            assert(gv.take(t + 1).filter(pred) == prev.push(gv[t as int]));
            assert forall|u: int| 0 <= u < sel@.len() implies #[trigger] sel@[u] < gv.len() && gv[sel@[u] as int] == prev.push(gv[t as int])[u] by {
                if u < before.len() {
                    assert(sel@[u] == before[u]);
                }
            }
        } else {
            assert(!pred(gv[t as int]));
            assert(gv.take(t + 1).filter(pred) == prev);
        }
        t = t + 1;
    }
    assert(gv.take(golds.len() as int) =~= gv);
    sel
}

fn has_span(spans: &Vec<(usize, usize)>, span: (usize, usize)) -> (res: bool)
    ensures
        res == spans@.contains(span),
{
    let mut i: usize = 0;
    while i < spans.len()
        invariant
            i <= spans.len(),
            forall|k: int| 0 <= k < i ==> spans@[k] != span,
        decreases spans.len() - i,
    {
        if spans[i].0 == span.0 && spans[i].1 == span.1 {
            assert(spans@[i as int] == span);
            return true;
        }
        i = i + 1;
    }
    false
}

fn span_positions(arcs: &Vec<Arc>, span: (usize, usize)) -> (pos: Vec<usize>)
    requires
        edges_of(arcs_view(arcs@)).no_duplicates(),
    ensures
        forall|k: int| 0 <= k < pos.len() ==> #[trigger] pos@[k] < arcs.len(),
        forall|p: usize| pos@.contains(p) <==> p < arcs.len() && arc_span(arcs_view(arcs@)[p as int]) == span,
        edges_at(arcs_view(arcs@), pos@).no_duplicates(),
{
    let ghost av = arcs_view(arcs@);
    let mut pos: Vec<usize> = Vec::new();
    let mut a: usize = 0;
    while a < arcs.len()
        invariant
            av == arcs_view(arcs@),
            a <= arcs.len(),
            forall|k: int| 0 <= k < pos.len() ==> #[trigger] pos@[k] < a,
            forall|i: int, j: int| 0 <= i < j < pos.len() ==> #[trigger] pos@[i] < #[trigger] pos@[j],
            forall|p: usize| pos@.contains(p) <==> p < a && arc_span(av[p as int]) == span,
        decreases arcs.len() - a,
    {
        assert(av[a as int] == arcs@[a as int]@);
        let ghost before = pos@;
        if arcs[a].edit.start == span.0 && arcs[a].edit.end == span.1 {
            pos.push(a);
        }
        proof {
            assert forall|p: usize| pos@.contains(p) <==> p < a + 1 && arc_span(av[p as int]) == span by {
                if before.contains(p) {
                    let q = choose|q: int| 0 <= q < before.len() && before[q] == p;
                    assert(pos@[q] == p);
                }
                if pos@.contains(p) && p != a {
                    let q = choose|q: int| 0 <= q < pos@.len() && pos@[q] == p;
                    assert(before[q] == p);
                }
                if p == a && arc_span(av[p as int]) == span {
                    assert(pos@[pos@.len() - 1] == p);
                }
            }
        }
        a = a + 1;
    }
    proof {
        let ev = edges_at(av, pos@);
        assert forall|i: int, j: int| 0 <= i < ev.len() && 0 <= j < ev.len() && i != j implies ev[i] != ev[j] by {
            assert(edges_of(av)[pos@[i] as int] == ev[i]);
            assert(edges_of(av)[pos@[j] as int] == ev[j]);
            if i < j {
                assert(pos@[i] < pos@[j]);
            } else {
                assert(pos@[j] < pos@[i]);
            }
        }
    }
    pos
}

/// Lists, span by span, the weight events of the arcs of `graph` against
/// the gold edits of one annotator.
pub fn set_weights(graph: &EditGraph, gold_edits: &Vec<GoldEdit>) -> (res: Vec<WeightEvent>)
    requires
        graph@.edges().no_duplicates(),
    ensures
        res@ == weight_events(graph@.arcs, golds_view(gold_edits@)),
        events_ok(graph@.arcs, golds_view(gold_edits@), res@),
        forall|s: (usize, usize)|
            #[trigger] span_order(graph@.arcs).contains(s) ==> names_span(graph@.arcs, span_events(graph@.arcs, golds_view(gold_edits@), s), 0, s),
        forall|k: int, t: int|
            0 <= k < graph@.arcs.len() && graph@.arcs[k].edit.start != graph@.arcs[k].edit.end && 0 <= t < gold_edits.len()
                && gold_edits@[t].start >= 0 && gold_edits@[t].end >= 0 && #[trigger] matches_gold(
                graph@.arcs[k].edit,
                golds_view(gold_edits@)[t],
            ) ==> res@.contains(WeightEvent::Matched(k as usize)) && !res@.contains(WeightEvent::Penalized(k as usize)),
{
    let arcs = &graph.arcs;
    let ghost av = graph@.arcs;
    let ghost gv = golds_view(gold_edits@);
    assert(av == arcs_view(arcs@));
    let mut spans: Vec<(usize, usize)> = Vec::new();
    let mut events: Vec<WeightEvent> = Vec::new();
    let mut a: usize = 0;
    while a < arcs.len()
        invariant
            av == arcs_view(arcs@),
            gv == golds_view(gold_edits@),
            edges_of(av).no_duplicates(),
            a <= arcs.len(),
            spans@ == span_order(av.take(a as int)),
            events@ == events_of_spans(av, gv, spans@),
            events_ok(av, gv, events@),
            forall|s: (usize, usize)| #[trigger] spans@.contains(s) ==> names_span(av, span_events(av, gv, s), 0, s),
        decreases arcs.len() - a,
    {
        assert(av[a as int] == arcs@[a as int]@);
        let span = (arcs[a].edit.start, arcs[a].edit.end);
        assert(av.take(a + 1).drop_last() =~= av.take(a as int));
        assert(av.take(a + 1).last() == av[a as int]);
        if !has_span(&spans, span) {
            let pos = span_positions(arcs, span);
            let gpos = sort_positions_by_edge(arcs, pos);
            let ghost g = edges_at(av, gpos@);
            proof {
                assert forall|e: Edge| g.contains(e) <==> exists|k: int| 0 <= k < av.len() && arc_span(#[trigger] av[k]) == span && arc_edge(av[k]) == e by {
                    if g.contains(e) {
                        let x = choose|x: int| 0 <= x < g.len() && g[x] == e;
                        assert(gpos@.contains(gpos@[x]));
                        let k = gpos@[x] as int;
                        assert(arc_span(av[k]) == span && arc_edge(av[k]) == e);
                    }
                    if exists|k: int| 0 <= k < av.len() && arc_span(#[trigger] av[k]) == span && arc_edge(av[k]) == e {
                        let k = choose|k: int| 0 <= k < av.len() && arc_span(#[trigger] av[k]) == span && arc_edge(av[k]) == e;
                        assert(pos@.contains(k as usize));
                        assert(gpos@.contains(k as usize));
                        let x = choose|x: int| 0 <= x < gpos@.len() && gpos@[x] == k as usize;
                        assert(g[x] == e);
                    }
                }
                assert(is_span_group(av, span, g));
                let g2 = span_group(av, span);
                assert(is_span_group(av, span, g2));
                lemma_sorted_edges_unique(g2, g);
                assert forall|x: int| 0 <= x < g.len() implies {
                    &&& #[trigger] gpos@[x] < av.len()
                    &&& arc_edge(av[gpos@[x] as int]) == g[x]
                    &&& edge_index(av, g[x]) == gpos@[x]
                } by {
                    lemma_edge_index_unique(av, g[x]);
                }
                assert(group_positions(av, gpos@, g));
                assert forall|x: int| 0 <= x < gpos@.len() implies #[trigger] gpos@[x] < av.len() && arc_span(av[gpos@[x] as int]) == span by {
                    assert(gpos@.contains(gpos@[x]));
                }
            }
            let sel = golds_for_span(gold_edits, span);
            let ghost gs = golds_for(gv, span);
            let ghost before = events@;
            if span.0 == span.1 {
                insertion_span_events(arcs, &gpos, gold_edits, &sel, &mut events, Ghost(g), Ghost(gs), Ghost(span));
            } else {
                plain_span_events(arcs, &gpos, gold_edits, &sel, &mut events, Ghost(g), Ghost(gs), Ghost(span));
            }
            let ghost old_spans = spans@;
            spans.push(span);
            proof {
                assert(spans@.drop_last() =~= old_spans);
                assert(events@ == before + span_events(av, gv, span));
                let se = span_events(av, gv, span);
                assert forall|i: int| 0 <= i < se.len() implies event_arc(#[trigger] se[i]) < av.len() && arc_span(av[event_arc(se[i]) as int]) == span by {
                    assert(se[i] == events@[before.len() + i]);
                }
                assert forall|s2: (usize, usize)| #[trigger] spans@.contains(s2) implies names_span(av, span_events(av, gv, s2), 0, s2) by {
                    if s2 != span {
                        let q = choose|q: int| 0 <= q < spans@.len() && spans@[q] == s2;
                        assert(old_spans[q] == s2);
                        assert(old_spans.contains(s2));
                    }
                }
            }
        }
        a = a + 1;
    }
    assert(av.take(arcs.len() as int) =~= av);
    proof {
        assert forall|k: int, t: int|
            0 <= k < av.len() && av[k].edit.start != av[k].edit.end && 0 <= t < gold_edits.len() && gold_edits@[t].start >= 0
                && gold_edits@[t].end >= 0 && #[trigger] matches_gold(av[k].edit, gv[t]) implies events@.contains(
                WeightEvent::Matched(k as usize),
            ) && !events@.contains(WeightEvent::Penalized(k as usize)) by {
            assert(gv[t] == gold_edits@[t]@);
            lemma_accepted_arc_matched(av, gv, k, t);
            lemma_accepted_arc_not_penalized(av, gv, k, t);
        }
    }
    events
}

} // verus!
