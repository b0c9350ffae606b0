use fast_m2::align::levenshtein_matrix;
use fast_m2::closure::transitive_arcs;
use fast_m2::edit::{edit_matches_gold, equals_ignore_whitespace_casing, merge_edits, remove_spaces, Edit, EditKind, GoldEdit};
use fast_m2::extract::{drop_whitespace_casing_edits, edit_seq_from_path, match_seq};
use fast_m2::graph::{build_edit_graph, merge_graphs, Arc, EditGraph};
use fast_m2::sentence::sentence_graph;
use fast_m2::tokens::{is_white_space, tokenize};
use fast_m2::weights::{set_weights, WeightEvent};
use fast_m2::weights::WeightEvent::Penalized as P;

fn toks(s: &str) -> Vec<String> {
    s.split_whitespace().map(String::from).collect()
}

fn edit(kind: EditKind, start: usize, end: usize, orig: &str, corr: &str, unchanged: usize) -> Edit {
    Edit { kind, start, end, orig: orig.to_string(), corr: corr.to_string(), unchanged_words: unchanged }
}

fn gold(start: i64, end: i64, orig: &str, corrections: &[&str]) -> GoldEdit {
    GoldEdit {
        start,
        end,
        orig: orig.to_string(),
        corrections: corrections.iter().map(|c| c.to_string()).collect(),
    }
}

fn same_edit(a: &Edit, b: &Edit) -> bool {
    a.kind == b.kind && a.start == b.start && a.end == b.end && a.orig == b.orig && a.corr == b.corr
        && a.unchanged_words == b.unchanged_words
}

fn edges(g: &EditGraph) -> Vec<((usize, usize), (usize, usize))> {
    g.arcs.iter().map(|a| (a.from, a.to)).collect()
}

#[test]
fn levenshtein_identical_tokens() {
    let (mat, bp) = levenshtein_matrix(&toks("a b"), &toks("a b"), 1, 1, 1);
    assert_eq!(mat, vec![vec![0, 1, 2], vec![1, 0, 1], vec![2, 1, 0]]);
    assert_eq!(bp[2][2].len(), 1);
    assert_eq!(bp[2][2][0].0, (1, 1));
    assert!(same_edit(&bp[2][2][0].1, &edit(EditKind::Noop, 1, 2, "b", "b", 1)));
    assert!(bp[0][0].is_empty());
    assert_eq!(bp[0][2][0].0, (0, 1));
    assert!(same_edit(&bp[0][2][0].1, &edit(EditKind::Ins, 0, 0, "", "b", 0)));
    assert_eq!(bp[2][0][0].0, (1, 0));
    assert!(same_edit(&bp[2][0][0].1, &edit(EditKind::Del, 1, 2, "b", "", 0)));
}

#[test]
fn levenshtein_substitution_cost_changes_ties() {
    let (mat, bp) = levenshtein_matrix(&toks("a"), &toks("b"), 1, 1, 1);
    assert_eq!(mat[1][1], 1);
    assert_eq!(bp[1][1].len(), 1);
    assert!(same_edit(&bp[1][1][0].1, &edit(EditKind::Sub, 0, 1, "a", "b", 0)));
    let (mat2, bp2) = levenshtein_matrix(&toks("a"), &toks("b"), 1, 1, 2);
    assert_eq!(mat2[1][1], 2);
    let preds: Vec<(usize, usize)> = bp2[1][1].iter().map(|p| p.0).collect();
    assert_eq!(preds, vec![(0, 0), (0, 1), (1, 0)]);
    assert_eq!(bp2[1][1][1].1.kind, EditKind::Del);
    assert_eq!(bp2[1][1][2].1.kind, EditKind::Ins);
}

#[test]
fn merge_edits_joins_texts() {
    let ins_x = edit(EditKind::Ins, 1, 1, "", "x", 0);
    let ins_y = edit(EditKind::Ins, 1, 1, "", "y", 0);
    let del_a = edit(EditKind::Del, 1, 2, "a", "", 0);
    let del_b = edit(EditKind::Del, 2, 3, "b", "", 0);
    let noop_c = edit(EditKind::Noop, 2, 3, "c", "c", 1);
    let sub_d = edit(EditKind::Sub, 3, 4, "d", "e", 0);
    assert!(same_edit(&merge_edits(&ins_x, &ins_y), &edit(EditKind::Ins, 1, 1, "", "x y", 0)));
    assert!(same_edit(&merge_edits(&ins_x, &del_b), &edit(EditKind::Sub, 1, 3, "b", "x", 0)));
    assert!(same_edit(&merge_edits(&del_a, &ins_x), &edit(EditKind::Sub, 1, 1, "a", "x", 0)));
    assert!(same_edit(&merge_edits(&del_a, &del_b), &edit(EditKind::Del, 1, 3, "a b", "", 0)));
    assert!(same_edit(&merge_edits(&del_a, &noop_c), &edit(EditKind::Sub, 1, 3, "a c", "c", 1)));
    assert!(same_edit(&merge_edits(&noop_c, &noop_c), &edit(EditKind::Noop, 2, 3, "c c", "c c", 2)));
    assert!(same_edit(&merge_edits(&noop_c, &sub_d), &edit(EditKind::Sub, 2, 4, "c d", "c e", 1)));
    assert!(same_edit(&merge_edits(&sub_d, &del_b), &edit(EditKind::Sub, 3, 3, "d b", "e", 0)));
    assert!(same_edit(&merge_edits(&ins_x, &noop_c), &edit(EditKind::Sub, 1, 3, "c", "x c", 1)));
}

#[test]
fn gold_matching_needs_span_text_and_correction() {
    let e = edit(EditKind::Sub, 1, 2, "b", "c", 0);
    assert!(edit_matches_gold(&e, &gold(1, 2, "b", &["x", "c"])));
    assert!(!edit_matches_gold(&e, &gold(1, 2, "b", &["x"])));
    assert!(!edit_matches_gold(&e, &gold(1, 3, "b", &["c"])));
    assert!(!edit_matches_gold(&e, &gold(1, 2, "a", &["c"])));
    assert!(!edit_matches_gold(&e, &gold(-1, -1, "b", &["c"])));
}

#[test]
fn edit_graph_of_one_substitution() {
    let g = sentence_graph(&toks("a b"), &toks("a c"), 2);
    assert_eq!(g.vertices, vec![(0, 0), (1, 1), (1, 2), (2, 1), (2, 2)]);
    assert_eq!(
        edges(&g),
        vec![
            ((0, 0), (1, 1)),
            ((1, 1), (1, 2)),
            ((1, 1), (2, 1)),
            ((1, 1), (2, 2)),
            ((1, 2), (2, 2)),
            ((2, 1), (2, 2)),
            ((0, 0), (1, 2)),
            ((0, 0), (2, 1)),
            ((0, 0), (2, 2)),
        ]
    );
    let dists: Vec<u64> = g.arcs.iter().map(|a| a.dist).collect();
    assert_eq!(dists, vec![1, 1, 1, 1, 1, 1, 2, 2, 2]);
    assert!(same_edit(&g.arcs[3].edit, &edit(EditKind::Sub, 1, 2, "b", "c", 0)));
    assert!(same_edit(&g.arcs[6].edit, &edit(EditKind::Sub, 0, 1, "a", "a c", 1)));
    assert!(same_edit(&g.arcs[7].edit, &edit(EditKind::Sub, 0, 2, "a b", "a", 1)));
    assert!(same_edit(&g.arcs[8].edit, &edit(EditKind::Sub, 0, 2, "a b", "a c", 1)));
}

#[test]
fn build_and_merge_keep_first_graph_data() {
    let (mat1, bp1) = levenshtein_matrix(&toks("a b"), &toks("a c"), 1, 1, 1);
    let (mat2, bp2) = levenshtein_matrix(&toks("a b"), &toks("a c"), 1, 1, 2);
    let g1 = build_edit_graph(&mat1, &bp1);
    let g2 = build_edit_graph(&mat2, &bp2);
    assert_eq!(g1.vertices, vec![(2, 2), (1, 1), (0, 0)]);
    assert_eq!(g2.vertices.len(), 5);
    assert_eq!(g2.arcs.len(), 6);
    let m = merge_graphs(g1, g2);
    assert_eq!(m.vertices, vec![(0, 0), (1, 1), (1, 2), (2, 1), (2, 2)]);
    assert_eq!(m.arcs.len(), 6);
    assert!(m.arcs.iter().all(|a| a.dist == 1));
}

#[test]
fn transitive_arcs_drops_merged_noops_and_respects_limit() {
    let g = sentence_graph(&toks("a b c"), &toks("a b c"), 2);
    // the identical sentence has the three no-op arcs only: merged no-ops are dropped
    assert_eq!(edges(&g), vec![((0, 0), (1, 1)), ((1, 1), (2, 2)), ((2, 2), (3, 3))]);
    let g0 = sentence_graph(&toks("a b"), &toks("a c"), 0);
    // with no unchanged word allowed, nothing that spans "a" is merged
    assert_eq!(g0.arcs.len(), 6);
}

#[test]
fn transitive_arcs_on_a_hand_made_lattice() {
    let g = EditGraph {
        vertices: vec![(0, 0), (0, 1), (0, 2)],
        arcs: vec![
            Arc { from: (0, 0), to: (0, 1), dist: 1, edit: edit(EditKind::Ins, 0, 0, "", "x", 0) },
            Arc { from: (0, 1), to: (0, 2), dist: 1, edit: edit(EditKind::Ins, 0, 0, "", "y", 0) },
        ],
    };
    let t = transitive_arcs(g, 0);
    assert_eq!(edges(&t), vec![((0, 0), (0, 1)), ((0, 1), (0, 2)), ((0, 0), (0, 2))]);
    assert_eq!(t.arcs[2].dist, 2);
    assert!(same_edit(&t.arcs[2].edit, &edit(EditKind::Ins, 0, 0, "", "x y", 0)));
}

#[test]
fn weights_match_the_gold_substitution() {
    let g = sentence_graph(&toks("a b"), &toks("a c"), 2);
    let events = set_weights(&g, &vec![gold(1, 2, "b", &["c"])]);
    assert_eq!(
        events,
        vec![P(6), P(1), P(2), WeightEvent::Matched(3), P(4), P(5), P(7), P(8)]
    );
}

#[test]
fn weights_match_a_gold_insertion() {
    let g = sentence_graph(&toks("a"), &toks("x a"), 2);
    assert_eq!(edges(&g), vec![((0, 0), (0, 1)), ((0, 1), (1, 2)), ((0, 0), (1, 2))]);
    let events = set_weights(&g, &vec![gold(0, 0, "", &["x"]), gold(-1, -1, "", &[""])]);
    assert_eq!(events, vec![WeightEvent::Matched(0), WeightEvent::Penalized(2)]);
    let none = set_weights(&g, &vec![]);
    assert_eq!(none, vec![WeightEvent::Penalized(0), WeightEvent::Penalized(2)]);
}

#[test]
fn insertion_walk_matches_from_both_ends() {
    // three insertion arcs at the same point, two gold insertions
    let g = EditGraph {
        vertices: vec![(1, 0), (1, 1), (1, 2)],
        arcs: vec![
            Arc { from: (1, 0), to: (1, 1), dist: 1, edit: edit(EditKind::Ins, 1, 1, "", "x", 0) },
            Arc { from: (1, 1), to: (1, 2), dist: 1, edit: edit(EditKind::Ins, 1, 1, "", "y", 0) },
            Arc { from: (1, 0), to: (1, 2), dist: 2, edit: edit(EditKind::Ins, 1, 1, "", "x y", 0) },
        ],
    };
    let golds = vec![gold(1, 1, "", &["x"]), gold(1, 1, "", &["y"])];
    let events = set_weights(&g, &golds);
    // sorted arcs of the point: (1,0)->(1,1) [0], (1,0)->(1,2) [2], (1,1)->(1,2) [1]
    // left: arc 0 matches gold 0, the pointer skips arc 2 (penalized) to arc 1;
    // arc 1 matches gold 1
    assert_eq!(events, vec![WeightEvent::Matched(0), WeightEvent::Penalized(2), WeightEvent::Matched(1)]);
}

#[test]
fn trace_back_collects_changes_only() {
    let g = sentence_graph(&toks("a b"), &toks("a c"), 2);
    let path = vec![None, Some((0, 0)), Some((1, 1)), Some((1, 1)), Some((1, 1))];
    let seq = edit_seq_from_path(&g, &path);
    assert_eq!(seq.len(), 1);
    assert!(same_edit(&seq[0], &edit(EditKind::Sub, 1, 2, "b", "c", 0)));
    let direct = vec![None, None, None, None, Some((0, 0))];
    let seq2 = edit_seq_from_path(&g, &direct);
    assert_eq!(seq2.len(), 1);
    assert!(same_edit(&seq2[0], &edit(EditKind::Sub, 0, 2, "a b", "a c", 1)));
}

#[test]
fn match_seq_matches_in_order_once() {
    let e1 = edit(EditKind::Sub, 0, 1, "a", "b", 0);
    let e2 = edit(EditKind::Sub, 2, 3, "c", "d", 0);
    let golds = vec![gold(0, 1, "a", &["b"]), gold(2, 3, "c", &["d"])];
    // edits come last first: e2 before e1 in the walk order of the scorer
    let m = match_seq(&vec![e2, e1], &golds);
    assert_eq!(m.len(), 2);
    assert!(same_edit(&m[0], &edit(EditKind::Sub, 0, 1, "a", "b", 0)));
    // once gold 1 is matched, gold 0 is no longer open
    let m2 = match_seq(&vec![edit(EditKind::Sub, 0, 1, "a", "b", 0), edit(EditKind::Sub, 2, 3, "c", "d", 0)], &golds);
    assert_eq!(m2.len(), 1);
    assert_eq!(m2[0].start, 2);
    let none = match_seq(&vec![], &golds);
    assert!(none.is_empty());
}

#[test]
fn whitespace_and_case_only_edits() {
    assert!(equals_ignore_whitespace_casing("New York", "newyork"));
    assert!(equals_ignore_whitespace_casing("ΣΑΣ", "σας"));
    assert!(!equals_ignore_whitespace_casing("a", "b"));
    let kept = drop_whitespace_casing_edits(vec![
        edit(EditKind::Sub, 0, 2, "New York", "new york", 0),
        edit(EditKind::Sub, 2, 3, "is", "was", 0),
    ]);
    assert_eq!(kept.len(), 1);
    assert_eq!(kept[0].corr, "was");
}

#[test]
fn lattice_is_the_same_on_every_call() {
    let a = sentence_graph(&toks("he go to school"), &toks("he goes to the school"), 2);
    let b = sentence_graph(&toks("he go to school"), &toks("he goes to the school"), 2);
    assert_eq!(a.vertices, b.vertices);
    assert_eq!(edges(&a), edges(&b));
    for (x, y) in a.arcs.iter().zip(b.arcs.iter()) {
        assert_eq!(x.dist, y.dist);
        assert!(same_edit(&x.edit, &y.edit));
    }
}

#[test]
fn lattice_arcs_run_forward_and_keep_few_unchanged_words() {
    let g = sentence_graph(&toks("he go to school"), &toks("he goes to the school"), 1);
    for a in &g.arcs {
        assert!(a.from.0 <= a.to.0 && a.from.1 <= a.to.1 && a.from != a.to);
        assert_eq!(a.edit.start, a.from.0);
        assert_eq!(a.edit.end, a.to.0);
        assert!(!(a.edit.kind == EditKind::Noop && a.dist > 1));
        if a.dist > 1 {
            assert!(a.edit.unchanged_words <= 1);
        }
    }
}

#[test]
fn weight_events_name_matched_and_changing_arcs() {
    let g = sentence_graph(&toks("he go to school"), &toks("he goes to the school"), 2);
    let golds = vec![gold(1, 2, "go", &["goes"]), gold(3, 3, "", &["the"])];
    let events = set_weights(&g, &golds);
    let mut matched = 0;
    for ev in &events {
        match *ev {
            WeightEvent::Matched(k) => {
                matched += 1;
                assert!(golds.iter().any(|gd| edit_matches_gold(&g.arcs[k].edit, gd)));
            }
            WeightEvent::Penalized(k) => assert_ne!(g.arcs[k].edit.kind, EditKind::Noop),
        }
    }
    assert_eq!(matched, 2);
}

#[test]
fn tokens_are_maximal_runs_without_white_space() {
    assert_eq!(tokenize("  a\tb  c "), vec!["a", "b", "c"]);
    assert_eq!(tokenize("he\u{3000}goes\nhome"), vec!["he", "goes", "home"]);
    assert!(tokenize(" \t\n").is_empty());
    assert!(tokenize("").is_empty());
    assert_eq!(tokenize("one"), vec!["one"]);
}

#[test]
fn backpointer_edits_follow_their_step() {
    let first = toks("he go home");
    let second = toks("he goes to home");
    let (_mat, bp) = levenshtein_matrix(&first, &second, 1, 1, 2);
    for i in 0..=first.len() {
        for j in 0..=second.len() {
            for (p, e) in &bp[i][j] {
                assert!((p.0 + 1 == i && p.1 + 1 == j) || (p.0 + 1 == i && p.1 == j) || (p.0 == i && p.1 + 1 == j));
                assert_eq!(e.start, p.0);
                assert_eq!(e.end, i);
                let orig = if p.0 < i { first[p.0].clone() } else { String::new() };
                let corr = if p.1 < j { second[p.1].clone() } else { String::new() };
                assert_eq!(e.orig, orig);
                assert_eq!(e.corr, corr);
                let kind = if p.0 == i {
                    EditKind::Ins
                } else if p.1 == j {
                    EditKind::Del
                } else if first[p.0] == second[p.1] {
                    EditKind::Noop
                } else {
                    EditKind::Sub
                };
                assert_eq!(e.kind, kind);
                assert_eq!(e.unchanged_words, if kind == EditKind::Noop { 1 } else { 0 });
            }
        }
    }
}

#[test]
fn merging_lattices_is_symmetric() {
    let (s, c) = (toks("he go to school"), toks("he goes to the school"));
    let (mat1, bp1) = levenshtein_matrix(&s, &c, 1, 1, 1);
    let (mat2, bp2) = levenshtein_matrix(&s, &c, 1, 1, 2);
    let ab = merge_graphs(build_edit_graph(&mat1, &bp1), build_edit_graph(&mat2, &bp2));
    let ba = merge_graphs(build_edit_graph(&mat2, &bp2), build_edit_graph(&mat1, &bp1));
    assert_eq!(ab.vertices, ba.vertices);
    assert_eq!(edges(&ab), edges(&ba));
    for (x, y) in ab.arcs.iter().zip(ba.arcs.iter()) {
        assert_eq!(x.dist, y.dist);
        assert!(same_edit(&x.edit, &y.edit));
    }
}

#[test]
fn merging_takes_repeated_vertices_and_edges_once() {
    let arc = |from: (usize, usize), to: (usize, usize)| Arc {
        from,
        to,
        dist: 1,
        edit: edit(EditKind::Sub, from.0, to.0, "a", "b", 0),
    };
    let g1 = EditGraph { vertices: vec![(1, 1)], arcs: vec![] };
    let g2 = EditGraph {
        vertices: vec![(1, 1), (0, 0), (0, 0)],
        arcs: vec![arc((0, 0), (1, 1)), arc((0, 0), (1, 1))],
    };
    let m = merge_graphs(g1, g2);
    assert_eq!(m.vertices, vec![(0, 0), (1, 1)]);
    assert_eq!(edges(&m), vec![((0, 0), (1, 1))]);
}

#[test]
fn spaces_are_removed_and_white_space_is_recognised() {
    assert_eq!(remove_spaces(" New  York "), "NewYork");
    assert_eq!(remove_spaces("a\tb"), "a\tb");
    assert_eq!(remove_spaces(""), "");
    for c in [' ', '\t', '\n', '\r', '\u{b}', '\u{c}', '\u{85}', '\u{a0}', '\u{1680}', '\u{2000}', '\u{200a}', '\u{2028}', '\u{2029}', '\u{202f}', '\u{205f}', '\u{3000}'] {
        assert!(is_white_space(c));
        assert!(c.is_whitespace());
    }
    for c in ['a', '_', '\u{200b}', '\u{180e}', '\u{feff}', '\u{0}'] {
        assert!(!is_white_space(c));
        assert!(!c.is_whitespace());
    }
    for u in 0u32..0x3100 {
        if let Some(c) = char::from_u32(u) {
            assert_eq!(is_white_space(c), c.is_whitespace());
        }
    }
}

#[test]
fn closure_runs_on_graphs_that_are_not_lattices() {
    let odd = EditGraph {
        vertices: vec![(0, 0), (1, 1)],
        arcs: vec![Arc { from: (0, 0), to: (1, 1), dist: 1, edit: edit(EditKind::Ins, 3, 3, "", "x", 0) }],
    };
    let res = transitive_arcs(odd, 2);
    assert_eq!(edges(&res), vec![((0, 0), (1, 1))]);
    assert_eq!(res.arcs[0].edit.start, 3);

    let a = (0, 0);
    let b = (1, 1);
    let cycle = EditGraph {
        vertices: vec![a, b],
        arcs: vec![
            Arc { from: a, to: b, dist: 1, edit: edit(EditKind::Sub, 0, 1, "p", "q", 0) },
            Arc { from: b, to: a, dist: 1, edit: edit(EditKind::Sub, 1, 0, "r", "s", 0) },
        ],
    };
    let res = transitive_arcs(cycle, 2);
    assert_eq!(edges(&res), vec![(a, b), (b, a), (b, b), (a, a)]);
    let dists: Vec<u64> = res.arcs.iter().map(|x| x.dist).collect();
    assert_eq!(dists, vec![1, 1, 2, 2]);
    assert_eq!(res.arcs[2].edit.orig, "r p");
    assert_eq!(res.arcs[3].edit.corr, "q s");
}

#[test]
fn building_follows_predecessors_outside_the_table_and_repeated_ones() {
    let mat: Vec<Vec<u64>> = vec![vec![0, 1]];
    let bp = vec![vec![
        vec![],
        vec![
            ((5, 5), edit(EditKind::Ins, 0, 0, "", "a", 0)),
            ((0, 0), edit(EditKind::Ins, 0, 0, "", "b", 0)),
            ((0, 0), edit(EditKind::Ins, 0, 0, "", "c", 0)),
        ],
    ]];
    let g = build_edit_graph(&mat, &bp);
    assert_eq!(g.vertices, vec![(0, 1), (5, 5), (0, 0)]);
    assert_eq!(edges(&g), vec![((5, 5), (0, 1)), ((0, 0), (0, 1)), ((0, 0), (0, 1))]);
    assert_eq!(g.arcs[2].edit.corr, "c");
}
