//! Token-level edits and gold annotations.

use vstd::prelude::*;
use vstd::std_specs::iter::IteratorSpec;

verus! {

/// The kind of a token edit.
#[derive(Clone, Copy, Debug, PartialEq, Eq, Structural)]
pub enum EditKind {
    Ins,
    Del,
    Sub,
    Noop,
}

/// An edit between a source span `[start, end)` and a corrected text.
#[derive(Debug)]
pub struct Edit {
    pub kind: EditKind,
    pub start: usize,
    pub end: usize,
    pub orig: String,
    pub corr: String,
    pub unchanged_words: usize,
}

/// The mathematical value of an [`Edit`].
pub struct EditView {
    pub kind: EditKind,
    pub start: usize,
    pub end: usize,
    pub orig: Seq<char>,
    pub corr: Seq<char>,
    pub unchanged_words: usize,
}

impl View for Edit {
    type V = EditView;

    open spec fn view(&self) -> EditView {
        EditView {
            kind: self.kind,
            start: self.start,
            end: self.end,
            orig: self.orig@,
            corr: self.corr@,
            unchanged_words: self.unchanged_words,
        }
    }
}

impl Edit {
    /// A copy of this edit.
    pub fn duplicate(&self) -> (res: Edit)
        ensures
            res@ == self@,
    {
        Edit {
            kind: self.kind,
            start: self.start,
            end: self.end,
            orig: self.orig.clone(),
            corr: self.corr.clone(),
            unchanged_words: self.unchanged_words,
        }
    }

    /// Whether this edit leaves its span unchanged.
    pub fn is_noop(&self) -> (res: bool)
        ensures
            res == (self.kind == EditKind::Noop),
    {
        match self.kind {
            EditKind::Noop => true,
            _ => false,
        }
    }
}

/// One gold edit of an annotator: a source span, the original text of the
/// span and the corrections that the annotator accepts for it.
#[derive(Debug)]
pub struct GoldEdit {
    pub start: i64,
    pub end: i64,
    pub orig: String,
    pub corrections: Vec<String>,
}

/// The mathematical value of a [`GoldEdit`].
pub struct GoldEditView {
    pub start: i64,
    pub end: i64,
    pub orig: Seq<char>,
    pub corrections: Seq<Seq<char>>,
}

impl View for GoldEdit {
    type V = GoldEditView;

    open spec fn view(&self) -> GoldEditView {
        GoldEditView {
            start: self.start,
            end: self.end,
            orig: self.orig@,
            corrections: self.corrections.deep_view(),
        }
    }
}

/// Two texts joined by one space.
pub open spec fn join(a: Seq<char>, b: Seq<char>) -> Seq<char> {
    a + seq![' '] + b
}

/// The kind of the edit that covers two adjacent edits.
pub open spec fn merged_kind(k1: EditKind, k2: EditKind) -> EditKind {
    if k1 == EditKind::Ins && k2 == EditKind::Ins {
        EditKind::Ins
    } else if k1 == EditKind::Del && k2 == EditKind::Del {
        EditKind::Del
    } else if k1 == EditKind::Noop && k2 == EditKind::Noop {
        EditKind::Noop
    } else {
        EditKind::Sub
    }
}

/// The original text of the edit that covers two adjacent edits: an
/// insertion contributes none of its own.
pub open spec fn merged_orig(e1: EditView, e2: EditView) -> Seq<char> {
    if e1.kind == EditKind::Ins && e2.kind == EditKind::Ins {
        Seq::empty()
    } else if e1.kind == EditKind::Ins {
        e2.orig
    } else if e2.kind == EditKind::Ins {
        e1.orig
    } else {
        join(e1.orig, e2.orig)
    }
}

/// The corrected text of the edit that covers two adjacent edits: a
/// deletion contributes none of its own.
pub open spec fn merged_corr(e1: EditView, e2: EditView) -> Seq<char> {
    if e1.kind == EditKind::Del && e2.kind == EditKind::Del {
        Seq::empty()
    } else if e1.kind == EditKind::Del {
        e2.corr
    } else if e2.kind == EditKind::Del {
        e1.corr
    } else {
        join(e1.corr, e2.corr)
    }
}

/// The edit that covers `e1` followed by `e2`.
pub open spec fn merged(e1: EditView, e2: EditView) -> EditView {
    EditView {
        kind: merged_kind(e1.kind, e2.kind),
        start: e1.start,
        end: e2.end,
        orig: merged_orig(e1, e2),
        corr: merged_corr(e1, e2),
        unchanged_words: (e1.unchanged_words + e2.unchanged_words) as usize,
    }
}

fn join_strings(a: &String, b: &String) -> (res: String)
    ensures
        res@ == join(a@, b@),
{
    let sep = " ";
    proof {
        reveal_strlit(" ");
    }
    let mut res = a.clone();
    res.append(sep);
    res.append(b.as_str());
    res
}

/// Merges two adjacent edits into one edit covering both.
pub fn merge_edits(e1: &Edit, e2: &Edit) -> (res: Edit)
    requires
        e1.unchanged_words + e2.unchanged_words <= usize::MAX,
    ensures
        res@ == merged(e1@, e2@),
{
    let (kind, orig, corr) = match (e1.kind, e2.kind) {
        (EditKind::Ins, EditKind::Ins) => (EditKind::Ins, String::new(), join_strings(&e1.corr, &e2.corr)),
        (EditKind::Ins, EditKind::Del) => (EditKind::Sub, e2.orig.clone(), e1.corr.clone()),
        (EditKind::Ins, EditKind::Sub) | (EditKind::Ins, EditKind::Noop) => (
            EditKind::Sub,
            e2.orig.clone(),
            join_strings(&e1.corr, &e2.corr),
        ),
        (EditKind::Del, EditKind::Ins) => (EditKind::Sub, e1.orig.clone(), e2.corr.clone()),
        (EditKind::Del, EditKind::Del) => (EditKind::Del, join_strings(&e1.orig, &e2.orig), String::new()),
        (EditKind::Del, EditKind::Sub) | (EditKind::Del, EditKind::Noop) => (
            EditKind::Sub,
            join_strings(&e1.orig, &e2.orig),
            e2.corr.clone(),
        ),
        (EditKind::Sub, EditKind::Ins) => (EditKind::Sub, e1.orig.clone(), join_strings(&e1.corr, &e2.corr)),
        (EditKind::Sub, EditKind::Del) => (EditKind::Sub, join_strings(&e1.orig, &e2.orig), e1.corr.clone()),
        (EditKind::Sub, EditKind::Sub) | (EditKind::Sub, EditKind::Noop) => (
            EditKind::Sub,
            join_strings(&e1.orig, &e2.orig),
            join_strings(&e1.corr, &e2.corr),
        ),
        (EditKind::Noop, EditKind::Ins) => (EditKind::Sub, e1.orig.clone(), join_strings(&e1.corr, &e2.corr)),
        (EditKind::Noop, EditKind::Del) => (EditKind::Sub, join_strings(&e1.orig, &e2.orig), e1.corr.clone()),
        (EditKind::Noop, EditKind::Sub) => (
            EditKind::Sub,
            join_strings(&e1.orig, &e2.orig),
            join_strings(&e1.corr, &e2.corr),
        ),
        (EditKind::Noop, EditKind::Noop) => (
            EditKind::Noop,
            join_strings(&e1.orig, &e2.orig),
            join_strings(&e1.corr, &e2.corr),
        ),
    };
    Edit {
        kind,
        start: e1.start,
        end: e2.end,
        orig,
        corr,
        unchanged_words: e1.unchanged_words + e2.unchanged_words,
    }
}

/// Merging two adjacent edits gives the edit that covers both spans and
/// turns their source text into their corrected text: its original text is
/// the two original texts in order, joined by one space, where an insertion
/// contributes none; its correction is the two corrections in order, joined
/// by one space, where a deletion contributes none; it inserts only when
/// both insert, deletes only when both delete, changes nothing only when
/// neither changes anything, and substitutes otherwise; its unchanged words
/// are those of both.
pub proof fn lemma_merged_edit(e1: EditView, e2: EditView)
    ensures
        ({
            let m = merged(e1, e2);
            let ins1 = e1.kind == EditKind::Ins;
            let ins2 = e2.kind == EditKind::Ins;
            let del1 = e1.kind == EditKind::Del;
            let del2 = e2.kind == EditKind::Del;
            &&& m.start == e1.start
            &&& m.end == e2.end
            &&& e1.unchanged_words + e2.unchanged_words <= usize::MAX ==> m.unchanged_words == e1.unchanged_words + e2.unchanged_words
            &&& (!ins1 && !ins2 ==> m.orig == e1.orig + seq![' '] + e2.orig)
            &&& (ins1 && !ins2 ==> m.orig == e2.orig)
            &&& (!ins1 && ins2 ==> m.orig == e1.orig)
            &&& (ins1 && ins2 ==> m.orig.len() == 0)
            &&& (!del1 && !del2 ==> m.corr == e1.corr + seq![' '] + e2.corr)
            &&& (del1 && !del2 ==> m.corr == e2.corr)
            &&& (!del1 && del2 ==> m.corr == e1.corr)
            &&& (del1 && del2 ==> m.corr.len() == 0)
            &&& (m.kind == EditKind::Ins <==> ins1 && ins2)
            &&& (m.kind == EditKind::Del <==> del1 && del2)
            &&& (m.kind == EditKind::Noop <==> e1.kind == EditKind::Noop && e2.kind == EditKind::Noop)
        }),
{
}

/// Whether `gold` accepts `edit`: same span (the gold bounds read as
/// `usize`), same original text, and the correction is one of the gold ones.
pub open spec fn matches_gold(edit: EditView, gold: GoldEditView) -> bool {
    &&& edit.start == gold.start as usize
    &&& edit.end == gold.end as usize
    &&& edit.orig == gold.orig
    &&& gold.corrections.contains(edit.corr)
}

/// Whether `s` holds `t`.
pub fn contains_string(s: &Vec<String>, t: &String) -> (res: bool)
    ensures
        res == s.deep_view().contains(t@),
{
    let mut i: usize = 0;
    while i < s.len()
        invariant
            i <= s.len(),
            forall|k: int| 0 <= k < i ==> s.deep_view()[k] != t@,
        decreases s.len() - i,
    {
        if s[i] == *t {
            assert(s.deep_view()[i as int] == t@);
            return true;
        }
        i = i + 1;
    }
    false
}

/// Whether `gold` accepts `edit`.
pub fn edit_matches_gold(edit: &Edit, gold: &GoldEdit) -> (res: bool)
    ensures
        res == matches_gold(edit@, gold@),
{
    edit.start == gold.start as usize && edit.end == gold.end as usize && edit.orig == gold.orig
        && contains_string(&gold.corrections, &edit.corr)
}

/// The text `s` in lower case, as Unicode defines it for whole strings.
pub uninterp spec fn lowercase(s: Seq<char>) -> Seq<char>;

/// The text `s` without its space characters.
pub open spec fn without_spaces(s: Seq<char>) -> Seq<char> {
    s.filter(|c: char| c != ' ')
}

/// Whether two texts are equal once spaces are dropped and both are lower-cased.
pub open spec fn same_ignoring_space_and_case(a: Seq<char>, b: Seq<char>) -> bool {
    lowercase(without_spaces(a)) == lowercase(without_spaces(b))
}

/// `String::push`: the standard library documents that it appends `c` to
/// the end of `s`.
#[verifier::external_body]
pub(crate) fn push_char(s: &mut String, c: char)
    ensures
        final(s)@ == old(s)@.push(c),
{
    s.push(c)
}

/// The text `s` without its space characters.
pub fn remove_spaces(s: &str) -> (res: String)
    ensures
        res@ == without_spaces(s@),
{
    broadcast use vstd::string::group_string_axioms;

    let ghost keep = |c: char| c != ' ';
    let mut chars = s.chars();
    let mut out = String::new();
    let ghost mut n: nat = 0;
    loop
        invariant
            n <= s@.len(),
            keep == (|c: char| c != ' '),
            chars.obeys_prophetic_iter_laws(),
            chars.remaining() == s@.skip(n as int),
            out@ == s@.take(n as int).filter(keep),
        ensures
            out@ == s@.filter(keep),
        decreases s@.len() - n,
    {
        match chars.next() {
            None => {
                assert(s@.take(n as int) =~= s@);
                break;
            },
            Some(c) => {
                assert(c == s@[n as int]);
                proof {
                    reveal(Seq::filter);
                    assert(s@.take((n + 1) as int).drop_last() =~= s@.take(n as int));
                    assert(s@.take((n + 1) as int).last() == c);
                }
                if c != ' ' {
                    push_char(&mut out, c);
                }
                proof {
                    assert(s@.skip(n as int).drop_first() =~= s@.skip((n + 1) as int));
                    n = n + 1;
                }
            },
        }
    }
    out
}

/// `str::to_lowercase`: the lower-case form of `s` as Unicode defines it
/// (including the final-sigma rule). The contract only names the result
/// as `lowercase` of the input.
#[verifier::external_body]
fn to_lowercase(s: &str) -> (res: String)
    ensures
        res@ == lowercase(s@),
{
    s.to_lowercase()
}

/// Whether `a` and `b` are equal once spaces are dropped and both are lower-cased.
pub fn equals_ignore_whitespace_casing(a: &str, b: &str) -> (res: bool)
    ensures
        res == same_ignoring_space_and_case(a@, b@),
{
    let a2 = remove_spaces(a);
    let b2 = remove_spaces(b);
    to_lowercase(a2.as_str()) == to_lowercase(b2.as_str())
}

} // verus!
