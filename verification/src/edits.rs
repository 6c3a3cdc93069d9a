use vstd::prelude::*;
use crate::lines::lines_view;

verus! {

/// One step of a line-by-line edit script between two sequences of lines.
#[derive(Debug)]
pub enum LineEdit {
    /// A line found only on the left (expected) side.
    Left(Vec<u8>),
    /// A line found only on the right (actual) side.
    Right(Vec<u8>),
    /// A line found on both sides: the left copy, then the right copy.
    Both(Vec<u8>, Vec<u8>),
}

/// The mathematical form of a [`LineEdit`].
pub enum EditView {
    Left(Seq<u8>),
    Right(Seq<u8>),
    Both(Seq<u8>, Seq<u8>),
}

impl View for LineEdit {
    type V = EditView;

    open spec fn view(&self) -> EditView {
        match self {
            LineEdit::Left(l) => EditView::Left(l@),
            LineEdit::Right(r) => EditView::Right(r@),
            LineEdit::Both(l, r) => EditView::Both(l@, r@),
        }
    }
}

/// The views of a vector of edits.
pub open spec fn edits_view(v: Seq<LineEdit>) -> Seq<EditView> {
    v.map_values(|e: LineEdit| e@)
}

/// The left-side lines that an edit mentions.
pub open spec fn left_part(e: EditView) -> Seq<Seq<u8>> {
    match e {
        EditView::Left(l) => seq![l],
        EditView::Right(_) => Seq::empty(),
        EditView::Both(l, _) => seq![l],
    }
}

/// The right-side lines that an edit mentions.
pub open spec fn right_part(e: EditView) -> Seq<Seq<u8>> {
    match e {
        EditView::Left(_) => Seq::empty(),
        EditView::Right(r) => seq![r],
        EditView::Both(_, r) => seq![r],
    }
}

/// The left-side lines of an edit script, in order.
pub open spec fn left_side(es: Seq<EditView>) -> Seq<Seq<u8>>
    decreases es.len(),
{
    if es.len() == 0 {
        Seq::empty()
    } else {
        left_side(es.drop_last()) + left_part(es.last())
    }
}

/// The right-side lines of an edit script, in order.
pub open spec fn right_side(es: Seq<EditView>) -> Seq<Seq<u8>>
    decreases es.len(),
{
    if es.len() == 0 {
        Seq::empty()
    } else {
        right_side(es.drop_last()) + right_part(es.last())
    }
}

/// Every line that the script keeps is the same on both sides.
pub open spec fn both_equal(es: Seq<EditView>) -> bool {
    forall|k: int|
        0 <= k < es.len() ==> match #[trigger] es[k] {
            EditView::Both(l, r) => l == r,
            _ => true,
        }
}

/// `es` turns `left` into `right`: read on the left it is `left`, read on the
/// right it is `right`, and what it keeps is the same on both sides.
pub open spec fn is_edit_script(es: Seq<EditView>, left: Seq<Seq<u8>>, right: Seq<Seq<u8>>) -> bool {
    &&& left_side(es) == left
    &&& right_side(es) == right
    &&& both_equal(es)
}

/// Every edit of the script keeps a line.
pub open spec fn keeps_all(es: Seq<EditView>) -> bool {
    forall|k: int| 0 <= k < es.len() ==> #[trigger] es[k] is Both
}

/// The number of equal lines at the start of both sequences.
pub open spec fn common_prefix_len(l: Seq<Seq<u8>>, r: Seq<Seq<u8>>) -> nat
    decreases l.len(),
{
    if l.len() > 0 && r.len() > 0 && l[0] == r[0] {
        1 + common_prefix_len(l.drop_first(), r.drop_first())
    } else {
        0
    }
}

/// The number of equal lines at the end of both sequences.
pub open spec fn common_suffix_len(l: Seq<Seq<u8>>, r: Seq<Seq<u8>>) -> nat
    decreases l.len(),
{
    if l.len() > 0 && r.len() > 0 && l.last() == r.last() {
        1 + common_suffix_len(l.drop_last(), r.drop_last())
    } else {
        0
    }
}

/// The table of longest common subsequence lengths that the diff computes
/// over the lines between the common prefix and suffix has a number of
/// cells that fits in a `usize`.
pub open spec fn lcs_table_fits(l: Seq<Seq<u8>>, r: Seq<Seq<u8>>) -> bool {
    let p = common_prefix_len(l, r);
    let s = common_suffix_len(l.skip(p as int), r.skip(p as int));
    (l.len() - p - s + 1) * (r.len() - p - s + 1) <= usize::MAX
}

/// The edit script that the `diff` crate's longest-common-subsequence diff
/// gives for two sequences of lines.
pub uninterp spec fn lcs_diff(left: Seq<Seq<u8>>, right: Seq<Seq<u8>>) -> Seq<EditView>;

/// Calls `diff::slice` on two sequences of lines and copies each item of its
/// result into a [`LineEdit`].
/// Trusted: the result is `lcs_diff` of the two sequences (a function of the
/// lines alone), and it is an edit script from `left` to `right`. The crate's
/// source shows the latter: it emits the common prefix and suffix as `Both`
/// pairs of equal lines, and walks its table back from both ends to both
/// starts, emitting each left line once and each right line once, in order,
/// and `Both` only for equal lines. That the script is a shortest one is not
/// stated. For two equal sequences the source finds every line in the
/// common prefix, so the script keeps every line. The `requires` keeps the size of the table it allocates
/// (its multiplication would overflow otherwise).
#[verifier::external_body]
pub(crate) fn lcs_edits(left: &[Vec<u8>], right: &[Vec<u8>]) -> (res: Vec<LineEdit>)
    requires
        lcs_table_fits(lines_view(left@), lines_view(right@)),
    ensures
        edits_view(res@) == lcs_diff(lines_view(left@), lines_view(right@)),
        is_edit_script(edits_view(res@), lines_view(left@), lines_view(right@)),
        lines_view(left@) == lines_view(right@) ==> keeps_all(edits_view(res@)),
{
    ::diff::slice(left, right).into_iter().map(|item| match item {
        ::diff::Result::Left(l) => LineEdit::Left(l.clone()),
        ::diff::Result::Right(r) => LineEdit::Right(r.clone()),
        ::diff::Result::Both(l, r) => LineEdit::Both(l.clone(), r.clone()),
    }).collect()
}

/// Each edit mentions a line of one side or of both.
pub proof fn lemma_edits_len(es: Seq<EditView>)
    ensures
        es.len() <= left_side(es).len() + right_side(es).len(),
    decreases es.len(),
{
    if es.len() > 0 {
        lemma_edits_len(es.drop_last());
    }
}

} // verus!
