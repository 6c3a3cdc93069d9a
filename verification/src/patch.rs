use vstd::prelude::*;
use crate::lines::{line_records, nl};
use crate::hunks::{
    MismatchView, DiffState, is_nonempty, step, run, hunks_of, initial_state, empty_hunk,
    push_expected, push_actual, at_lines,
};
use crate::edits::{EditView, left_side, right_side, left_part, right_part, both_equal, is_edit_script};

verus! {

/// The number of lines of a run that end in a newline: all of them, but the
/// last when the run is flagged as lacking its newline.
pub open spec fn terminated_count(lines: Seq<Seq<u8>>, missing_nl: bool) -> nat {
    if missing_nl && lines.len() > 0 {
        (lines.len() - 1) as nat
    } else {
        lines.len()
    }
}

/// The expected lines of a hunk, each with the newline that ends it.
pub open spec fn hunk_expected_records(h: MismatchView) -> Seq<Seq<u8>> {
    line_records(h.expected, terminated_count(h.expected, h.expected_missing_nl))
}

/// The actual lines of a hunk, each with the newline that ends it.
pub open spec fn hunk_actual_records(h: MismatchView) -> Seq<Seq<u8>> {
    line_records(h.actual, terminated_count(h.actual, h.actual_missing_nl))
}

/// Index (from 0) of the first expected line of a hunk.
pub open spec fn start_e(h: MismatchView) -> int {
    h.line_number_expected - 1
}

/// Index (from 0) just past the last expected line of a hunk.
pub open spec fn end_e(h: MismatchView) -> int {
    h.line_number_expected - 1 + h.expected.len()
}

/// Index (from 0) of the first actual line of a hunk.
pub open spec fn start_a(h: MismatchView) -> int {
    h.line_number_actual - 1
}

/// Index (from 0) just past the last actual line of a hunk.
pub open spec fn end_a(h: MismatchView) -> int {
    h.line_number_actual - 1 + h.actual.len()
}

/// A hunk describes the two files: its expected lines stand in `e` at its
/// expected line number, and its actual lines stand in `a` at its actual
/// line number (the files are taken as their newline-terminated lines).
pub open spec fn hunk_fits(e: Seq<Seq<u8>>, a: Seq<Seq<u8>>, h: MismatchView) -> bool {
    &&& h.line_number_expected >= 1
    &&& h.line_number_actual >= 1
    &&& end_e(h) <= e.len()
    &&& end_a(h) <= a.len()
    &&& e.subrange(start_e(h), end_e(h)) == hunk_expected_records(h)
    &&& a.subrange(start_a(h), end_a(h)) == hunk_actual_records(h)
}

/// A hunk fits the files given by their lines and numbers of terminated
/// lines, and its lines are the files' lines at its line numbers.
pub open spec fn hunk_in(el: Seq<Seq<u8>>, al: Seq<Seq<u8>>, ec: nat, ac: nat, h: MismatchView) -> bool {
    &&& hunk_fits(line_records(el, ec), line_records(al, ac), h)
    &&& h.expected == el.subrange(start_e(h), end_e(h))
    &&& h.actual == al.subrange(start_a(h), end_a(h))
    &&& h.expected_missing_nl ==> h.expected.len() > 0
    &&& h.actual_missing_nl ==> h.actual.len() > 0
}

/// Every hunk fits the files, with their lines, at its line numbers.
pub open spec fn hunks_in(el: Seq<Seq<u8>>, al: Seq<Seq<u8>>, ec: nat, ac: nat, hs: Seq<MismatchView>) -> bool {
    forall|k: int| 0 <= k < hs.len() ==> hunk_in(el, al, ec, ac, #[trigger] hs[k])
}

/// Each hunk starts on both sides where the one before it ends, or later.
pub open spec fn hunks_ordered(hs: Seq<MismatchView>) -> bool {
    forall|k: int|
        #![trigger hs[k]]
        0 < k < hs.len() ==> end_e(hs[k - 1]) <= start_e(hs[k]) && end_a(hs[k - 1]) <= start_a(hs[k])
}

/// Every hunk fits the files, holds a line, and they come in order.
pub open spec fn hunks_fit(e: Seq<Seq<u8>>, a: Seq<Seq<u8>>, hs: Seq<MismatchView>) -> bool {
    &&& forall|k: int| 0 <= k < hs.len() ==> hunk_fits(e, a, #[trigger] hs[k])
    &&& forall|k: int| 0 <= k < hs.len() ==> is_nonempty(#[trigger] hs[k])
    &&& hunks_ordered(hs)
}

/// The first `p` lines of `e` with the hunks applied: each hunk's expected
/// lines replaced by its actual lines, the lines between hunks kept.
pub open spec fn patch_prefix(e: Seq<Seq<u8>>, hs: Seq<MismatchView>, p: int) -> Seq<Seq<u8>>
    decreases hs.len(),
{
    if hs.len() == 0 {
        e.subrange(0, p)
    } else {
        let h = hs.last();
        patch_prefix(e, hs.drop_last(), start_e(h)) + hunk_actual_records(h) + e.subrange(end_e(h), p)
    }
}

/// `e` with the hunks applied, as `patch` applies a diff in normal format.
pub open spec fn apply_patch(e: Seq<Seq<u8>>, hs: Seq<MismatchView>) -> Seq<Seq<u8>> {
    patch_prefix(e, hs, e.len() as int)
}

/// The hunks describe both files, and patching `e` with them gives `a`.
pub open spec fn patch_law(e: Seq<Seq<u8>>, a: Seq<Seq<u8>>, hs: Seq<MismatchView>) -> bool {
    &&& hunks_fit(e, a, hs)
    &&& apply_patch(e, hs) == a
}

/// What holds of the grouping state after a prefix of an edit script from
/// `el` to `al` (`ec`, `ac` lines of which end in a newline).
pub open spec fn state_inv(s: DiffState, el: Seq<Seq<u8>>, al: Seq<Seq<u8>>, ec: nat, ac: nat) -> bool {
    let e = line_records(el, ec);
    let a = line_records(al, ac);
    let i = s.next_expected - 1;
    let j = s.next_actual - 1;
    let hs = s.results.push(s.current);
    let c = s.current;
    &&& s.next_expected >= 1
    &&& s.next_actual >= 1
    &&& i <= el.len()
    &&& j <= al.len()
    &&& forall|k: int| 0 <= k < hs.len() ==> hunk_in(el, al, ec, ac, #[trigger] hs[k])
    &&& forall|k: int| 0 <= k < s.results.len() ==> is_nonempty(#[trigger] s.results[k])
    &&& hunks_ordered(hs)
    &&& end_e(c) == i
    &&& end_a(c) == j
    &&& patch_prefix(e, hs, i) == a.take(j)
    &&& (c.expected.len() > 0 ==> c.expected_missing_nl == (i > ec))
    &&& (c.expected.len() == 0 ==> !c.expected_missing_nl)
    &&& (c.actual.len() > 0 ==> c.actual_missing_nl == (j > ac))
    &&& (c.actual.len() == 0 ==> !c.actual_missing_nl)
}

proof fn lemma_records_push(v: Seq<Seq<u8>>, old_flag: bool, l: Seq<u8>, flag: bool)
    requires
        v.len() > 0 ==> !old_flag,
    ensures
        line_records(v.push(l), terminated_count(v.push(l), flag))
            == line_records(v, terminated_count(v, old_flag)).push(
                if flag { l } else { l.push(nl()) },
            ),
{
    assert(line_records(v.push(l), terminated_count(v.push(l), flag))
        =~= line_records(v, terminated_count(v, old_flag)).push(
            if flag { l } else { l.push(nl()) },
        ));
}

proof fn lemma_subrange_extend(r: Seq<Seq<u8>>, lo: int, hi: int)
    requires
        0 <= lo <= hi < r.len(),
    ensures
        r.subrange(lo, hi + 1) == r.subrange(lo, hi).push(r[hi]),
        r.take(hi + 1) == r.take(hi).push(r[hi]),
{
    assert(r.subrange(lo, hi + 1) =~= r.subrange(lo, hi).push(r[hi]));
    assert(r.take(hi + 1) =~= r.take(hi).push(r[hi]));
}

/// Replacing the open hunk by one that starts at the same place and ends no
/// earlier keeps the hunks in order.
proof fn lemma_ordered_replace_last(results: Seq<MismatchView>, c: MismatchView, c2: MismatchView)
    requires
        hunks_ordered(results.push(c)),
        start_e(c2) == start_e(c),
        start_a(c2) == start_a(c),
    ensures
        hunks_ordered(results.push(c2)),
{
    let h = results.push(c);
    let h2 = results.push(c2);
    assert forall|k: int| #![trigger h2[k]] 0 < k < h2.len() implies end_e(h2[k - 1]) <= start_e(h2[k])
        && end_a(h2[k - 1]) <= start_a(h2[k]) by {
        assert(h[k - 1] == h2[k - 1]);
        assert(end_e(h[k - 1]) <= start_e(h[k]));
    }
}

proof fn lemma_step_right(s: DiffState, el: Seq<Seq<u8>>, al: Seq<Seq<u8>>, ec: nat, ac: nat, r: Seq<u8>)
    requires
        state_inv(s, el, al, ec, ac),
        ec <= el.len() <= ec + 1,
        ac <= al.len() <= ac + 1,
        s.next_actual - 1 < al.len(),
        r == al[s.next_actual - 1],
    ensures
        state_inv(step(s, EditView::Right(r), ec, ac), el, al, ec, ac),
        step(s, EditView::Right(r), ec, ac).next_expected == s.next_expected,
        step(s, EditView::Right(r), ec, ac).next_actual == s.next_actual + 1,
{
    let e = line_records(el, ec);
    let a = line_records(al, ac);
    let i = s.next_expected - 1;
    let j = s.next_actual - 1;
    let c = s.current;
    let s2 = step(s, EditView::Right(r), ec, ac);
    let c2 = s2.current;
    assert(c2 == push_actual(c, r, j + 1 > ac));
    lemma_records_push(c.actual, c.actual_missing_nl, r, j + 1 > ac);
    assert(a[j] == hunk_actual_records(c2).last());
    lemma_subrange_extend(a, start_a(c), j);
        lemma_subrange_extend(al, start_a(c), j);
    let hs = s.results.push(c);
    let hs2 = s2.results.push(c2);
    assert(s2.results == s.results);
    assert(hs2.drop_last() =~= s.results);
    assert(hs.drop_last() =~= s.results);
    assert forall|k: int| 0 <= k < hs2.len() implies hunk_in(el, al, ec, ac, #[trigger] hs2[k]) by {
        if k < s.results.len() {
            assert(hs2[k] == hs[k]);
        }
    }
    lemma_ordered_replace_last(s.results, c, c2);
    assert(patch_prefix(e, hs2, i) =~= patch_prefix(e, hs, i).push(a[j]));
}

proof fn lemma_step_left(s: DiffState, el: Seq<Seq<u8>>, al: Seq<Seq<u8>>, ec: nat, ac: nat, l: Seq<u8>)
    requires
        state_inv(s, el, al, ec, ac),
        ec <= el.len() <= ec + 1,
        ac <= al.len() <= ac + 1,
        s.next_expected - 1 < el.len(),
        l == el[s.next_expected - 1],
    ensures
        state_inv(step(s, EditView::Left(l), ec, ac), el, al, ec, ac),
        step(s, EditView::Left(l), ec, ac).next_expected == s.next_expected + 1,
        step(s, EditView::Left(l), ec, ac).next_actual == s.next_actual,
{
    let e = line_records(el, ec);
    let a = line_records(al, ac);
    let i = s.next_expected - 1;
    let j = s.next_actual - 1;
    let c = s.current;
    let s2 = step(s, EditView::Left(l), ec, ac);
    let c2 = s2.current;
    let hs = s.results.push(c);
    let hs2 = s2.results.push(c2);
    let split = c.actual.len() > 0 && !c.actual_missing_nl;
    assert(hs.drop_last() =~= s.results);
    assert(hs2.drop_last() =~= s2.results);
    if split {
        let base = empty_hunk(s.next_expected, s.next_actual);
        assert(c2 == push_expected(base, l, i + 1 > ec));
        lemma_records_push(base.expected, false, l, i + 1 > ec);
        assert(e.subrange(i, i + 1) =~= seq![e[i]]);
        assert(a.subrange(j, j) =~= Seq::<Seq<u8>>::empty());
        assert(el.subrange(i, i + 1) =~= seq![el[i]]);
        assert(al.subrange(j, j) =~= Seq::<Seq<u8>>::empty());
        assert(c2.expected =~= seq![l]);
        assert(hunk_actual_records(c2) =~= Seq::<Seq<u8>>::empty());
        assert(hunk_expected_records(c2) =~= seq![e[i]]);
        assert(s2.results == hs);
        assert forall|k: int| 0 <= k < hs2.len() implies hunk_in(el, al, ec, ac, #[trigger] hs2[k]) by {
            if k < hs.len() {
                assert(hs2[k] == hs[k]);
            }
        }
        assert forall|k: int| 0 <= k < s2.results.len() implies is_nonempty(#[trigger] s2.results[k]) by {
            if k < s.results.len() {
                assert(s2.results[k] == s.results[k]);
            }
        }
        assert forall|k: int| #![trigger hs2[k]] 0 < k < hs2.len() implies end_e(hs2[k - 1]) <= start_e(hs2[k])
            && end_a(hs2[k - 1]) <= start_a(hs2[k]) by {
            if k < hs.len() {
                assert(hs2[k] == hs[k]);
                assert(hs2[k - 1] == hs[k - 1]);
                assert(end_e(hs[k - 1]) <= start_e(hs[k]));
            }
        }
        assert(patch_prefix(e, hs2, i + 1) =~= patch_prefix(e, hs, i));
    } else {
        assert(c2 == push_expected(c, l, i + 1 > ec));
        lemma_records_push(c.expected, c.expected_missing_nl, l, i + 1 > ec);
        lemma_subrange_extend(e, start_e(c), i);
        lemma_subrange_extend(el, start_e(c), i);
        assert(s2.results == s.results);
        assert forall|k: int| 0 <= k < hs2.len() implies hunk_in(el, al, ec, ac, #[trigger] hs2[k]) by {
            if k < s.results.len() {
                assert(hs2[k] == hs[k]);
            }
        }
        lemma_ordered_replace_last(s.results, c, c2);
        assert(patch_prefix(e, hs2, i + 1) =~= patch_prefix(e, hs, i));
    }
}

/// Patching one more line past the last hunk keeps that line.
proof fn lemma_patch_prefix_extend(e: Seq<Seq<u8>>, hs: Seq<MismatchView>, p: int)
    requires
        0 <= p < e.len(),
        hs.len() > 0 ==> 0 <= end_e(hs.last()) <= p,
    ensures
        patch_prefix(e, hs, p + 1) == patch_prefix(e, hs, p).push(e[p]),
{
    if hs.len() == 0 {
        assert(e.subrange(0, p + 1) =~= e.subrange(0, p).push(e[p]));
    } else {
        let h = hs.last();
        assert(e.subrange(end_e(h), p + 1) =~= e.subrange(end_e(h), p).push(e[p]));
        assert(patch_prefix(e, hs, p + 1) =~= patch_prefix(e, hs, p).push(e[p]));
    }
}

proof fn lemma_step_both(
    s: DiffState,
    el: Seq<Seq<u8>>,
    al: Seq<Seq<u8>>,
    ec: nat,
    ac: nat,
    l: Seq<u8>,
    r: Seq<u8>,
)
    requires
        state_inv(s, el, al, ec, ac),
        ec <= el.len() <= ec + 1,
        ac <= al.len() <= ac + 1,
        s.next_expected - 1 < el.len(),
        s.next_actual - 1 < al.len(),
        l == el[s.next_expected - 1],
        r == al[s.next_actual - 1],
        l == r,
    ensures
        state_inv(step(s, EditView::Both(l, r), ec, ac), el, al, ec, ac),
        step(s, EditView::Both(l, r), ec, ac).next_expected == s.next_expected + 1,
        step(s, EditView::Both(l, r), ec, ac).next_actual == s.next_actual + 1,
{
    let e = line_records(el, ec);
    let a = line_records(al, ac);
    let i = s.next_expected - 1;
    let j = s.next_actual - 1;
    let c = s.current;
    let s2 = step(s, EditView::Both(l, r), ec, ac);
    let c2 = s2.current;
    let hs = s.results.push(c);
    let hs2 = s2.results.push(c2);
    let past_e = i + 1 > ec;
    let past_a = j + 1 > ac;
    assert(hs.drop_last() =~= s.results);
    assert(hs2.drop_last() =~= s2.results);
    if past_e && !past_a {
        let c1 = push_expected(c, l, true);
        assert(c2 == push_actual(c1, l, c.actual_missing_nl));
        lemma_records_push(c.expected, c.expected_missing_nl, l, true);
        lemma_records_push(c1.actual, c1.actual_missing_nl, l, false);
        lemma_subrange_extend(e, start_e(c), i);
        lemma_subrange_extend(el, start_e(c), i);
        lemma_subrange_extend(a, start_a(c), j);
        lemma_subrange_extend(al, start_a(c), j);
        assert(s2.results == s.results);
        assert forall|k: int| 0 <= k < hs2.len() implies hunk_in(el, al, ec, ac, #[trigger] hs2[k]) by {
            if k < s.results.len() {
                assert(hs2[k] == hs[k]);
            }
        }
        lemma_ordered_replace_last(s.results, c, c2);
        assert(patch_prefix(e, hs2, i + 1) =~= patch_prefix(e, hs, i).push(a[j]));
    } else if !past_e && past_a {
        let c1 = push_actual(c, l, true);
        assert(c2 == push_expected(c1, l, c.expected_missing_nl));
        lemma_records_push(c.actual, c.actual_missing_nl, l, true);
        lemma_records_push(c1.expected, c1.expected_missing_nl, l, false);
        lemma_subrange_extend(e, start_e(c), i);
        lemma_subrange_extend(el, start_e(c), i);
        lemma_subrange_extend(a, start_a(c), j);
        lemma_subrange_extend(al, start_a(c), j);
        assert(s2.results == s.results);
        assert forall|k: int| 0 <= k < hs2.len() implies hunk_in(el, al, ec, ac, #[trigger] hs2[k]) by {
            if k < s.results.len() {
                assert(hs2[k] == hs[k]);
            }
        }
        lemma_ordered_replace_last(s.results, c, c2);
        assert(patch_prefix(e, hs2, i + 1) =~= patch_prefix(e, hs, i).push(a[j]));
    } else if is_nonempty(c) {
        assert(e[i] == a[j]);
        assert(c2 == empty_hunk(s.next_expected + 1, s.next_actual + 1));
        assert(s2.results == hs);
        assert(e.subrange(i + 1, i + 1) =~= Seq::<Seq<u8>>::empty());
        assert(a.subrange(j + 1, j + 1) =~= Seq::<Seq<u8>>::empty());
        assert(el.subrange(i + 1, i + 1) =~= Seq::<Seq<u8>>::empty());
        assert(al.subrange(j + 1, j + 1) =~= Seq::<Seq<u8>>::empty());
        assert(hunk_actual_records(c2) =~= Seq::<Seq<u8>>::empty());
        assert(hunk_expected_records(c2) =~= Seq::<Seq<u8>>::empty());
        assert forall|k: int| 0 <= k < hs2.len() implies hunk_in(el, al, ec, ac, #[trigger] hs2[k]) by {
            if k < hs.len() {
                assert(hs2[k] == hs[k]);
            }
        }
        assert forall|k: int| 0 <= k < s2.results.len() implies is_nonempty(#[trigger] s2.results[k]) by {
            if k < s.results.len() {
                assert(s2.results[k] == s.results[k]);
            }
        }
        assert forall|k: int| #![trigger hs2[k]] 0 < k < hs2.len() implies end_e(hs2[k - 1]) <= start_e(hs2[k])
            && end_a(hs2[k - 1]) <= start_a(hs2[k]) by {
            if k < hs.len() {
                assert(hs2[k] == hs[k]);
                assert(hs2[k - 1] == hs[k - 1]);
                assert(end_e(hs[k - 1]) <= start_e(hs[k]));
            }
        }
        lemma_patch_prefix_extend(e, hs, i);
        lemma_subrange_extend(a, 0, j);
        assert(patch_prefix(e, hs2, i + 1) =~= patch_prefix(e, hs, i + 1));
    } else {
        assert(e[i] == a[j]);
        assert(c2 == at_lines(c, s.next_expected + 1, s.next_actual + 1));
        assert(s2.results == s.results);
        assert(e.subrange(i + 1, i + 1) =~= Seq::<Seq<u8>>::empty());
        assert(a.subrange(j + 1, j + 1) =~= Seq::<Seq<u8>>::empty());
        assert(el.subrange(i + 1, i + 1) =~= Seq::<Seq<u8>>::empty());
        assert(al.subrange(j + 1, j + 1) =~= Seq::<Seq<u8>>::empty());
        assert(hunk_actual_records(c2) =~= Seq::<Seq<u8>>::empty());
        assert(hunk_expected_records(c2) =~= Seq::<Seq<u8>>::empty());
        assert(hunk_actual_records(c) =~= Seq::<Seq<u8>>::empty());
        assert(c2.expected =~= el.subrange(i + 1, i + 1));
        assert(c2.actual =~= al.subrange(j + 1, j + 1));
        assert forall|k: int| 0 <= k < hs2.len() implies hunk_in(el, al, ec, ac, #[trigger] hs2[k]) by {
            if k < s.results.len() {
                assert(hs2[k] == hs[k]);
            }
        }
        assert forall|k: int| #![trigger hs2[k]] 0 < k < hs2.len() implies end_e(hs2[k - 1]) <= start_e(hs2[k])
            && end_a(hs2[k - 1]) <= start_a(hs2[k]) by {
            assert(hs2[k - 1] == hs[k - 1]);
            assert(end_e(hs[k - 1]) <= start_e(hs[k]));
        }
        if s.results.len() > 0 {
            assert(hs[s.results.len() - 1] == s.results.last());
            assert(end_e(hs[hs.len() - 2]) <= start_e(hs[hs.len() - 1]));
        }
        lemma_patch_prefix_extend(e, s.results, i);
        lemma_subrange_extend(a, 0, j);
        assert(patch_prefix(e, hs, i) =~= patch_prefix(e, s.results, i));
        assert(patch_prefix(e, hs2, i + 1) =~= patch_prefix(e, s.results, i + 1));
    }
}

proof fn lemma_initial_inv(el: Seq<Seq<u8>>, al: Seq<Seq<u8>>, ec: nat, ac: nat)
    ensures
        state_inv(initial_state(), el, al, ec, ac),
{
    let e = line_records(el, ec);
    let a = line_records(al, ac);
    let s = initial_state();
    let hs = s.results.push(s.current);
    assert(hs =~= seq![empty_hunk(1, 1)]);
    assert(hs.drop_last() =~= Seq::<MismatchView>::empty());
    assert(e.subrange(0, 0) =~= Seq::<Seq<u8>>::empty());
    assert(a.subrange(0, 0) =~= Seq::<Seq<u8>>::empty());
    assert(el.subrange(0, 0) =~= Seq::<Seq<u8>>::empty());
    assert(al.subrange(0, 0) =~= Seq::<Seq<u8>>::empty());
    assert(hunk_actual_records(empty_hunk(1, 1)) =~= Seq::<Seq<u8>>::empty());
    assert(hunk_expected_records(empty_hunk(1, 1)) =~= Seq::<Seq<u8>>::empty());
    assert(a.take(0) =~= Seq::<Seq<u8>>::empty());
    assert(hs.last() == empty_hunk(1, 1));
    assert(start_e(hs.last()) == 0);
    assert(patch_prefix(e, hs.drop_last(), 0) =~= Seq::<Seq<u8>>::empty());
    assert(patch_prefix(e, hs, 0) =~= Seq::<Seq<u8>>::empty());
}

/// After any prefix of an edit script, the grouping state describes the
/// lines consumed so far.
proof fn lemma_run_inv(es: Seq<EditView>, el: Seq<Seq<u8>>, al: Seq<Seq<u8>>, ec: nat, ac: nat)
    requires
        left_side(es).len() <= el.len(),
        left_side(es) == el.take(left_side(es).len() as int),
        right_side(es).len() <= al.len(),
        right_side(es) == al.take(right_side(es).len() as int),
        both_equal(es),
        ec <= el.len() <= ec + 1,
        ac <= al.len() <= ac + 1,
    ensures
        state_inv(run(es, ec, ac), el, al, ec, ac),
        run(es, ec, ac).next_expected == left_side(es).len() + 1,
        run(es, ec, ac).next_actual == right_side(es).len() + 1,
    decreases es.len(),
{
    if es.len() == 0 {
        lemma_initial_inv(el, al, ec, ac);
    } else {
        let es0 = es.drop_last();
        let x = es.last();
        let ls0 = left_side(es0);
        let rs0 = right_side(es0);
        let ls = left_side(es);
        let rs = right_side(es);
        assert(ls == ls0 + left_part(x));
        assert(rs == rs0 + right_part(x));
        assert(ls.take(ls0.len() as int) =~= ls0);
        assert(rs.take(rs0.len() as int) =~= rs0);
        assert(el.take(ls.len() as int).take(ls0.len() as int) =~= el.take(ls0.len() as int));
        assert(al.take(rs.len() as int).take(rs0.len() as int) =~= al.take(rs0.len() as int));
        assert forall|k: int| 0 <= k < es0.len() implies match #[trigger] es0[k] {
            EditView::Both(l, r) => l == r,
            _ => true,
        } by {
            assert(es0[k] == es[k]);
        }
        lemma_run_inv(es0, el, al, ec, ac);
        let s = run(es0, ec, ac);
        assert(run(es, ec, ac) == step(s, x, ec, ac));
        let i = ls0.len() as int;
        let j = rs0.len() as int;
        match x {
            EditView::Left(l) => {
                assert(ls[i] == l);
                lemma_step_left(s, el, al, ec, ac, l);
            },
            EditView::Right(r) => {
                assert(rs[j] == r);
                lemma_step_right(s, el, al, ec, ac, r);
            },
            EditView::Both(l, r) => {
                assert(ls[i] == l);
                assert(rs[j] == r);
                assert(es[es.len() - 1] == x);
                lemma_step_both(s, el, al, ec, ac, l, r);
            },
        }
    }
}

/// Patching the expected lines with the hunks of an edit script gives the
/// actual lines back, and every hunk describes both sides where its line
/// numbers say. Here `ec` and `ac` lines of each side end in a newline (all
/// of them, or all but the last).
pub proof fn lemma_hunks_patch(es: Seq<EditView>, el: Seq<Seq<u8>>, al: Seq<Seq<u8>>, ec: nat, ac: nat)
    requires
        is_edit_script(es, el, al),
        ec <= el.len() <= ec + 1,
        ac <= al.len() <= ac + 1,
    ensures
        patch_law(line_records(el, ec), line_records(al, ac), hunks_of(es, ec, ac)),
        hunks_in(el, al, ec, ac, hunks_of(es, ec, ac)),
{
    let e = line_records(el, ec);
    let a = line_records(al, ac);
    assert(el.take(el.len() as int) =~= el);
    assert(al.take(al.len() as int) =~= al);
    lemma_run_inv(es, el, al, ec, ac);
    let s = run(es, ec, ac);
    let hs = s.results.push(s.current);
    assert(hs.drop_last() =~= s.results);
    assert(a.take(al.len() as int) =~= a);
    if !is_nonempty(s.current) {
        let r = s.results;
        assert forall|k: int| 0 <= k < r.len() implies hunk_in(el, al, ec, ac, #[trigger] r[k]) by {
            assert(hs[k] == r[k]);
        }
        assert forall|k: int| #![trigger r[k]] 0 < k < r.len() implies end_e(r[k - 1]) <= start_e(r[k])
            && end_a(r[k - 1]) <= start_a(r[k]) by {
            assert(hs[k] == r[k]);
            assert(hs[k - 1] == r[k - 1]);
        }
        assert(hunk_actual_records(s.current) =~= Seq::<Seq<u8>>::empty());
        assert(e.subrange(el.len() as int, el.len() as int) =~= Seq::<Seq<u8>>::empty());
        assert(patch_prefix(e, hs, el.len() as int) =~= patch_prefix(e, r, el.len() as int));
    } else {
        assert forall|k: int| 0 <= k < hs.len() implies is_nonempty(#[trigger] hs[k]) by {
            if k < s.results.len() {
                assert(hs[k] == s.results[k]);
            }
        }
    }
}

} // verus!
