use vstd::prelude::*;
use crate::lines::lines_view;
use crate::edits::{EditView, LineEdit, edits_view};

verus! {

/// One hunk of a diff: a run of expected lines (starting at line
/// `line_number_expected`, counted from 1) that is replaced by a run of
/// actual lines (starting at line `line_number_actual`). The flags say
/// that the last line of a run is the last line of its buffer and has no
/// newline.
#[derive(Debug, PartialEq)]
pub struct Mismatch {
    pub line_number_expected: usize,
    pub line_number_actual: usize,
    pub expected: Vec<Vec<u8>>,
    pub actual: Vec<Vec<u8>>,
    pub expected_missing_nl: bool,
    pub actual_missing_nl: bool,
}

/// The mathematical form of a [`Mismatch`].
pub struct MismatchView {
    pub line_number_expected: nat,
    pub line_number_actual: nat,
    pub expected: Seq<Seq<u8>>,
    pub actual: Seq<Seq<u8>>,
    pub expected_missing_nl: bool,
    pub actual_missing_nl: bool,
}

impl View for Mismatch {
    type V = MismatchView;

    open spec fn view(&self) -> MismatchView {
        MismatchView {
            line_number_expected: self.line_number_expected as nat,
            line_number_actual: self.line_number_actual as nat,
            expected: lines_view(self.expected@),
            actual: lines_view(self.actual@),
            expected_missing_nl: self.expected_missing_nl,
            actual_missing_nl: self.actual_missing_nl,
        }
    }
}

/// The views of a vector of hunks.
pub open spec fn mismatches_view(v: Seq<Mismatch>) -> Seq<MismatchView> {
    v.map_values(|m: Mismatch| m@)
}

/// An empty hunk at the given line numbers.
pub open spec fn empty_hunk(lne: nat, lna: nat) -> MismatchView {
    MismatchView {
        line_number_expected: lne,
        line_number_actual: lna,
        expected: Seq::empty(),
        actual: Seq::empty(),
        expected_missing_nl: false,
        actual_missing_nl: false,
    }
}

/// The hunk with one more expected line, and its flag set as given.
pub open spec fn push_expected(m: MismatchView, line: Seq<u8>, missing_nl: bool) -> MismatchView {
    MismatchView { expected: m.expected.push(line), expected_missing_nl: missing_nl, ..m }
}

/// The hunk with one more actual line, and its flag set as given.
pub open spec fn push_actual(m: MismatchView, line: Seq<u8>, missing_nl: bool) -> MismatchView {
    MismatchView { actual: m.actual.push(line), actual_missing_nl: missing_nl, ..m }
}

/// The hunk moved to the given line numbers.
pub open spec fn at_lines(m: MismatchView, lne: nat, lna: nat) -> MismatchView {
    MismatchView { line_number_expected: lne, line_number_actual: lna, ..m }
}

/// A hunk holds at least one line.
pub open spec fn is_nonempty(m: MismatchView) -> bool {
    m.expected.len() > 0 || m.actual.len() > 0
}

/// Where the grouping of an edit script into hunks stands: the hunks closed
/// so far, the open one, and the numbers (from 1) of the next expected and
/// actual lines.
pub struct DiffState {
    pub results: Seq<MismatchView>,
    pub current: MismatchView,
    pub next_expected: nat,
    pub next_actual: nat,
}

/// Before any edit.
pub open spec fn initial_state() -> DiffState {
    DiffState { results: Seq::empty(), current: empty_hunk(1, 1), next_expected: 1, next_actual: 1 }
}

/// One edit taken into the hunks. `ec` and `ac` are the numbers of
/// newline-terminated lines of the expected and actual buffers: a line past
/// them is a last line with no newline.
/// A removed line closes the open hunk if it already holds added lines (the
/// last of which has a newline). A kept line closes the open hunk, unless it
/// has a newline on one side only: then it is removed and added back.
pub open spec fn step(s: DiffState, e: EditView, ec: nat, ac: nat) -> DiffState {
    let past_e = s.next_expected > ec;
    let past_a = s.next_actual > ac;
    match e {
        EditView::Left(l) => {
            let split = s.current.actual.len() > 0 && !s.current.actual_missing_nl;
            let results = if split { s.results.push(s.current) } else { s.results };
            let base = if split { empty_hunk(s.next_expected, s.next_actual) } else { s.current };
            DiffState {
                results,
                current: push_expected(base, l, past_e),
                next_expected: s.next_expected + 1,
                next_actual: s.next_actual,
            }
        },
        EditView::Right(r) => DiffState {
            current: push_actual(s.current, r, past_a),
            next_actual: s.next_actual + 1,
            ..s
        },
        EditView::Both(l, _) => {
            let lne = s.next_expected + 1;
            let lna = s.next_actual + 1;
            if past_e && !past_a {
                DiffState {
                    current: push_actual(push_expected(s.current, l, true), l, s.current.actual_missing_nl),
                    next_expected: lne,
                    next_actual: lna,
                    ..s
                }
            } else if !past_e && past_a {
                DiffState {
                    current: push_expected(push_actual(s.current, l, true), l, s.current.expected_missing_nl),
                    next_expected: lne,
                    next_actual: lna,
                    ..s
                }
            } else if is_nonempty(s.current) {
                DiffState {
                    results: s.results.push(s.current),
                    current: empty_hunk(lne, lna),
                    next_expected: lne,
                    next_actual: lna,
                }
            } else {
                DiffState {
                    current: at_lines(s.current, lne, lna),
                    next_expected: lne,
                    next_actual: lna,
                    ..s
                }
            }
        },
    }
}

/// The state after taking the edits in order.
pub open spec fn run(es: Seq<EditView>, ec: nat, ac: nat) -> DiffState
    decreases es.len(),
{
    if es.len() == 0 {
        initial_state()
    } else {
        step(run(es.drop_last(), ec, ac), es.last(), ec, ac)
    }
}

/// The hunks of an edit script: the closed ones, and the open one if it
/// holds a line.
pub open spec fn hunks_of(es: Seq<EditView>, ec: nat, ac: nat) -> Seq<MismatchView> {
    let s = run(es, ec, ac);
    if is_nonempty(s.current) {
        s.results.push(s.current)
    } else {
        s.results
    }
}

impl Mismatch {
    /// An empty hunk at the given line numbers.
    pub fn new(line_number_expected: usize, line_number_actual: usize) -> (res: Mismatch)
        ensures
            res@ == empty_hunk(line_number_expected as nat, line_number_actual as nat),
    {
        let res = Mismatch {
            line_number_expected,
            line_number_actual,
            expected: Vec::new(),
            actual: Vec::new(),
            expected_missing_nl: false,
            actual_missing_nl: false,
        };
        proof {
            assert(lines_view(res.expected@) =~= Seq::<Seq<u8>>::empty());
            assert(lines_view(res.actual@) =~= Seq::<Seq<u8>>::empty());
        }
        res
    }
}

fn copy_line(line: &Vec<u8>) -> (res: Vec<u8>)
    ensures
        res@ == line@,
{
    let res = line.clone();
    proof {
        assert(res@ =~= line@);
    }
    res
}

/// The state of the grouping loop, seen as a [`DiffState`].
pub open spec fn state_view(results: Seq<Mismatch>, current: Mismatch, lne: usize, lna: usize) -> DiffState {
    DiffState {
        results: mismatches_view(results),
        current: current@,
        next_expected: lne as nat,
        next_actual: lna as nat,
    }
}

proof fn lemma_push_line(v: Seq<Vec<u8>>, l: Vec<u8>)
    ensures
        lines_view(v.push(l)) == lines_view(v).push(l@),
{
    assert(lines_view(v.push(l)) =~= lines_view(v).push(l@));
}

proof fn lemma_push_mismatch(v: Seq<Mismatch>, m: Mismatch)
    ensures
        mismatches_view(v.push(m)) == mismatches_view(v).push(m@),
{
    assert(mismatches_view(v.push(m)) =~= mismatches_view(v).push(m@));
}

/// Groups an edit script into hunks. `expected_lines_count` and
/// `actual_lines_count` are the numbers of newline-terminated lines on
/// each side.
pub fn hunks_from_edits(
    edits: &Vec<LineEdit>,
    expected_lines_count: usize,
    actual_lines_count: usize,
) -> (res: Vec<Mismatch>)
    requires
        edits.len() < usize::MAX,
    ensures
        mismatches_view(res@) == hunks_of(
            edits_view(edits@),
            expected_lines_count as nat,
            actual_lines_count as nat,
        ),
{
    let ghost ec = expected_lines_count as nat;
    let ghost ac = actual_lines_count as nat;
    let ghost ev = edits_view(edits@);
    let mut line_number_expected: usize = 1;
    let mut line_number_actual: usize = 1;
    let mut results: Vec<Mismatch> = Vec::new();
    let mut mismatch = Mismatch::new(line_number_expected, line_number_actual);
    proof {
        assert(mismatches_view(results@) =~= Seq::<MismatchView>::empty());
        assert(ev.take(0) =~= Seq::<EditView>::empty());
    }
    let n = edits.len();
    for k in 0..n
        invariant
            n == edits.len(),
            n < usize::MAX,
            ev == edits_view(edits@),
            ec == expected_lines_count as nat,
            ac == actual_lines_count as nat,
            line_number_expected <= k + 1,
            line_number_actual <= k + 1,
            state_view(results@, mismatch, line_number_expected, line_number_actual)
                == run(ev.take(k as int), ec, ac),
    {
        let ghost s = state_view(results@, mismatch, line_number_expected, line_number_actual);
        proof {
            assert(ev.take(k + 1).drop_last() =~= ev.take(k as int));
            assert(ev.take(k + 1).last() == edits@[k as int]@);
        }
        match &edits[k] {
            LineEdit::Left(l) => {
                if !mismatch.actual.is_empty() && !mismatch.actual_missing_nl {
                    proof {
                        lemma_push_mismatch(results@, mismatch);
                    }
                    results.push(mismatch);
                    mismatch = Mismatch::new(line_number_expected, line_number_actual);
                }
                let line = copy_line(l);
                proof {
                    lemma_push_line(mismatch.expected@, line);
                }
                mismatch.expected.push(line);
                mismatch.expected_missing_nl = line_number_expected > expected_lines_count;
                line_number_expected = line_number_expected + 1;
            },
            LineEdit::Right(r) => {
                let line = copy_line(r);
                proof {
                    lemma_push_line(mismatch.actual@, line);
                }
                mismatch.actual.push(line);
                mismatch.actual_missing_nl = line_number_actual > actual_lines_count;
                line_number_actual = line_number_actual + 1;
            },
            LineEdit::Both(l, _) => {
                let past_e = line_number_expected > expected_lines_count;
                let past_a = line_number_actual > actual_lines_count;
                if past_e && !past_a {
                    line_number_expected = line_number_expected + 1;
                    line_number_actual = line_number_actual + 1;
                    let le = copy_line(l);
                    let la = copy_line(l);
                    proof {
                        lemma_push_line(mismatch.expected@, le);
                        lemma_push_line(mismatch.actual@, la);
                    }
                    mismatch.expected.push(le);
                    mismatch.expected_missing_nl = true;
                    mismatch.actual.push(la);
                } else if !past_e && past_a {
                    line_number_expected = line_number_expected + 1;
                    line_number_actual = line_number_actual + 1;
                    let la = copy_line(l);
                    let le = copy_line(l);
                    proof {
                        lemma_push_line(mismatch.expected@, le);
                        lemma_push_line(mismatch.actual@, la);
                    }
                    mismatch.actual.push(la);
                    mismatch.actual_missing_nl = true;
                    mismatch.expected.push(le);
                } else {
                    line_number_expected = line_number_expected + 1;
                    line_number_actual = line_number_actual + 1;
                    if !mismatch.actual.is_empty() || !mismatch.expected.is_empty() {
                        proof {
                            lemma_push_mismatch(results@, mismatch);
                        }
                        results.push(mismatch);
                        mismatch = Mismatch::new(line_number_expected, line_number_actual);
                    } else {
                        mismatch.line_number_expected = line_number_expected;
                        mismatch.line_number_actual = line_number_actual;
                    }
                }
            },
        }
        proof {
            assert(state_view(results@, mismatch, line_number_expected, line_number_actual)
                == step(s, ev[k as int], ec, ac));
        }
    }
    proof {
        assert(ev.take(n as int) =~= ev);
    }
    if !mismatch.actual.is_empty() || !mismatch.expected.is_empty() {
        proof {
            lemma_push_mismatch(results@, mismatch);
        }
        results.push(mismatch);
    }
    results
}

} // verus!
