use vstd::prelude::*;
use crate::lines::{
    lines_of, newline_count, file_records, split_lines, lines_view, lemma_lines_of_len,
    lemma_file_records_concat, lemma_lines_no_nl, no_nl,
};
use crate::edits::{
    EditView, lcs_diff, lcs_edits, lcs_table_fits, edits_view, lemma_edits_len, keeps_all, both_equal,
};
use crate::hunks::{
    Mismatch, MismatchView, hunks_of, mismatches_view, hunks_from_edits, run, is_nonempty,
};
use crate::patch::{
    patch_law, lemma_hunks_patch, hunk_fits, apply_patch, hunks_in, hunk_in, start_e, start_a, end_e,
    hunk_expected_records,
};
use crate::read::{read_hunks, readable, lemma_read_hunks, patch_bytes, hunks_apply};
use vstd::seq_lib::lemma_concat_associative;

verus! {

/// The hunks of the diff between two buffers: their lines compared by the
/// `diff` crate, and the edit script grouped into hunks.
pub open spec fn diff_hunks(expected: Seq<u8>, actual: Seq<u8>) -> Seq<MismatchView> {
    hunks_of(
        lcs_diff(lines_of(expected), lines_of(actual)),
        newline_count(expected),
        newline_count(actual),
    )
}

/// A script that keeps every line, between sides with as many terminated
/// lines, opens no hunk.
proof fn lemma_keep_all_run(es: Seq<EditView>, ec: nat)
    requires
        keeps_all(es),
    ensures
        run(es, ec, ec).results.len() == 0,
        !is_nonempty(run(es, ec, ec).current),
        run(es, ec, ec).next_expected == run(es, ec, ec).next_actual,
    decreases es.len(),
{
    if es.len() > 0 {
        let es0 = es.drop_last();
        assert forall|k: int| 0 <= k < es0.len() implies #[trigger] es0[k] is Both by {
            assert(es0[k] == es[k]);
        }
        lemma_keep_all_run(es0, ec);
        assert(es[es.len() - 1] is Both);
    }
}

/// With no hunk, patching changes nothing: the buffers were equal.
proof fn lemma_no_hunks_equal(e: Seq<u8>, a: Seq<u8>, hs: Seq<MismatchView>)
    requires
        patch_law(file_records(e), file_records(a), hs),
        hs.len() == 0,
    ensures
        e == a,
{
    let er = file_records(e);
    assert(apply_patch(er, hs) == er.subrange(0, er.len() as int));
    assert(er.subrange(0, er.len() as int) =~= er);
    lemma_file_records_concat(e);
    lemma_file_records_concat(a);
}

/// Equal buffers have no hunk.
proof fn lemma_equal_no_hunks(e: Seq<u8>)
    requires
        keeps_all(lcs_diff(lines_of(e), lines_of(e))),
    ensures
        diff_hunks(e, e).len() == 0,
{
    lemma_keep_all_run(lcs_diff(lines_of(e), lines_of(e)), newline_count(e));
}

/// Each rendered hunk takes at least one byte.
proof fn lemma_render_len(hs: Seq<MismatchView>)
    ensures
        render(hs).len() >= hs.len(),
    decreases hs.len(),
{
    if hs.len() > 0 {
        lemma_render_len(hs.drop_last());
        reveal(render_hunk);
        assert(hunk_header(hs.last()).len() >= 1);
    }
}

/// The hunks of a diff between two buffers read back from their rendering.
proof fn lemma_hunks_readable(e: Seq<u8>, a: Seq<u8>, hs: Seq<MismatchView>)
    requires
        patch_law(file_records(e), file_records(a), hs),
        hunks_in(lines_of(e), lines_of(a), newline_count(e), newline_count(a), hs),
    ensures
        forall|k: int| 0 <= k < hs.len() ==> readable(#[trigger] hs[k]),
{
    let el = lines_of(e);
    let al = lines_of(a);
    lemma_lines_no_nl(e);
    lemma_lines_no_nl(a);
    assert forall|k: int| 0 <= k < hs.len() implies readable(#[trigger] hs[k]) by {
        let h = hs[k];
        assert(hunk_in(el, al, newline_count(e), newline_count(a), h));
        assert(is_nonempty(h));
        assert forall|t: int| 0 <= t < h.expected.len() implies no_nl(#[trigger] h.expected[t]) by {
            assert(h.expected[t] == el[start_e(h) + t]);
        }
        assert forall|t: int| 0 <= t < h.actual.len() implies no_nl(#[trigger] h.actual[t]) by {
            assert(h.actual[t] == al[start_a(h) + t]);
        }
    }
}

/// The hunks of the diff that turns `expected` into `actual`.
/// Patching the lines of `expected` with them gives the lines of `actual`;
/// each hunk's lines are the buffers' lines at its line numbers; there is no
/// hunk exactly when the buffers are equal. The first `requires` holds of
/// any two slices in memory; the second is where the `diff` crate's table
/// fits in memory's address range.
pub fn make_diff(expected: &[u8], actual: &[u8]) -> (res: Vec<Mismatch>)
    requires
        expected.len() + actual.len() < usize::MAX,
        lcs_table_fits(lines_of(expected@), lines_of(actual@)),
    ensures
        mismatches_view(res@) == diff_hunks(expected@, actual@),
        patch_law(file_records(expected@), file_records(actual@), mismatches_view(res@)),
        hunks_in(
            lines_of(expected@),
            lines_of(actual@),
            newline_count(expected@),
            newline_count(actual@),
            mismatches_view(res@),
        ),
        res@.len() == 0 <==> expected@ == actual@,
{
    let (expected_lines, expected_lines_count) = split_lines(expected);
    let (actual_lines, actual_lines_count) = split_lines(actual);
    let edits = lcs_edits(expected_lines.as_slice(), actual_lines.as_slice());
    proof {
        lemma_lines_of_len(expected@);
        lemma_lines_of_len(actual@);
        lemma_edits_len(edits_view(edits@));
        lemma_hunks_patch(
            edits_view(edits@),
            lines_of(expected@),
            lines_of(actual@),
            newline_count(expected@),
            newline_count(actual@),
        );
        if expected@ == actual@ {
            lemma_equal_no_hunks(expected@);
        }
    }
    let res = hunks_from_edits(&edits, expected_lines_count, actual_lines_count);
    proof {
        if res@.len() == 0 {
            lemma_no_hunks_equal(expected@, actual@, mismatches_view(res@));
        }
    }
    res
}

/// The ASCII digit for `d < 10`.
pub open spec fn digit(d: nat) -> u8 {
    (48 + d) as u8
}

/// The decimal digits of `n`, most significant first, with no leading zero.
pub open spec fn decimal(n: nat) -> Seq<u8>
    decreases n,
{
    if n < 10 {
        seq![digit(n)]
    } else {
        decimal(n / 10).push(digit(n % 10))
    }
}

/// The line that marks, in a diff, that the line before it has no newline:
/// `\ No newline at end of file`.
pub open spec fn no_newline_note() -> Seq<u8> {
    seq![
        92u8, 32, 78, 111, 32, 110, 101, 119, 108, 105, 110, 101, 32, 97, 116, 32, 101, 110,
        100, 32, 111, 102, 32, 102, 105, 108, 101, 10,
    ]
}

/// The separator line `---` between removed and added lines.
pub open spec fn separator() -> Seq<u8> {
    seq![45u8, 45, 45, 10]
}

/// The command line of a hunk: `La{R1},{R2}` when it only adds lines after
/// expected line `L`, `{L1},{L2}dR` when it only removes lines (which would
/// come after actual line `R`), and `{L1},{L2}c{R1},{R2}` when it changes
/// lines; the ranges are inclusive and count from 1.
pub open spec fn hunk_header(h: MismatchView) -> Seq<u8> {
    let n = h.expected.len();
    let m = h.actual.len();
    let lne = h.line_number_expected;
    let lna = h.line_number_actual;
    if n == 0 {
        decimal((lne - 1) as nat) + seq![97u8] + decimal(lna) + seq![44u8] + decimal(
            (lna + m - 1) as nat,
        ) + seq![10u8]
    } else if m == 0 {
        decimal(lne) + seq![44u8] + decimal((n + lne - 1) as nat) + seq![100u8] + decimal(
            (lna - 1) as nat,
        ) + seq![10u8]
    } else {
        decimal(lne) + seq![44u8] + decimal((n + lne - 1) as nat) + seq![99u8] + decimal(lna)
            + seq![44u8] + decimal((m + lna - 1) as nat) + seq![10u8]
    }
}

/// Each line after the marker byte and a space, and ended by a newline.
pub open spec fn quoted(lines: Seq<Seq<u8>>, marker: u8) -> Seq<u8>
    decreases lines.len(),
{
    if lines.len() == 0 {
        Seq::empty()
    } else {
        quoted(lines.drop_last(), marker) + seq![marker, 32u8] + lines.last() + seq![10u8]
    }
}

/// A hunk in normal diff format: the command line, the removed lines after
/// `< `, the separator `---` when lines are both removed and added, the
/// added lines after `> `, each run followed by the no-newline note when
/// its last line has no newline.
#[verifier::opaque]
pub open spec fn render_hunk(h: MismatchView) -> Seq<u8> {
    hunk_header(h) + quoted(h.expected, 60u8) + (if h.expected_missing_nl {
        no_newline_note()
    } else {
        Seq::empty()
    }) + (if h.expected.len() != 0 && h.actual.len() != 0 {
        separator()
    } else {
        Seq::empty()
    }) + quoted(h.actual, 62u8) + (if h.actual_missing_nl {
        no_newline_note()
    } else {
        Seq::empty()
    })
}

/// The hunks in normal diff format, one after the other.
pub open spec fn render(hs: Seq<MismatchView>) -> Seq<u8>
    decreases hs.len(),
{
    if hs.len() == 0 {
        Seq::empty()
    } else {
        render(hs.drop_last()) + render_hunk(hs.last())
    }
}

fn write_decimal(output: &mut Vec<u8>, n: usize)
    ensures
        final(output)@ == old(output)@ + decimal(n as nat),
    decreases n,
{
    if n >= 10 {
        write_decimal(output, n / 10);
    }
    let d: u8 = (n % 10) as u8;
    output.push(48u8 + d);
    proof {
        assert(final(output)@ =~= old(output)@ + decimal(n as nat));
    }
}

fn write_bytes(output: &mut Vec<u8>, bytes: &[u8])
    ensures
        final(output)@ == old(output)@ + bytes@,
{
    let n = bytes.len();
    for k in 0..n
        invariant
            n == bytes@.len(),
            output@ == old(output)@ + bytes@.take(k as int),
    {
        output.push(bytes[k]);
        proof {
            assert(output@ =~= old(output)@ + bytes@.take(k + 1));
        }
    }
    proof {
        assert(bytes@.take(n as int) =~= bytes@);
    }
}

fn write_no_newline_note(output: &mut Vec<u8>)
    ensures
        final(output)@ == old(output)@ + no_newline_note(),
{
    let note: Vec<u8> = vec![
        92u8, 32, 78, 111, 32, 110, 101, 119, 108, 105, 110, 101, 32, 97, 116, 32, 101, 110,
        100, 32, 111, 102, 32, 102, 105, 108, 101, 10,
    ];
    proof {
        assert(note@ =~= no_newline_note());
    }
    write_bytes(output, note.as_slice());
}

fn write_quoted(output: &mut Vec<u8>, lines: &Vec<Vec<u8>>, marker: u8)
    ensures
        final(output)@ == old(output)@ + quoted(lines_view(lines@), marker),
{
    let n = lines.len();
    for k in 0..n
        invariant
            n == lines@.len(),
            output@ == old(output)@ + quoted(lines_view(lines@).take(k as int), marker),
    {
        let ghost before = output@;
        output.push(marker);
        output.push(32u8);
        write_bytes(output, lines[k].as_slice());
        output.push(10u8);
        proof {
            let lv = lines_view(lines@);
            assert(lv.take(k + 1).drop_last() =~= lv.take(k as int));
            assert(output@ =~= old(output)@ + quoted(lv.take(k + 1), marker));
        }
    }
    proof {
        assert(lines_view(lines@).take(n as int) =~= lines_view(lines@));
    }
}

/// A hunk holds a line, and its line numbers and line ranges fit in a
/// `usize`.
pub open spec fn renderable(h: MismatchView) -> bool {
    &&& h.expected.len() > 0 || h.actual.len() > 0
    &&& h.line_number_expected >= 1
    &&& h.line_number_actual >= 1
    &&& h.line_number_expected + h.expected.len() <= usize::MAX
    &&& h.line_number_actual + h.actual.len() <= usize::MAX
}

fn push_decimal_then(out: &mut Vec<u8>, n: usize, b: u8)
    ensures
        final(out)@ == old(out)@ + decimal(n as nat) + seq![b],
{
    write_decimal(out, n);
    let ghost mid = out@;
    out.push(b);
    proof {
        assert(out@ =~= mid + seq![b]);
    }
}

fn write_header(output: &mut Vec<u8>, m: &Mismatch)
    requires
        renderable(m@),
    ensures
        final(output)@ == old(output)@ + hunk_header(m@),
{
    let ghost h = m@;
    let line_number_expected = m.line_number_expected;
    let line_number_actual = m.line_number_actual;
    let expected_count = m.expected.len();
    let actual_count = m.actual.len();
    let mut header: Vec<u8> = Vec::new();
    if expected_count == 0 {
        push_decimal_then(&mut header, line_number_expected - 1, 97u8);
        push_decimal_then(&mut header, line_number_actual, 44u8);
        push_decimal_then(&mut header, line_number_actual + actual_count - 1, 10u8);
        proof {
            let x1 = decimal((h.line_number_expected - 1) as nat) + seq![97u8];
            let x2 = decimal(h.line_number_actual) + seq![44u8];
            let x3 = decimal((h.line_number_actual + h.actual.len() - 1) as nat) + seq![10u8];
            assert(Seq::<u8>::empty() + x1 =~= x1);
            lemma_concat_associative(x1, decimal(h.line_number_actual), seq![44u8]);
            lemma_concat_associative(x1 + decimal(h.line_number_actual) + seq![44u8],
                decimal((h.line_number_actual + h.actual.len() - 1) as nat), seq![10u8]);
            lemma_concat_associative(x1, x2, x3);
        }
    } else if actual_count == 0 {
        push_decimal_then(&mut header, line_number_expected, 44u8);
        push_decimal_then(&mut header, expected_count + line_number_expected - 1, 100u8);
        push_decimal_then(&mut header, line_number_actual - 1, 10u8);
        proof {
            let x1 = decimal(h.line_number_expected) + seq![44u8];
            assert(Seq::<u8>::empty() + x1 =~= x1);
            lemma_concat_associative(x1, decimal((h.expected.len() + h.line_number_expected - 1) as nat), seq![100u8]);
            lemma_concat_associative(x1 + decimal((h.expected.len() + h.line_number_expected - 1) as nat) + seq![100u8],
                decimal((h.line_number_actual - 1) as nat), seq![10u8]);
        }
    } else {
        push_decimal_then(&mut header, line_number_expected, 44u8);
        push_decimal_then(&mut header, expected_count + line_number_expected - 1, 99u8);
        push_decimal_then(&mut header, line_number_actual, 44u8);
        push_decimal_then(&mut header, actual_count + line_number_actual - 1, 10u8);
        proof {
            let x1 = decimal(h.line_number_expected) + seq![44u8];
            let d2 = decimal((h.expected.len() + h.line_number_expected - 1) as nat);
            let d3 = decimal(h.line_number_actual);
            let d4 = decimal((h.actual.len() + h.line_number_actual - 1) as nat);
            assert(Seq::<u8>::empty() + x1 =~= x1);
            lemma_concat_associative(x1, d2, seq![99u8]);
            lemma_concat_associative(x1 + d2 + seq![99u8], d3, seq![44u8]);
            lemma_concat_associative(x1 + d2 + seq![99u8] + d3 + seq![44u8], d4, seq![10u8]);
        }
    }
    assert(header@ == hunk_header(h));
    write_bytes(output, header.as_slice());
}

fn write_mismatch(output: &mut Vec<u8>, m: &Mismatch)
    requires
        renderable(m@),
    ensures
        final(output)@ == old(output)@ + render_hunk(m@),
{
    let ghost h = m@;
    write_header(output, m);
    let ghost s1 = output@;
    write_quoted(output, &m.expected, 60u8);
    let ghost s2 = output@;
    if m.expected_missing_nl {
        write_no_newline_note(output);
    }
    let ghost s3 = output@;
    if m.expected.len() != 0 && m.actual.len() != 0 {
        output.push(45u8);
        output.push(45u8);
        output.push(45u8);
        output.push(10u8);
        proof {
            assert(output@ =~= s3 + separator());
        }
    }
    let ghost s4 = output@;
    write_quoted(output, &m.actual, 62u8);
    let ghost s5 = output@;
    if m.actual_missing_nl {
        write_no_newline_note(output);
    }
    proof {
        let r = old(output)@;
        let n1: Seq<u8> = if h.expected_missing_nl { no_newline_note() } else { Seq::empty() };
        let sp: Seq<u8> = if h.expected.len() != 0 && h.actual.len() != 0 {
            separator()
        } else {
            Seq::empty()
        };
        let n2: Seq<u8> = if h.actual_missing_nl { no_newline_note() } else { Seq::empty() };
        let x1 = hunk_header(h);
        let x2 = x1 + quoted(h.expected, 60u8);
        let x3 = x2 + n1;
        let x4 = x3 + sp;
        let x5 = x4 + quoted(h.actual, 62u8);
        let x6 = x5 + n2;
        if !h.expected_missing_nl {
            assert(s3 =~= s2 + n1);
        }
        if !(h.expected.len() != 0 && h.actual.len() != 0) {
            assert(s4 =~= s3 + sp);
        }
        if !h.actual_missing_nl {
            assert(output@ =~= s5 + n2);
        }
        lemma_concat_associative(r, x1, quoted(h.expected, 60u8));
        lemma_concat_associative(r, x2, n1);
        lemma_concat_associative(r, x3, sp);
        lemma_concat_associative(r, x4, quoted(h.actual, 62u8));
        lemma_concat_associative(r, x5, n2);
        reveal(render_hunk);
        assert(render_hunk(h) == x6);
    }
}

/// The diff that turns `expected` into `actual`, in the normal format of
/// `diff` and `patch`: `render` of the hunks of `make_diff`. Read back as
/// `patch` reads it, it gives those hunks, and patching `expected` with it
/// gives `actual`. It is empty exactly when the buffers are equal.
pub fn diff(expected: &[u8], actual: &[u8]) -> (res: Vec<u8>)
    requires
        expected.len() + actual.len() < usize::MAX,
        lcs_table_fits(lines_of(expected@), lines_of(actual@)),
    ensures
        res@ == render(diff_hunks(expected@, actual@)),
        patch_law(file_records(expected@), file_records(actual@), diff_hunks(expected@, actual@)),
        read_hunks(res@, 0) == Some(diff_hunks(expected@, actual@)),
        patch_bytes(expected@, res@) == Some(actual@),
        res@.len() == 0 <==> expected@ == actual@,
{
    let mut output: Vec<u8> = Vec::new();
    let diff_results = make_diff(expected, actual);
    let ghost hs = mismatches_view(diff_results@);
    proof {
        lemma_lines_of_len(expected@);
        lemma_lines_of_len(actual@);
        assert(output@ =~= render(hs.take(0)));
        let e = file_records(expected@);
        let a = file_records(actual@);
        assert forall|i: int| 0 <= i < hs.len() implies renderable(#[trigger] hs[i]) by {
            assert(hunk_fits(e, a, hs[i]));
        }
    }
    let n = diff_results.len();
    for k in 0..n
        invariant
            n == diff_results@.len(),
            hs == mismatches_view(diff_results@),
            forall|i: int| 0 <= i < hs.len() ==> renderable(#[trigger] hs[i]),
            output@ == render(hs.take(k as int)),
    {
        let m = &diff_results[k];
        proof {
            assert(hs[k as int] == m@);
            assert(hs.take(k + 1).drop_last() =~= hs.take(k as int));
        }
        write_mismatch(&mut output, m);
    }
    proof {
        assert(hs.take(n as int) =~= hs);
        lemma_render_len(hs);
        assert(diff_results@.len() == hs.len());
        lemma_hunks_readable(expected@, actual@, hs);
        assert(output@.subrange(0, output@.len() as int) =~= output@);
        lemma_read_hunks(output@, 0, hs);
        let er = file_records(expected@);
        let ar = file_records(actual@);
        assert forall|i: int| 0 <= i < hs.len() implies {
            &&& (#[trigger] hs[i]).line_number_expected >= 1
            &&& end_e(hs[i]) <= er.len()
            &&& er.subrange(start_e(hs[i]), end_e(hs[i])) == hunk_expected_records(hs[i])
        } by {
            assert(hunk_fits(er, ar, hs[i]));
        }
        assert(hunks_apply(er, hs));
        lemma_file_records_concat(actual@);
    }
    output
}

} // verus!
