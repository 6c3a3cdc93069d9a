use vstd::prelude::*;
use crate::lines::{nl, no_nl};
use crate::normal::{
    decimal, digit, quoted, hunk_header, no_newline_note, separator, render_hunk, render,
};
use crate::hunks::{MismatchView, is_nonempty};
use crate::lines::{file_records, concat};
use crate::patch::{apply_patch, start_e, end_e, hunk_expected_records};

verus! {

/// An ASCII decimal digit.
pub open spec fn is_digit(x: u8) -> bool {
    48 <= x <= 57
}

/// The number that a run of decimal digits writes.
pub open spec fn digits_value(s: Seq<u8>) -> nat
    decreases s.len(),
{
    if s.len() == 0 {
        0
    } else {
        digits_value(s.drop_last()) * 10 + (s.last() - 48) as nat
    }
}

/// Where the run of digits that starts at `pos` ends.
pub open spec fn digit_run_end(b: Seq<u8>, pos: int) -> int
    decreases b.len() - pos,
{
    if 0 <= pos < b.len() && is_digit(b[pos]) {
        digit_run_end(b, pos + 1)
    } else {
        pos
    }
}

/// The number written at `pos` and the position after it, if a digit
/// stands there.
pub open spec fn read_number(b: Seq<u8>, pos: int) -> Option<(nat, int)> {
    let e = digit_run_end(b, pos);
    if pos < e {
        Some((digits_value(b.subrange(pos, e)), e))
    } else {
        None
    }
}

/// The number written at `pos`, when the byte `sep` follows it, and the
/// position after `sep`.
pub open spec fn read_number_then(b: Seq<u8>, pos: int, sep: u8) -> Option<(nat, int)> {
    match read_number(b, pos) {
        Some((v, e)) => if e < b.len() && b[e] == sep { Some((v, e + 1)) } else { None },
        None => None,
    }
}

proof fn lemma_decimal_digits(n: nat)
    ensures
        decimal(n).len() >= 1,
        forall|t: int| 0 <= t < decimal(n).len() ==> is_digit(#[trigger] decimal(n)[t]),
        digits_value(decimal(n)) == n,
    decreases n,
{
    let d = n % 10;
    assert(d < 10);
    assert(digit(d) as int == 48 + d);
    if n >= 10 {
        lemma_decimal_digits(n / 10);
        assert(decimal(n).drop_last() =~= decimal(n / 10));
        assert(decimal(n).last() == digit(d));
        assert((n / 10) * 10 + d == n);
        assert(digits_value(decimal(n)) == digits_value(decimal(n).drop_last()) * 10
            + (decimal(n).last() - 48) as nat);
    } else {
        assert(decimal(n) =~= seq![digit(n)]);
        assert(digits_value(decimal(n)) == digits_value(decimal(n).drop_last()) * 10
            + (decimal(n).last() - 48) as nat);
        assert(decimal(n).drop_last() =~= Seq::<u8>::empty());
        assert(d == n);
    }
}

proof fn lemma_digit_run_end(b: Seq<u8>, pos: int, end: int)
    requires
        0 <= pos <= end <= b.len(),
        forall|t: int| pos <= t < end ==> is_digit(#[trigger] b[t]),
        end == b.len() || !is_digit(b[end]),
    ensures
        digit_run_end(b, pos) == end,
    decreases end - pos,
{
    if pos < end {
        lemma_digit_run_end(b, pos + 1, end);
    }
}

/// Reading back a number written in decimal, followed by a byte that is no
/// digit.
proof fn lemma_read_number(b: Seq<u8>, pos: int, n: nat, sep: u8)
    requires
        0 <= pos,
        pos + decimal(n).len() < b.len(),
        b.subrange(pos, pos + decimal(n).len()) == decimal(n),
        b[pos + decimal(n).len()] == sep,
        !is_digit(sep),
    ensures
        read_number(b, pos) == Some((n, pos + decimal(n).len())),
        read_number_then(b, pos, sep) == Some((n, pos + decimal(n).len() + 1)),
{
    let k = decimal(n).len() as int;
    lemma_decimal_digits(n);
    assert forall|t: int| pos <= t < pos + k implies is_digit(#[trigger] b[t]) by {
        assert(b[t] == b.subrange(pos, pos + k)[t - pos]);
    }
    lemma_digit_run_end(b, pos, pos + k);
}

/// Where the line that starts at `pos` ends: the next newline, or the end.
pub open spec fn line_end(b: Seq<u8>, pos: int) -> int
    decreases b.len() - pos,
{
    if 0 <= pos < b.len() && b[pos] != nl() {
        line_end(b, pos + 1)
    } else {
        pos
    }
}

/// The line at `pos`, up to its newline, and the position after the newline.
pub open spec fn read_line(b: Seq<u8>, pos: int) -> Option<(Seq<u8>, int)> {
    let e = line_end(b, pos);
    if 0 <= pos && e < b.len() {
        Some((b.subrange(pos, e), e + 1))
    } else {
        None
    }
}

/// `count` lines, each after the marker byte and a space.
pub open spec fn read_quoted(b: Seq<u8>, pos: int, count: nat, marker: u8) -> Option<(Seq<Seq<u8>>, int)>
    decreases count,
{
    if count == 0 {
        Some((Seq::empty(), pos))
    } else if 0 <= pos && pos + 1 < b.len() && b[pos] == marker && b[pos + 1] == 32u8 {
        match read_line(b, pos + 2) {
            Some((l, p)) => match read_quoted(b, p, (count - 1) as nat, marker) {
                Some((rest, q)) => Some((seq![l] + rest, q)),
                None => None,
            },
            None => None,
        }
    } else {
        None
    }
}

/// A slice of `b` that reads `x + y` reads `x`, then `y`.
proof fn lemma_sub_split(b: Seq<u8>, pos: int, x: Seq<u8>, y: Seq<u8>)
    requires
        0 <= pos,
        pos + x.len() + y.len() <= b.len(),
        b.subrange(pos, pos + x.len() + y.len()) == x + y,
    ensures
        b.subrange(pos, pos + x.len()) == x,
        b.subrange(pos + x.len(), pos + x.len() + y.len()) == y,
{
    assert(b.subrange(pos, pos + x.len()) =~= (x + y).subrange(0, x.len() as int));
    assert(b.subrange(pos + x.len(), pos + x.len() + y.len()) =~= (x + y).subrange(
        x.len() as int,
        (x.len() + y.len()) as int,
    ));
    assert((x + y).subrange(0, x.len() as int) =~= x);
    assert((x + y).subrange(x.len() as int, (x.len() + y.len()) as int) =~= y);
}

proof fn lemma_line_end(b: Seq<u8>, pos: int, end: int)
    requires
        0 <= pos <= end < b.len(),
        forall|t: int| pos <= t < end ==> #[trigger] b[t] != nl(),
        b[end] == nl(),
    ensures
        line_end(b, pos) == end,
    decreases end - pos,
{
    if pos < end {
        lemma_line_end(b, pos + 1, end);
    }
}

proof fn lemma_read_line(b: Seq<u8>, pos: int, line: Seq<u8>)
    requires
        0 <= pos,
        pos + line.len() < b.len(),
        b.subrange(pos, pos + line.len()) == line,
        b[pos + line.len()] == nl(),
        no_nl(line),
    ensures
        read_line(b, pos) == Some((line, pos + line.len() + 1)),
{
    assert forall|t: int| pos <= t < pos + line.len() implies #[trigger] b[t] != nl() by {
        assert(b[t] == line[t - pos]);
    }
    lemma_line_end(b, pos, pos + line.len());
}

/// Quoted lines, the first one apart.
proof fn lemma_quoted_front(lines: Seq<Seq<u8>>, marker: u8)
    requires
        lines.len() > 0,
    ensures
        quoted(lines, marker) == seq![marker, 32u8] + lines[0] + seq![10u8] + quoted(
            lines.drop_first(),
            marker,
        ),
    decreases lines.len(),
{
    if lines.len() == 1 {
        assert(lines.drop_first() =~= Seq::<Seq<u8>>::empty());
        assert(lines.drop_last() =~= Seq::<Seq<u8>>::empty());
        assert(quoted(lines.drop_last(), marker) == Seq::<u8>::empty());
        assert(quoted(lines.drop_first(), marker) == Seq::<u8>::empty());
        assert(lines.last() == lines[0]);
        assert(quoted(lines, marker) == Seq::<u8>::empty() + seq![marker, 32u8] + lines[0] + seq![10u8]);
        assert(quoted(lines, marker) =~= seq![marker, 32u8] + lines[0] + seq![10u8]);
    } else {
        let r = lines.drop_last();
        lemma_quoted_front(r, marker);
        assert(r.drop_first() =~= lines.drop_first().drop_last());
        assert(lines.drop_first().last() == lines.last());
        assert(quoted(lines, marker) =~= seq![marker, 32u8] + lines[0] + seq![10u8] + quoted(
            lines.drop_first(),
            marker,
        ));
    }
}

/// Reading back quoted lines that hold no newline.
proof fn lemma_read_quoted(b: Seq<u8>, pos: int, lines: Seq<Seq<u8>>, marker: u8)
    requires
        0 <= pos,
        pos + quoted(lines, marker).len() <= b.len(),
        b.subrange(pos, pos + quoted(lines, marker).len()) == quoted(lines, marker),
        forall|k: int| 0 <= k < lines.len() ==> no_nl(#[trigger] lines[k]),
    ensures
        read_quoted(b, pos, lines.len(), marker) == Some((lines, pos + quoted(lines, marker).len())),
    decreases lines.len(),
{
    if lines.len() == 0 {
        assert(read_quoted(b, pos, 0, marker) == Some((Seq::<Seq<u8>>::empty(), pos)));
        assert(lines =~= Seq::<Seq<u8>>::empty());
    } else {
        let l = lines[0];
        let rest = lines.drop_first();
        lemma_quoted_front(lines, marker);
        let x = seq![marker, 32u8] + l + seq![10u8];
        lemma_sub_split(b, pos, x, quoted(rest, marker));
        lemma_sub_split(b, pos, seq![marker, 32u8] + l, seq![10u8]);
        lemma_sub_split(b, pos, seq![marker, 32u8], l);
        assert(b[pos] == b.subrange(pos, pos + 2)[0]);
        assert(b[pos + 1] == b.subrange(pos, pos + 2)[1]);
        assert(b[pos + 2 + l.len()] == b.subrange(pos + 2 + l.len(), pos + 3 + l.len())[0]);
        assert(no_nl(lines[0]));
        lemma_read_line(b, pos + 2, l);
        assert forall|k: int| 0 <= k < rest.len() implies no_nl(#[trigger] rest[k]) by {
            assert(rest[k] == lines[k + 1]);
        }
        lemma_read_quoted(b, pos + x.len(), rest, marker);
        assert(seq![l] + rest =~= lines);
    }
}

/// The command line of a hunk: its line numbers and its numbers of
/// removed and added lines, and the position after the line.
pub open spec fn read_header(b: Seq<u8>, pos: int) -> Option<(nat, nat, nat, nat, int)> {
    match read_number(b, pos) {
        Some((x, p1)) => if p1 < b.len() && b[p1] == 97u8 {
            match read_number_then(b, p1 + 1, 44u8) {
                Some((r1, p2)) => match read_number_then(b, p2, 10u8) {
                    Some((r2, p3)) => Some((x + 1, r1, 0nat, (r2 + 1 - r1) as nat, p3)),
                    None => None,
                },
                None => None,
            }
        } else if p1 < b.len() && b[p1] == 44u8 {
            match read_number(b, p1 + 1) {
                Some((y, p2)) => if p2 < b.len() && b[p2] == 100u8 {
                    match read_number_then(b, p2 + 1, 10u8) {
                        Some((r, p3)) => Some((x, r + 1, (y + 1 - x) as nat, 0nat, p3)),
                        None => None,
                    }
                } else if p2 < b.len() && b[p2] == 99u8 {
                    match read_number_then(b, p2 + 1, 44u8) {
                        Some((r1, p3)) => match read_number_then(b, p3, 10u8) {
                            Some((r2, p4)) => Some(
                                (x, r1, (y + 1 - x) as nat, (r2 + 1 - r1) as nat, p4),
                            ),
                            None => None,
                        },
                        None => None,
                    }
                } else {
                    None
                },
                None => None,
            }
        } else {
            None
        },
        None => None,
    }
}

proof fn lemma_number_then(b: Seq<u8>, pos: int, n: nat, sep: u8)
    requires
        0 <= pos,
        pos + decimal(n).len() + 1 <= b.len(),
        b.subrange(pos, pos + decimal(n).len() + 1) == decimal(n) + seq![sep],
        !is_digit(sep),
    ensures
        read_number(b, pos) == Some((n, pos + decimal(n).len())),
        read_number_then(b, pos, sep) == Some((n, pos + decimal(n).len() + 1)),
{
    let k = decimal(n).len() as int;
    lemma_sub_split(b, pos, decimal(n), seq![sep]);
    assert(b[pos + k] == b.subrange(pos + k, pos + k + 1)[0]);
    lemma_read_number(b, pos, n, sep);
}

proof fn lemma_read_header_add(b: Seq<u8>, pos: int, h: MismatchView)
    requires
        0 <= pos,
        pos + hunk_header(h).len() <= b.len(),
        b.subrange(pos, pos + hunk_header(h).len()) == hunk_header(h),
        h.line_number_expected >= 1,
        h.line_number_actual >= 1,
        h.expected.len() == 0,
        h.actual.len() > 0,
    ensures
        read_header(b, pos) == Some(
            (h.line_number_expected, h.line_number_actual, 0nat, h.actual.len(), pos + hunk_header(h).len()),
        ),
{
    let m = h.actual.len();
    let lne = h.line_number_expected;
    let lna = h.line_number_actual;
    let a = decimal((lne - 1) as nat) + seq![97u8];
    let bb = decimal(lna) + seq![44u8];
    let c = decimal((lna + m - 1) as nat) + seq![10u8];
    assert(hunk_header(h) =~= a + bb + c);
    lemma_sub_split(b, pos, a + bb, c);
    lemma_sub_split(b, pos, a, bb);
    lemma_number_then(b, pos, (lne - 1) as nat, 97u8);
    lemma_number_then(b, pos + a.len(), lna, 44u8);
    lemma_number_then(b, pos + a.len() + bb.len(), (lna + m - 1) as nat, 10u8);
}

proof fn lemma_read_header_delete(b: Seq<u8>, pos: int, h: MismatchView)
    requires
        0 <= pos,
        pos + hunk_header(h).len() <= b.len(),
        b.subrange(pos, pos + hunk_header(h).len()) == hunk_header(h),
        h.line_number_expected >= 1,
        h.line_number_actual >= 1,
        h.expected.len() > 0,
        h.actual.len() == 0,
    ensures
        read_header(b, pos) == Some(
            (h.line_number_expected, h.line_number_actual, h.expected.len(), 0nat, pos + hunk_header(h).len()),
        ),
{
    let n = h.expected.len();
    let lne = h.line_number_expected;
    let lna = h.line_number_actual;
    let a = decimal(lne) + seq![44u8];
    let bb = decimal((n + lne - 1) as nat) + seq![100u8];
    let c = decimal((lna - 1) as nat) + seq![10u8];
    assert(hunk_header(h) =~= a + bb + c);
    lemma_sub_split(b, pos, a + bb, c);
    lemma_sub_split(b, pos, a, bb);
    lemma_number_then(b, pos, lne, 44u8);
    lemma_number_then(b, pos + a.len(), (n + lne - 1) as nat, 100u8);
    lemma_number_then(b, pos + a.len() + bb.len(), (lna - 1) as nat, 10u8);
}

proof fn lemma_read_header_change(b: Seq<u8>, pos: int, h: MismatchView)
    requires
        0 <= pos,
        pos + hunk_header(h).len() <= b.len(),
        b.subrange(pos, pos + hunk_header(h).len()) == hunk_header(h),
        h.line_number_expected >= 1,
        h.line_number_actual >= 1,
        h.expected.len() > 0,
        h.actual.len() > 0,
    ensures
        read_header(b, pos) == Some(
            (
                h.line_number_expected,
                h.line_number_actual,
                h.expected.len(),
                h.actual.len(),
                pos + hunk_header(h).len(),
            ),
        ),
{
    let n = h.expected.len();
    let m = h.actual.len();
    let lne = h.line_number_expected;
    let lna = h.line_number_actual;
    let a = decimal(lne) + seq![44u8];
    let bb = decimal((n + lne - 1) as nat) + seq![99u8];
    let c = decimal(lna) + seq![44u8];
    let d = decimal((m + lna - 1) as nat) + seq![10u8];
    assert(hunk_header(h) =~= a + bb + c + d);
    lemma_sub_split(b, pos, a + bb + c, d);
    lemma_sub_split(b, pos, a + bb, c);
    lemma_sub_split(b, pos, a, bb);
    lemma_number_then(b, pos, lne, 44u8);
    lemma_number_then(b, pos + a.len(), (n + lne - 1) as nat, 99u8);
    lemma_number_then(b, pos + a.len() + bb.len(), lna, 44u8);
    lemma_number_then(b, pos + a.len() + bb.len() + c.len(), (m + lna - 1) as nat, 10u8);
}

/// A note line (one that starts with a backslash) at `pos` is read as the
/// flag that the line before it has no newline.
pub open spec fn read_note(b: Seq<u8>, pos: int) -> (bool, int) {
    if 0 <= pos < b.len() && b[pos] == 92u8 {
        match read_line(b, pos) {
            Some((_, p)) => (true, p),
            None => (false, pos),
        }
    } else {
        (false, pos)
    }
}

/// One hunk in normal diff format, read at `pos`, and the position after it.
#[verifier::opaque]
pub open spec fn read_hunk(b: Seq<u8>, pos: int) -> Option<(MismatchView, int)> {
    match read_header(b, pos) {
        Some((lne, lna, n, m, p1)) => match read_quoted(b, p1, n, 60u8) {
            Some((el, p2)) => {
                let (fe, p3) = read_note(b, p2);
                let both = n > 0 && m > 0;
                let p4 = if both { p3 + 4 } else { p3 };
                if both && !(p3 + 4 <= b.len() && b.subrange(p3, p3 + 4) == separator()) {
                    None
                } else {
                    match read_quoted(b, p4, m, 62u8) {
                        Some((al, p5)) => {
                            let (fa, p6) = read_note(b, p5);
                            Some(
                                (
                                    MismatchView {
                                        line_number_expected: lne,
                                        line_number_actual: lna,
                                        expected: el,
                                        actual: al,
                                        expected_missing_nl: fe,
                                        actual_missing_nl: fa,
                                    },
                                    p6,
                                ),
                            )
                        },
                        None => None,
                    }
                }
            },
            None => None,
        },
        None => None,
    }
}

/// A hunk that reads back from its rendering: it holds a line, its line
/// numbers count from 1, a flag is only set on a run that holds a line, and
/// no line holds a newline.
pub open spec fn readable(h: MismatchView) -> bool {
    &&& h.line_number_expected >= 1
    &&& h.line_number_actual >= 1
    &&& is_nonempty(h)
    &&& h.expected_missing_nl ==> h.expected.len() > 0
    &&& h.actual_missing_nl ==> h.actual.len() > 0
    &&& forall|k: int| 0 <= k < h.expected.len() ==> no_nl(#[trigger] h.expected[k])
    &&& forall|k: int| 0 <= k < h.actual.len() ==> no_nl(#[trigger] h.actual[k])
}

proof fn lemma_read_note_present(b: Seq<u8>, pos: int)
    requires
        0 <= pos,
        pos + no_newline_note().len() <= b.len(),
        b.subrange(pos, pos + no_newline_note().len()) == no_newline_note(),
    ensures
        read_note(b, pos) == (true, pos + no_newline_note().len()),
{
    let note = no_newline_note();
    let line = note.take(27);
    assert(note =~= line + seq![10u8]);
    lemma_sub_split(b, pos, line, seq![10u8]);
    assert(b[pos] == b.subrange(pos, pos + 28)[0]);
    assert(b[pos + 27] == b.subrange(pos + 27, pos + 28)[0]);
    assert(no_nl(line));
    lemma_read_line(b, pos, line);
}

/// Reading back a hunk from its rendering, when what follows it is the end,
/// or the digit that starts the next hunk.
proof fn lemma_read_hunk(b: Seq<u8>, pos: int, h: MismatchView)
    requires
        readable(h),
        0 <= pos,
        pos + render_hunk(h).len() <= b.len(),
        b.subrange(pos, pos + render_hunk(h).len()) == render_hunk(h),
        pos + render_hunk(h).len() == b.len() || is_digit(b[pos + render_hunk(h).len()]),
    ensures
        read_hunk(b, pos) == Some((h, pos + render_hunk(h).len())),
{
    reveal(read_hunk);
    let n = h.expected.len();
    let m = h.actual.len();
    let hh = hunk_header(h);
    let q1 = quoted(h.expected, 60u8);
    let n1: Seq<u8> = if h.expected_missing_nl { no_newline_note() } else { Seq::empty() };
    let sp: Seq<u8> = if n != 0 && m != 0 { separator() } else { Seq::empty() };
    let q2 = quoted(h.actual, 62u8);
    let n2: Seq<u8> = if h.actual_missing_nl { no_newline_note() } else { Seq::empty() };
    assert(render_hunk(h) == hh + q1 + n1 + sp + q2 + n2) by {
        reveal(render_hunk);
    }
    lemma_sub_split(b, pos, hh + q1 + n1 + sp + q2, n2);
    lemma_sub_split(b, pos, hh + q1 + n1 + sp, q2);
    lemma_sub_split(b, pos, hh + q1 + n1, sp);
    lemma_sub_split(b, pos, hh + q1, n1);
    lemma_sub_split(b, pos, hh, q1);
    let p1 = pos + hh.len();
    let p2 = p1 + q1.len();
    let p3 = p2 + n1.len();
    let p4 = p3 + sp.len();
    let p5 = p4 + q2.len();
    let p6 = p5 + n2.len();
    if n == 0 {
        lemma_read_header_add(b, pos, h);
    } else if m == 0 {
        lemma_read_header_delete(b, pos, h);
    } else {
        lemma_read_header_change(b, pos, h);
    }
    lemma_read_quoted(b, p1, h.expected, 60u8);
    if h.expected_missing_nl {
        lemma_read_note_present(b, p2);
    } else if n != 0 && m != 0 {
        assert(b[p2] == b.subrange(p3, p3 + 4)[0]);
    } else if m != 0 {
        lemma_quoted_front(h.actual, 62u8);
        assert(b[p2] == b.subrange(p4, p5)[0]);
    } else {
        assert(p2 == p6);
    }
    lemma_read_quoted(b, p4, h.actual, 62u8);
    if h.actual_missing_nl {
        lemma_read_note_present(b, p5);
    }
    assert(read_quoted(b, p4, m, 62u8) == Some((h.actual, p5)));
}

/// The hunks of a diff in normal format, read from `pos` to the end.
pub open spec fn read_hunks(b: Seq<u8>, pos: int) -> Option<Seq<MismatchView>>
    decreases b.len() - pos,
{
    if pos >= b.len() {
        Some(Seq::empty())
    } else {
        match read_hunk(b, pos) {
            Some((h, p)) => if pos < p <= b.len() {
                match read_hunks(b, p) {
                    Some(rest) => Some(seq![h] + rest),
                    None => None,
                }
            } else {
                None
            },
            None => None,
        }
    }
}

/// Rendered hunks, the first one apart.
proof fn lemma_render_front(hs: Seq<MismatchView>)
    requires
        hs.len() > 0,
    ensures
        render(hs) == render_hunk(hs[0]) + render(hs.drop_first()),
    decreases hs.len(),
{
    if hs.len() == 1 {
        assert(hs.drop_first() =~= Seq::<MismatchView>::empty());
        assert(hs.drop_last() =~= Seq::<MismatchView>::empty());
        assert(render(hs.drop_last()) == Seq::<u8>::empty());
        assert(render(hs.drop_first()) == Seq::<u8>::empty());
        assert(render(hs) =~= render_hunk(hs[0]) + render(hs.drop_first()));
    } else {
        let r = hs.drop_last();
        lemma_render_front(r);
        assert(r.drop_first() =~= hs.drop_first().drop_last());
        assert(hs.drop_first().last() == hs.last());
        assert(render(hs) =~= render_hunk(hs[0]) + render(hs.drop_first()));
    }
}

/// A rendered hunk starts with a digit.
proof fn lemma_render_hunk_starts_with_digit(h: MismatchView)
    ensures
        render_hunk(h).len() > 0,
        is_digit(render_hunk(h)[0]),
{
    let n = h.expected.len();
    let m = h.actual.len();
    let first: nat = if n == 0 { (h.line_number_expected - 1) as nat } else { h.line_number_expected };
    lemma_decimal_digits(first);
    assert(hunk_header(h)[0] == decimal(first)[0]);
    assert(render_hunk(h).len() > 0 && render_hunk(h)[0] == hunk_header(h)[0]) by {
        reveal(render_hunk);
    }
}

/// Reading back rendered hunks gives them back.
pub proof fn lemma_read_hunks(b: Seq<u8>, pos: int, hs: Seq<MismatchView>)
    requires
        0 <= pos <= b.len(),
        b.subrange(pos, b.len() as int) == render(hs),
        forall|k: int| 0 <= k < hs.len() ==> readable(#[trigger] hs[k]),
    ensures
        read_hunks(b, pos) == Some(hs),
    decreases hs.len(),
{
    if hs.len() == 0 {
        assert(b.subrange(pos, b.len() as int).len() == 0);
        assert(hs =~= Seq::<MismatchView>::empty());
    } else {
        let h = hs[0];
        let rest = hs.drop_first();
        lemma_render_front(hs);
        let rh = render_hunk(h);
        assert(b.subrange(pos, b.len() as int) == rh + render(rest));
        lemma_sub_split(b, pos, rh, render(rest));
        lemma_render_hunk_starts_with_digit(h);
        let p = pos + rh.len();
        if rest.len() > 0 {
            lemma_render_front(rest);
            lemma_render_hunk_starts_with_digit(rest[0]);
            assert(b[p] == b.subrange(p, b.len() as int)[0]);
            assert(render(rest)[0] == render_hunk(rest[0])[0]);
        } else {
            assert(render(rest) == Seq::<u8>::empty());
        }
        assert(readable(hs[0]));
        lemma_read_hunk(b, pos, h);
        assert forall|k: int| 0 <= k < rest.len() implies readable(#[trigger] rest[k]) by {
            assert(rest[k] == hs[k + 1]);
        }
        lemma_read_hunks(b, p, rest);
        assert(seq![h] + rest =~= hs);
    }
}

/// The hunks can be applied to the lines `e`: each one's removed lines
/// stand in `e` at its expected line number, and they come in order.
pub open spec fn hunks_apply(e: Seq<Seq<u8>>, hs: Seq<MismatchView>) -> bool {
    &&& forall|k: int|
        0 <= k < hs.len() ==> {
            &&& (#[trigger] hs[k]).line_number_expected >= 1
            &&& end_e(hs[k]) <= e.len()
            &&& e.subrange(start_e(hs[k]), end_e(hs[k])) == hunk_expected_records(hs[k])
        }
    &&& forall|k: int| #![trigger hs[k]] 0 < k < hs.len() ==> end_e(hs[k - 1]) <= start_e(hs[k])
}

/// The buffer `e` patched with the diff `d` in normal format, as the
/// `patch` tool does: `d` read as hunks, each hunk's removed lines checked
/// against `e`, and replaced by its added lines. `None` when `d` does not
/// read as hunks or they do not apply.
pub open spec fn patch_bytes(e: Seq<u8>, d: Seq<u8>) -> Option<Seq<u8>> {
    match read_hunks(d, 0) {
        Some(hs) => if hunks_apply(file_records(e), hs) {
            Some(concat(apply_patch(file_records(e), hs)))
        } else {
            None
        },
        None => None,
    }
}

} // verus!
