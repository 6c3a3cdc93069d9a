use vstd::prelude::*;

verus! {

/// The newline byte.
pub open spec fn nl() -> u8 {
    10u8
}

/// The pieces between newline bytes, in order: a buffer with `n` newlines
/// has `n + 1` pieces (the last one empty when the buffer ends in a newline).
pub open spec fn pieces(f: Seq<u8>) -> Seq<Seq<u8>>
    decreases f.len(),
{
    if f.len() == 0 {
        seq![Seq::<u8>::empty()]
    } else {
        let p = pieces(f.drop_last());
        if f.last() == nl() {
            p.push(Seq::<u8>::empty())
        } else {
            p.update(p.len() - 1, p.last().push(f.last()))
        }
    }
}

/// The number of newline bytes in a buffer.
pub open spec fn newline_count(f: Seq<u8>) -> nat
    decreases f.len(),
{
    if f.len() == 0 {
        0
    } else {
        newline_count(f.drop_last()) + if f.last() == nl() { 1nat } else { 0nat }
    }
}

/// The lines of a buffer, without their newline bytes: the pieces, less a
/// trailing empty piece.
pub open spec fn lines_of(f: Seq<u8>) -> Seq<Seq<u8>> {
    let p = pieces(f);
    if p.last().len() == 0 {
        p.drop_last()
    } else {
        p
    }
}

/// The views of a vector of lines.
pub open spec fn lines_view(v: Seq<Vec<u8>>) -> Seq<Seq<u8>> {
    v.map_values(|l: Vec<u8>| l@)
}

/// Lines together with their line terminators: the first `terminated`
/// lines end in a newline, the others do not.
pub open spec fn line_records(lines: Seq<Seq<u8>>, terminated: nat) -> Seq<Seq<u8>> {
    Seq::new(lines.len(), |i: int| if i < terminated { lines[i].push(nl()) } else { lines[i] })
}

/// A buffer cut into its lines, each with the newline that ends it (the last
/// line has none when the buffer does not end in a newline).
pub open spec fn file_records(f: Seq<u8>) -> Seq<Seq<u8>> {
    line_records(lines_of(f), newline_count(f))
}

/// The concatenation of a sequence of byte strings.
pub open spec fn concat(s: Seq<Seq<u8>>) -> Seq<u8>
    decreases s.len(),
{
    if s.len() == 0 {
        Seq::<u8>::empty()
    } else {
        concat(s.drop_last()) + s.last()
    }
}

/// The pieces put back together, with a newline between each two of them.
pub open spec fn joined(p: Seq<Seq<u8>>) -> Seq<u8>
    decreases p.len(),
{
    if p.len() <= 1 {
        if p.len() == 1 { p[0] } else { Seq::<u8>::empty() }
    } else {
        joined(p.drop_last()).push(nl()) + p.last()
    }
}

/// Joining the pieces of a buffer with newlines gives the buffer back.
pub proof fn lemma_joined_pieces(f: Seq<u8>)
    ensures
        joined(pieces(f)) == f,
    decreases f.len(),
{
    if f.len() > 0 {
        let g = f.drop_last();
        let p = pieces(g);
        lemma_joined_pieces(g);
        lemma_pieces_len(g);
        assert(f =~= g.push(f.last()));
        if f.last() == nl() {
            assert(p.push(Seq::<u8>::empty()).drop_last() =~= p);
            assert(joined(pieces(f)) =~= g.push(nl()));
        } else {
            let q = p.update(p.len() - 1, p.last().push(f.last()));
            if p.len() == 1 {
                assert(joined(q) =~= f);
            } else {
                assert(q.drop_last() =~= p.drop_last());
                assert(joined(q) =~= joined(p).push(f.last()));
            }
        }
    }
}

/// Concatenating lines with their terminators: when all but the last are
/// terminated this is the lines joined with newlines; when all are, one
/// more newline follows.
pub proof fn lemma_concat_line_records(p: Seq<Seq<u8>>)
    requires
        p.len() >= 1,
    ensures
        concat(line_records(p, (p.len() - 1) as nat)) == joined(p),
        concat(line_records(p, p.len())) == joined(p).push(nl()),
    decreases p.len(),
{
    let r = p.drop_last();
    let a = line_records(p, (p.len() - 1) as nat);
    let b = line_records(p, p.len());
    assert(a.drop_last() =~= line_records(r, r.len()));
    assert(b.drop_last() =~= line_records(r, r.len()));
    if r.len() == 0 {
        assert(concat(line_records(r, r.len())) =~= Seq::<u8>::empty());
        assert(concat(a) =~= p[0]);
        assert(concat(b) =~= p[0].push(nl()));
    } else {
        lemma_concat_line_records(r);
        assert(concat(a) =~= joined(p));
        assert(concat(b) =~= joined(p).push(nl()));
    }
}

/// A buffer is the concatenation of its lines, each with its terminator.
pub proof fn lemma_file_records_concat(f: Seq<u8>)
    ensures
        concat(file_records(f)) == f,
{
    let p = pieces(f);
    lemma_pieces_len(f);
    lemma_joined_pieces(f);
    let ec = newline_count(f);
    if p.last().len() == 0 {
        let l = p.drop_last();
        if l.len() == 0 {
            assert(file_records(f) =~= Seq::<Seq<u8>>::empty());
            assert(p =~= seq![Seq::<u8>::empty()]);
        } else {
            lemma_concat_line_records(l);
            assert(p =~= l.push(p.last()));
            assert(joined(p) =~= joined(l).push(nl()));
        }
    } else {
        lemma_concat_line_records(p);
    }
}

/// A buffer has one more piece than it has newlines, and at least one piece.
pub proof fn lemma_pieces_len(f: Seq<u8>)
    ensures
        pieces(f).len() == newline_count(f) + 1,
    decreases f.len(),
{
    if f.len() > 0 {
        lemma_pieces_len(f.drop_last());
    }
}

/// Splits a buffer at its newline bytes. Returns its lines, without a
/// trailing empty one, and the number of newline bytes.
pub fn split_lines(bytes: &[u8]) -> (res: (Vec<Vec<u8>>, usize))
    ensures
        lines_view(res.0@) == lines_of(bytes@),
        res.1 == newline_count(bytes@),
{
    let mut lines: Vec<Vec<u8>> = Vec::new();
    let mut cur: Vec<u8> = Vec::new();
    let mut count: usize = 0;
    let n = bytes.len();
    for k in 0..n
        invariant
            n == bytes@.len(),
            lines_view(lines@).push(cur@) == pieces(bytes@.take(k as int)),
            count == newline_count(bytes@.take(k as int)),
            count <= k,
    {
        proof {
            assert(bytes@.take(k + 1).drop_last() =~= bytes@.take(k as int));
        }
        let b = bytes[k];
        if b == 10u8 {
            let ghost old_lines = lines@;
            lines.push(cur);
            cur = Vec::new();
            count = count + 1;
            proof {
                assert(lines_view(lines@) =~= lines_view(old_lines).push(lines@.last()@));
                assert(lines_view(lines@).push(cur@) =~= pieces(bytes@.take(k + 1)));
            }
        } else {
            let ghost old_cur = cur@;
            cur.push(b);
            proof {
                let p = pieces(bytes@.take(k as int));
                assert(lines_view(lines@).push(cur@) =~= p.update(p.len() - 1, p.last().push(b)));
            }
        }
    }
    proof {
        assert(bytes@.take(n as int) =~= bytes@);
    }
    if cur.len() > 0 {
        let ghost old_lines = lines@;
        lines.push(cur);
        proof {
            assert(lines_view(lines@) =~= lines_view(old_lines).push(lines@.last()@));
        }
    } else {
        proof {
            assert(lines_view(lines@) =~= lines_view(lines@).push(cur@).drop_last());
        }
    }
    (lines, count)
}

proof fn lemma_joined_len(p: Seq<Seq<u8>>)
    requires
        p.len() >= 1,
    ensures
        joined(p).len() >= p.len() - 1 + p.last().len(),
    decreases p.len(),
{
    if p.len() > 1 {
        lemma_joined_len(p.drop_last());
    }
}

/// A buffer has no more lines than bytes, and as many lines as newlines,
/// or one more.
pub proof fn lemma_lines_of_len(f: Seq<u8>)
    ensures
        lines_of(f).len() <= f.len(),
        newline_count(f) <= lines_of(f).len() <= newline_count(f) + 1,
{
    lemma_pieces_len(f);
    lemma_joined_pieces(f);
    lemma_joined_len(pieces(f));
}

/// A byte string holds no newline.
pub open spec fn no_nl(line: Seq<u8>) -> bool {
    forall|t: int| 0 <= t < line.len() ==> #[trigger] line[t] != nl()
}

proof fn lemma_pieces_no_nl(f: Seq<u8>)
    ensures
        forall|k: int| 0 <= k < pieces(f).len() ==> no_nl(#[trigger] pieces(f)[k]),
    decreases f.len(),
{
    if f.len() > 0 {
        let g = f.drop_last();
        let p = pieces(g);
        lemma_pieces_no_nl(g);
        lemma_pieces_len(g);
        if f.last() != nl() {
            let q = pieces(f);
            assert forall|k: int| 0 <= k < q.len() implies no_nl(#[trigger] q[k]) by {
                if k == p.len() - 1 {
                    assert(no_nl(p[k]));
                    assert(q[k] == p[k].push(f.last()));
                } else {
                    assert(q[k] == p[k]);
                }
            }
        } else {
            let q = pieces(f);
            assert forall|k: int| 0 <= k < q.len() implies no_nl(#[trigger] q[k]) by {
                if k < p.len() {
                    assert(q[k] == p[k]);
                }
            }
        }
    }
}

/// No line of a buffer holds a newline.
pub proof fn lemma_lines_no_nl(f: Seq<u8>)
    ensures
        forall|k: int| 0 <= k < lines_of(f).len() ==> no_nl(#[trigger] lines_of(f)[k]),
{
    lemma_pieces_no_nl(f);
    lemma_pieces_len(f);
    let p = pieces(f);
    assert forall|k: int| 0 <= k < lines_of(f).len() implies no_nl(#[trigger] lines_of(f)[k]) by {
        assert(lines_of(f)[k] == p[k]);
        assert(no_nl(p[k]));
    }
}

} // verus!
