//! The piece table's building blocks: a piece names consecutive logical
//! lines either of the original file or of the edit buffer; the document is
//! the concatenation, piece by piece, of the lines the pieces name.

use vstd::prelude::*;
use crate::text::{line_start, render_line};

verus! {

#[derive(Clone, Copy)]
pub enum Piece {
    Original { start_line: usize, line_count: usize },
    Memory { start_idx: usize, line_count: usize },
}

impl Piece {
    pub open spec fn count(self) -> nat {
        match self {
            Piece::Original { line_count, .. } => line_count as nat,
            Piece::Memory { line_count, .. } => line_count as nat,
        }
    }

    pub fn line_count(&self) -> (r: usize)
        ensures
            r as nat == self.count(),
    {
        match self {
            Piece::Original { line_count, .. } => *line_count,
            Piece::Memory { line_count, .. } => *line_count,
        }
    }
}

/// A piece stays within the original's lines or the edit buffer's entries,
/// and is never empty.
pub open spec fn piece_ok(p: Piece, orig_lines: nat, mem_len: nat) -> bool {
    match p {
        Piece::Original { start_line, line_count } => line_count >= 1 && start_line + line_count
            <= orig_lines,
        Piece::Memory { start_idx, line_count } => line_count >= 1 && start_idx + line_count
            <= mem_len,
    }
}

/// The logical line count of a piece sequence.
pub open spec fn pieces_total(ps: Seq<Piece>) -> nat
    decreases ps.len(),
{
    if ps.len() == 0 {
        0
    } else {
        ps[0].count() + pieces_total(ps.drop_first())
    }
}

/// One original line, with its terminator as it stands in the original.
pub open spec fn orig_line(s: Seq<u8>, l: int) -> Seq<u8> {
    s.subrange(line_start(s, l), line_start(s, l + 1))
}

/// The lines a piece contributes to the document, each rendered with a
/// final LF.
pub open spec fn piece_doc(s: Seq<u8>, mem: Seq<Seq<u8>>, p: Piece) -> Seq<Seq<u8>> {
    match p {
        Piece::Original { start_line, line_count } => Seq::new(
            line_count as nat,
            |j: int| render_line(orig_line(s, start_line + j)),
        ),
        Piece::Memory { start_idx, line_count } => Seq::new(
            line_count as nat,
            |j: int| render_line(mem[start_idx + j]),
        ),
    }
}

/// The document of a piece sequence: every piece's lines, in order.
pub open spec fn doc_of(s: Seq<u8>, mem: Seq<Seq<u8>>, ps: Seq<Piece>) -> Seq<Seq<u8>>
    decreases ps.len(),
{
    if ps.len() == 0 {
        Seq::empty()
    } else {
        piece_doc(s, mem, ps[0]) + doc_of(s, mem, ps.drop_first())
    }
}

pub proof fn lemma_pt_concat(a: Seq<Piece>, b: Seq<Piece>)
    ensures
        pieces_total(a + b) == pieces_total(a) + pieces_total(b),
    decreases a.len(),
{
    if a.len() == 0 {
        assert(a + b =~= b);
    } else {
        lemma_pt_concat(a.drop_first(), b);
        assert((a + b).drop_first() =~= a.drop_first() + b);
        assert((a + b)[0] == a[0]);
    }
}

pub proof fn lemma_pt_take_skip(ps: Seq<Piece>, i: int)
    requires
        0 <= i <= ps.len(),
    ensures
        pieces_total(ps) == pieces_total(ps.take(i)) + pieces_total(ps.skip(i)),
{
    assert(ps =~= ps.take(i) + ps.skip(i));
    lemma_pt_concat(ps.take(i), ps.skip(i));
}

pub proof fn lemma_pt_singleton(p: Piece)
    ensures
        pieces_total(seq![p]) == p.count(),
{
    assert(seq![p].drop_first() =~= Seq::<Piece>::empty());
    assert(pieces_total(Seq::<Piece>::empty()) == 0);
    assert(seq![p][0] == p);
}

pub proof fn lemma_pt_take_succ(ps: Seq<Piece>, i: int)
    requires
        0 <= i < ps.len(),
    ensures
        pieces_total(ps.take(i + 1)) == pieces_total(ps.take(i)) + ps[i].count(),
{
    assert(ps.take(i + 1) =~= ps.take(i) + seq![ps[i]]);
    lemma_pt_concat(ps.take(i), seq![ps[i]]);
    lemma_pt_singleton(ps[i]);
}

pub proof fn lemma_doc_concat(s: Seq<u8>, mem: Seq<Seq<u8>>, a: Seq<Piece>, b: Seq<Piece>)
    ensures
        doc_of(s, mem, a + b) == doc_of(s, mem, a) + doc_of(s, mem, b),
    decreases a.len(),
{
    if a.len() == 0 {
        assert(a + b =~= b);
        assert(doc_of(s, mem, a) + doc_of(s, mem, b) =~= doc_of(s, mem, b));
    } else {
        lemma_doc_concat(s, mem, a.drop_first(), b);
        assert((a + b).drop_first() =~= a.drop_first() + b);
        assert((a + b)[0] == a[0]);
        assert(doc_of(s, mem, a + b) =~= doc_of(s, mem, a) + doc_of(s, mem, b));
    }
}

pub proof fn lemma_doc_take_skip(s: Seq<u8>, mem: Seq<Seq<u8>>, ps: Seq<Piece>, i: int)
    requires
        0 <= i <= ps.len(),
    ensures
        doc_of(s, mem, ps) == doc_of(s, mem, ps.take(i)) + doc_of(s, mem, ps.skip(i)),
{
    assert(ps =~= ps.take(i) + ps.skip(i));
    lemma_doc_concat(s, mem, ps.take(i), ps.skip(i));
}

pub proof fn lemma_doc_singleton(s: Seq<u8>, mem: Seq<Seq<u8>>, p: Piece)
    ensures
        doc_of(s, mem, seq![p]) == piece_doc(s, mem, p),
{
    assert(seq![p].drop_first() =~= Seq::<Piece>::empty());
    assert(doc_of(s, mem, Seq::<Piece>::empty()) == Seq::<Seq<u8>>::empty());
    assert(seq![p][0] == p);
    assert(doc_of(s, mem, seq![p]) =~= piece_doc(s, mem, p));
}

pub proof fn lemma_doc_len(s: Seq<u8>, mem: Seq<Seq<u8>>, ps: Seq<Piece>)
    ensures
        doc_of(s, mem, ps).len() == pieces_total(ps),
    decreases ps.len(),
{
    if ps.len() > 0 {
        lemma_doc_len(s, mem, ps.drop_first());
    }
}

/// Extending the edit buffer does not change the lines of pieces that only
/// reference its existing entries.
pub proof fn lemma_doc_mem_extend(
    s: Seq<u8>,
    mem1: Seq<Seq<u8>>,
    mem2: Seq<Seq<u8>>,
    ps: Seq<Piece>,
    orig_lines: nat,
)
    requires
        mem1.len() <= mem2.len(),
        forall|j: int| 0 <= j < mem1.len() ==> mem2[j] == mem1[j],
        forall|k: int| 0 <= k < ps.len() ==> piece_ok(#[trigger] ps[k], orig_lines, mem1.len()),
    ensures
        doc_of(s, mem2, ps) == doc_of(s, mem1, ps),
    decreases ps.len(),
{
    if ps.len() > 0 {
        assert(piece_ok(ps[0], orig_lines, mem1.len()));
        assert(piece_doc(s, mem2, ps[0]) =~= piece_doc(s, mem1, ps[0]));
        assert(forall|k: int|
            0 <= k < ps.drop_first().len() ==> piece_ok(
                #[trigger] ps.drop_first()[k],
                orig_lines,
                mem1.len(),
            ));
        lemma_doc_mem_extend(s, mem1, mem2, ps.drop_first(), orig_lines);
    }
}

} // verus!
