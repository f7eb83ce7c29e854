//! Document-level laws of the engine, stated over the same spec functions
//! that the executable functions' contracts use.

use vstd::prelude::*;
use crate::block::block_from;
use crate::edit::rendered;
use crate::engine::LogEngine;
use crate::outside::lossy_of;
use crate::piece::{doc_of, lemma_doc_len, orig_line, piece_doc, piece_ok, pieces_total, Piece};
use crate::search::{bwd_from, fwd_from, mem_bwd, mem_fwd};
use crate::text::{
    first_match, last_match, lemma_first_match, lemma_last_match, lemma_line_start_bounds,
    lemma_line_start_monotone, lemma_occurs_subrange, lines_of_text, occurs_in,
    render_line,
};

verus! {

/// The sum of the pieces' line counts is the length of the document: what
/// `total_lines` returns counts exactly the document's lines, whatever edits
/// were applied.
pub proof fn law_total_is_document_length(e: LogEngine)
    ensures
        e.total() == e.doc().len(),
{
    lemma_doc_len(e.orig(), e.mem(), e.pieces@);
}

/// Extracting a single line yields exactly that line of the document,
/// rendered with its final LF: the block of one line matches a direct
/// render of the piece table at that index.
pub proof fn law_single_line_block(e: LogEngine, l: int)
    requires
        e.wf(),
        0 <= l < e.total(),
    ensures
        e.block_spec(l, 1) == e.doc()[l],
{
    lemma_doc_len(e.orig(), e.mem(), e.pieces@);
    lemma_block_single(e.orig(), e.mem(), e.pieces@, l, e.original_total_lines as nat, e.mem().len());
}

proof fn lemma_block_single(
    s: Seq<u8>,
    mem: Seq<Seq<u8>>,
    ps: Seq<Piece>,
    l: int,
    orig_lines: nat,
    mem_len: nat,
)
    requires
        0 <= l < pieces_total(ps),
        forall|k: int| 0 <= k < ps.len() ==> piece_ok(#[trigger] ps[k], orig_lines, mem_len),
    ensures
        block_from(s, mem, ps, l, 1) == doc_of(s, mem, ps)[l],
    decreases ps.len(),
{
    lemma_doc_len(s, mem, ps);
    assert(ps.len() > 0);
    let c = ps[0].count() as int;
    assert(piece_ok(ps[0], orig_lines, mem_len));
    lemma_doc_len(s, mem, ps.drop_first());
    if l >= c {
        assert(forall|k: int|
            0 <= k < ps.drop_first().len() ==> piece_ok(
                #[trigger] ps.drop_first()[k],
                orig_lines,
                mem_len,
            ));
        lemma_block_single(s, mem, ps.drop_first(), l - c, orig_lines, mem_len);
        assert(doc_of(s, mem, ps)[l] == doc_of(s, mem, ps.drop_first())[l - c]);
    } else {
        assert(block_from(s, mem, ps.drop_first(), 0, 0) == Seq::<u8>::empty());
        match ps[0] {
            Piece::Original { start_line, .. } => {
                assert(crate::block::seg_orig(s, start_line as int, l, 1) == render_line(
                    orig_line(s, start_line + l),
                ));
                assert(block_from(s, mem, ps, l, 1) =~= render_line(orig_line(s, start_line + l)));
                assert(doc_of(s, mem, ps)[l] == piece_doc(s, mem, ps[0])[l]);
            },
            Piece::Memory { start_idx, .. } => {
                assert(crate::block::seg_mem(mem, start_idx as int, l + 1, 0)
                    == Seq::<u8>::empty());
                assert(crate::block::seg_mem(mem, start_idx as int, l, 1) =~= render_line(
                    mem[start_idx + l],
                ));
                assert(block_from(s, mem, ps, l, 1) =~= render_line(mem[start_idx + l]));
                assert(doc_of(s, mem, ps)[l] == piece_doc(s, mem, ps[0])[l]);
            },
        }
    }
}

/// An edit that deletes no lines and inserts no text leaves the document
/// unchanged: the line sequence `apply_edit` promises for empty text and a
/// zero delete count is the old one.
pub proof fn law_empty_edit_is_noop(d: Seq<Seq<u8>>, l0: int)
    requires
        0 <= l0 <= d.len(),
    ensures
        d.take(l0) + rendered(lines_of_text(Seq::<u8>::empty())) + d.skip(l0) == d,
{
    assert(lines_of_text(Seq::<u8>::empty()) == Seq::<Seq<u8>>::empty());
    assert(rendered(Seq::<Seq<u8>>::empty()) =~= Seq::<Seq<u8>>::empty());
    assert(d.take(l0) + rendered(lines_of_text(Seq::<u8>::empty())) + d.skip(l0) =~= d);
}

/// A query that occurs nowhere — neither in the original's bytes nor (after
/// lossy decoding) in any edit-buffer line — is found by neither search,
/// from any starting line.
pub proof fn law_no_match(e: LogEngine, q: Seq<u8>, start: int, start_b: int)
    requires
        e.wf(),
        0 <= start,
        0 <= start_b,
        !occurs_in(e.orig(), q),
        forall|j: int| 0 <= j < e.mem().len() ==> !occurs_in(#[trigger] e.mem()[j], lossy_of(q)),
    ensures
        e.search_spec(q, start) is None,
        e.search_backward_spec(q, start_b) is None,
{
    if q.len() > 0 {
        lemma_fwd_none(e.orig(), e.mem(), e.pieces@, start, q, lossy_of(q), start,
            e.original_total_lines as nat);
        if e.total() > 0 {
            let st = if start_b < e.total() {
                start_b
            } else {
                e.total() - 1
            };
            lemma_bwd_none(e.orig(), e.mem(), e.pieces@, st, q, lossy_of(q),
                e.original_total_lines as nat);
        }
    }
}

proof fn lemma_mem_fwd_none(mem: Seq<Seq<u8>>, a: int, j: int, c: int, qm: Seq<u8>)
    requires
        0 <= a,
        0 <= j,
        a + c <= mem.len(),
        forall|k: int| 0 <= k < mem.len() ==> !occurs_in(#[trigger] mem[k], qm),
    ensures
        mem_fwd(mem, a, j, c, qm) is None,
    decreases c - j,
{
    if j < c {
        if 0 <= j {
            assert(!occurs_in(mem[a + j], qm));
        }
        lemma_mem_fwd_none(mem, a, j + 1, c, qm);
    }
}

proof fn lemma_mem_bwd_none(mem: Seq<Seq<u8>>, a: int, j: int, qm: Seq<u8>)
    requires
        0 <= a,
        0 <= j,
        a + j < mem.len(),
        forall|k: int| 0 <= k < mem.len() ==> !occurs_in(#[trigger] mem[k], qm),
    ensures
        mem_bwd(mem, a, j, qm) is None,
    decreases j,
{
    assert(!occurs_in(mem[a + j], qm));
    if j > 0 {
        lemma_mem_bwd_none(mem, a, j - 1, qm);
    }
}

proof fn lemma_span_no_match(s: Seq<u8>, q: Seq<u8>, a: int, b: int)
    requires
        0 <= a <= b <= s.len(),
        !occurs_in(s, q),
    ensures
        first_match(s.subrange(a, b), q) is None,
        last_match(s.subrange(a, b), q) is None,
{
    let span = s.subrange(a, b);
    lemma_first_match(span, q);
    lemma_last_match(span, q);
    if first_match(span, q) is Some {
        let i = first_match(span, q)->0;
        lemma_occurs_subrange(s, q, a, b, i);
        assert(occurs_in(s, q));
    }
    if last_match(span, q) is Some {
        let i = last_match(span, q)->0;
        lemma_occurs_subrange(s, q, a, b, i);
        assert(occurs_in(s, q));
    }
}

proof fn lemma_fwd_none(
    s: Seq<u8>,
    mem: Seq<Seq<u8>>,
    ps: Seq<Piece>,
    skip: int,
    q: Seq<u8>,
    qm: Seq<u8>,
    cur: int,
    orig_lines: nat,
)
    requires
        0 <= skip,
        !occurs_in(s, q),
        forall|k: int| 0 <= k < mem.len() ==> !occurs_in(#[trigger] mem[k], qm),
        forall|k: int| 0 <= k < ps.len() ==> piece_ok(#[trigger] ps[k], orig_lines, mem.len()),
    ensures
        fwd_from(s, mem, ps, skip, q, qm, cur) is None,
    decreases ps.len(),
{
    if ps.len() > 0 {
        assert(piece_ok(ps[0], orig_lines, mem.len()));
        assert(forall|k: int|
            0 <= k < ps.drop_first().len() ==> piece_ok(
                #[trigger] ps.drop_first()[k],
                orig_lines,
                mem.len(),
            ));
        let c = ps[0].count() as int;
        if skip >= c {
            lemma_fwd_none(s, mem, ps.drop_first(), skip - c, q, qm, cur, orig_lines);
        } else {
            match ps[0] {
                Piece::Original { start_line: a, .. } => {
                    lemma_line_start_bounds(s, a + skip);
                    lemma_line_start_bounds(s, a + c);
                    lemma_line_start_monotone(s, a + skip, a + c);
                    lemma_span_no_match(s, q, crate::text::line_start(s, a + skip),
                        crate::text::line_start(s, a + c));
                },
                Piece::Memory { start_idx: a, .. } => {
                    lemma_mem_fwd_none(mem, a as int, skip, c, qm);
                },
            }
            lemma_fwd_none(s, mem, ps.drop_first(), 0, q, qm, cur + c - skip, orig_lines);
        }
    }
}

proof fn lemma_bwd_none(
    s: Seq<u8>,
    mem: Seq<Seq<u8>>,
    ps: Seq<Piece>,
    l: int,
    q: Seq<u8>,
    qm: Seq<u8>,
    orig_lines: nat,
)
    requires
        !occurs_in(s, q),
        forall|k: int| 0 <= k < mem.len() ==> !occurs_in(#[trigger] mem[k], qm),
        forall|k: int| 0 <= k < ps.len() ==> piece_ok(#[trigger] ps[k], orig_lines, mem.len()),
        l < pieces_total(ps),
    ensures
        bwd_from(s, mem, ps, l, q, qm) is None,
    decreases ps.len(),
{
    if ps.len() > 0 {
        let rest = ps.drop_last();
        let before = pieces_total(rest) as int;
        assert(ps =~= rest.push(ps.last()));
        crate::piece::lemma_pt_concat(rest, seq![ps.last()]);
        assert(rest + seq![ps.last()] =~= ps);
        crate::piece::lemma_pt_singleton(ps.last());
        assert(forall|k: int|
            0 <= k < rest.len() ==> piece_ok(#[trigger] rest[k], orig_lines, mem.len()));
        assert(piece_ok(ps.last(), orig_lines, mem.len()));
        if l < before {
            lemma_bwd_none(s, mem, rest, l, q, qm, orig_lines);
        } else {
            let off = l - before;
            match ps.last() {
                Piece::Original { start_line: a, .. } => {
                    lemma_line_start_bounds(s, a as int);
                    lemma_line_start_bounds(s, a + off + 1);
                    lemma_line_start_monotone(s, a as int, a + off + 1);
                    lemma_span_no_match(s, q, crate::text::line_start(s, a as int),
                        crate::text::line_start(s, a + off + 1));
                },
                Piece::Memory { start_idx: a, .. } => {
                    lemma_mem_bwd_none(mem, a as int, off, qm);
                },
            }
            lemma_bwd_none(s, mem, rest, before - 1, q, qm, orig_lines);
        }
    }
}


/// No lone CR: every CR in the original is the first half of a CRLF pair.
pub open spec fn no_lone_cr(s: Seq<u8>) -> bool {
    forall|i: int| 0 <= i < s.len() && #[trigger] s[i] == crate::text::CR ==> i + 1 < s.len()
        && s[i + 1] == crate::text::LF
}

/// Extracting a range in one block equals concatenating its single-line
/// blocks, provided the original uses no lone-CR terminators (a lone CR line
/// rendered mid-block keeps its CR, while rendered alone it gains an LF).
pub proof fn law_block_concatenation(e: LogEngine, l: int, n: int)
    requires
        e.wf(),
        no_lone_cr(e.orig()),
        0 <= l,
        1 <= n,
        l + n <= e.total(),
    ensures
        e.block_spec(l, n) == e.block_spec(l, 1) + e.block_spec(l + 1, n - 1),
{
    lemma_block_split(e.orig(), e.mem(), e.pieces@, l, n, e.original_total_lines as nat,
        e.mem().len());
    if n == 1 {
        assert(e.block_spec(l + 1, 0) == Seq::<u8>::empty());
        assert(e.block_spec(l, 1) + Seq::<u8>::empty() =~= e.block_spec(l, 1));
    } else {
        crate::piece::lemma_doc_len(e.orig(), e.mem(), e.pieces@);
    }
}

/// A terminated line of an original with no lone CR ends with LF.
proof fn lemma_nls_prev_byte(s: Seq<u8>, i: int)
    requires
        0 <= i < s.len(),
        crate::text::term_count_from(s, i) > 0,
    ensures
        crate::text::next_line_start(s, i) <= s.len(),
        s[crate::text::next_line_start(s, i) - 1] == crate::text::LF || (s[
            crate::text::next_line_start(s, i) - 1] == crate::text::CR && (
        crate::text::next_line_start(s, i) == s.len() || s[crate::text::next_line_start(s, i)]
            != crate::text::LF)),
    decreases s.len() - i,
{
    crate::text::lemma_nls_bounds(s, i);
    if s[i] == crate::text::LF {
    } else if s[i] == crate::text::CR {
    } else {
        if i + 1 < s.len() {
            lemma_nls_prev_byte(s, i + 1);
        } else {
            assert(crate::text::term_count_from(s, i) == crate::text::term_count_from(s, i + 1));
            assert(false);
        }
    }
}

/// Splitting one original run at its first line: the first line carries its
/// own LF, so the raw concatenation renders piecewise.
proof fn lemma_seg_orig_split(s: Seq<u8>, a: int, off: int, take: int, orig_lines: nat)
    requires
        no_lone_cr(s),
        take >= 2,
        0 <= a,
        0 <= off,
        a + off + take <= orig_lines,
        orig_lines == crate::text::total_lines_of(s),
    ensures
        crate::block::seg_orig(s, a, off, take) == render_line(orig_line(s, a + off))
            + crate::block::seg_orig(s, a, off + 1, take - 1),
{
    let x = a + off;
    lemma_line_start_bounds(s, x);
    lemma_line_start_bounds(s, x + 1);
    lemma_line_start_bounds(s, x + take);
    lemma_line_start_monotone(s, x, x + 1);
    lemma_line_start_monotone(s, x + 1, x + take);
    crate::text::lemma_line_start_total(s, x);
    crate::text::lemma_line_start_total(s, x + 1);
    crate::text::lemma_nls_bounds(s, crate::text::line_start(s, x));
    let p0 = crate::text::line_start(s, x);
    let p1 = crate::text::line_start(s, x + 1);
    let p2 = crate::text::line_start(s, x + take);
    // line x is terminated: its successor's start is a real position
    assert(p1 < s.len());
    assert(crate::text::term_count_from(s, p0) > 0) by {
        if crate::text::term_count_from(s, p0) == 0 {
            lemma_tcf_zero_nls_local(s, p0);
        }
    }
    lemma_nls_prev_byte(s, p0);
    assert(s[p1 - 1] == crate::text::LF);
    lemma_line_start_monotone(s, x + 2, x + take);
    crate::text::lemma_nls_bounds(s, p1);
    assert(crate::text::line_start(s, x + 2) > p1);
    let raw0 = s.subrange(p0, p1);
    let rest = s.subrange(p1, p2);
    assert(s.subrange(p0, p2) =~= raw0 + rest);
    assert(raw0.len() > 0 && raw0.last() == crate::text::LF);
    assert(render_line(raw0) == raw0);
    assert(rest.len() > 0);
    let whole = raw0 + rest;
    assert(whole.len() > 0 && whole.last() == rest.last());
    assert(render_line(whole) =~= raw0 + render_line(rest));
    assert(crate::block::seg_orig(s, a, off, take) =~= render_line(orig_line(s, x))
        + crate::block::seg_orig(s, a, off + 1, take - 1));
}

proof fn lemma_tcf_zero_nls_local(s: Seq<u8>, i: int)
    requires
        0 <= i <= s.len(),
        crate::text::term_count_from(s, i) == 0,
    ensures
        crate::text::next_line_start(s, i) == s.len(),
    decreases s.len() - i,
{
    if i < s.len() {
        lemma_tcf_zero_nls_local(s, i + 1);
    }
}

/// A block of `n` lines is its first line's block followed by the block of
/// the remaining lines.
proof fn lemma_block_split(
    s: Seq<u8>,
    mem: Seq<Seq<u8>>,
    ps: Seq<Piece>,
    l: int,
    n: int,
    orig_lines: nat,
    mem_len: nat,
)
    requires
        no_lone_cr(s),
        orig_lines == crate::text::total_lines_of(s),
        0 <= l,
        1 <= n,
        l + n <= pieces_total(ps),
        forall|k: int| 0 <= k < ps.len() ==> piece_ok(#[trigger] ps[k], orig_lines, mem_len),
        mem_len == mem.len(),
    ensures
        block_from(s, mem, ps, l, n) == block_from(s, mem, ps, l, 1) + block_from(
            s,
            mem,
            ps,
            l + 1,
            n - 1,
        ),
    decreases ps.len(),
{
    assert(ps.len() > 0);
    let c = ps[0].count() as int;
    assert(piece_ok(ps[0], orig_lines, mem_len));
    let d = ps.drop_first();
    assert(forall|k: int| 0 <= k < d.len() ==> piece_ok(#[trigger] d[k], orig_lines, mem_len));
    if l >= c {
        lemma_block_split(s, mem, d, l - c, n, orig_lines, mem_len);
    } else {
        let take = if c - l <= n {
            c - l
        } else {
            n
        };
        assert(block_from(s, mem, d, 0, 0) == Seq::<u8>::empty());
        if n == 1 {
            assert(block_from(s, mem, ps, l + 1, 0) == Seq::<u8>::empty());
            assert(block_from(s, mem, ps, l, 1) + Seq::<u8>::empty() =~= block_from(
                s,
                mem,
                ps,
                l,
                1,
            ));
        } else if c - l == 1 {
            // the first line is the piece's last: both walks continue in the
            // next piece from its first line
            assert(block_from(s, mem, ps, l, n) == (match ps[0] {
                Piece::Original { start_line, .. } => crate::block::seg_orig(s, start_line as int,
                    l, 1),
                Piece::Memory { start_idx, .. } => crate::block::seg_mem(mem, start_idx as int, l,
                    1),
            }) + block_from(s, mem, d, 0, n - 1));
            assert(block_from(s, mem, ps, l + 1, n - 1) == block_from(s, mem, d, 0, n - 1));
            assert(block_from(s, mem, ps, l, 1) == (match ps[0] {
                Piece::Original { start_line, .. } => crate::block::seg_orig(s, start_line as int,
                    l, 1),
                Piece::Memory { start_idx, .. } => crate::block::seg_mem(mem, start_idx as int, l,
                    1),
            }) + Seq::<u8>::empty());
            assert(block_from(s, mem, ps, l, n) =~= block_from(s, mem, ps, l, 1) + block_from(
                s,
                mem,
                ps,
                l + 1,
                n - 1,
            ));
        } else {
            // take >= 2: the run splits at its first line
            match ps[0] {
                Piece::Original { start_line: a, .. } => {
                    lemma_seg_orig_split(s, a as int, l, take, orig_lines);
                    assert(crate::block::seg_orig(s, a as int, l, 1) == render_line(
                        orig_line(s, a + l),
                    ));
                },
                Piece::Memory { start_idx: a, .. } => {
                    assert(crate::block::seg_mem(mem, a as int, l, take) == render_line(
                        mem[a + l],
                    ) + crate::block::seg_mem(mem, a as int, l + 1, take - 1));
                    assert(crate::block::seg_mem(mem, a as int, l + 1, 0) == Seq::<u8>::empty());
                    assert(crate::block::seg_mem(mem, a as int, l, 1) =~= render_line(mem[a + l]));
                },
            }
            assert(block_from(s, mem, ps, l, n) == (match ps[0] {
                Piece::Original { start_line, .. } => crate::block::seg_orig(s, start_line as int,
                    l, take),
                Piece::Memory { start_idx, .. } => crate::block::seg_mem(mem, start_idx as int, l,
                    take),
            }) + block_from(s, mem, d, 0, n - take));
            assert(block_from(s, mem, ps, l + 1, n - 1) == (match ps[0] {
                Piece::Original { start_line, .. } => crate::block::seg_orig(s, start_line as int,
                    l + 1, take - 1),
                Piece::Memory { start_idx, .. } => crate::block::seg_mem(mem, start_idx as int, l
                    + 1, take - 1),
            }) + block_from(s, mem, d, 0, n - take));
            assert(block_from(s, mem, ps, l, 1) == (match ps[0] {
                Piece::Original { start_line, .. } => crate::block::seg_orig(s, start_line as int,
                    l, 1),
                Piece::Memory { start_idx, .. } => crate::block::seg_mem(mem, start_idx as int, l,
                    1),
            }) + Seq::<u8>::empty());
            assert(block_from(s, mem, ps, l, n) =~= block_from(s, mem, ps, l, 1) + block_from(
                s,
                mem,
                ps,
                l + 1,
                n - 1,
            ));
        }
    }
}

} // verus!
