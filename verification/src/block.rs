//! Block extraction and document serialisation: a contiguous LF-terminated
//! byte rendering of a logical line range, walking the pieces; and the byte
//! image that a save writes.

use vstd::prelude::*;
use crate::engine::LogEngine;
use crate::outside::mapped_slice;
use crate::piece::{piece_ok, pieces_total, Piece};
use crate::text::{
    line_start, lemma_line_start_bounds, lemma_line_start_monotone, lemma_line_start_total,
    lemma_nls_bounds, render_line, LF,
};
use vstd::slice::slice_subrange;

verus! {

/// What a run of consecutive original lines contributes to a block: the raw
/// byte span, LF-terminated if it is not already.
pub open spec fn seg_orig(s: Seq<u8>, a: int, off: int, take: int) -> Seq<u8> {
    render_line(s.subrange(line_start(s, a + off), line_start(s, a + off + take)))
}

/// What a run of consecutive edit-buffer lines contributes to a block: each
/// line followed by LF.
pub open spec fn seg_mem(mem: Seq<Seq<u8>>, a: int, off: int, take: int) -> Seq<u8>
    decreases take,
{
    if take <= 0 {
        Seq::empty()
    } else {
        render_line(mem[a + off]) + seg_mem(mem, a, off + 1, take - 1)
    }
}

/// The bytes of a block: walk the pieces, skip `skip` lines, then take up to
/// `n` lines, rendering each run.
pub open spec fn block_from(
    s: Seq<u8>,
    mem: Seq<Seq<u8>>,
    ps: Seq<Piece>,
    skip: int,
    n: int,
) -> Seq<u8>
    decreases ps.len(),
{
    if n <= 0 || ps.len() == 0 {
        Seq::empty()
    } else {
        let c = ps[0].count() as int;
        if skip >= c {
            block_from(s, mem, ps.drop_first(), skip - c, n)
        } else {
            let take = if c - skip <= n {
                c - skip
            } else {
                n
            };
            let seg = match ps[0] {
                Piece::Original { start_line, .. } => seg_orig(s, start_line as int, skip, take),
                Piece::Memory { start_idx, .. } => seg_mem(mem, start_idx as int, skip, take),
            };
            seg + block_from(s, mem, ps.drop_first(), 0, n - take)
        }
    }
}

/// What one whole piece contributes to a save.
pub open spec fn piece_save(s: Seq<u8>, mem: Seq<Seq<u8>>, p: Piece) -> Seq<u8> {
    match p {
        Piece::Original { start_line, line_count } => seg_orig(
            s,
            start_line as int,
            0,
            line_count as int,
        ),
        Piece::Memory { start_idx, line_count } => seg_mem(
            mem,
            start_idx as int,
            0,
            line_count as int,
        ),
    }
}

/// The byte image a save writes: every piece's contribution, in order.
pub open spec fn save_of(s: Seq<u8>, mem: Seq<Seq<u8>>, ps: Seq<Piece>) -> Seq<u8>
    decreases ps.len(),
{
    if ps.len() == 0 {
        Seq::empty()
    } else {
        piece_save(s, mem, ps[0]) + save_of(s, mem, ps.drop_first())
    }
}

/// Skipping whole leading pieces moves the walk's start.
proof fn lemma_block_skip(s: Seq<u8>, mem: Seq<Seq<u8>>, ps: Seq<Piece>, k: int, skip: int, n: int)
    requires
        0 <= k <= ps.len(),
        pieces_total(ps.take(k)) <= skip,
    ensures
        block_from(s, mem, ps, skip, n) == block_from(
            s,
            mem,
            ps.skip(k),
            skip - pieces_total(ps.take(k)),
            n,
        ),
    decreases k,
{
    if k == 0 {
        assert(ps.skip(0) =~= ps);
        assert(pieces_total(ps.take(0)) == 0) by {
            assert(ps.take(0) =~= Seq::<Piece>::empty());
        }
    } else {
        let c = ps[0].count() as int;
        assert(ps.take(k)[0] == ps[0]);
        assert(ps.take(k).drop_first() =~= ps.drop_first().take(k - 1));
        assert(pieces_total(ps.take(k)) == c + pieces_total(ps.drop_first().take(k - 1)));
        assert(pieces_total(ps.drop_first().take(k - 1)) >= 0);
        assert(c <= skip);
        lemma_block_skip(s, mem, ps.drop_first(), k - 1, skip - c, n);
        assert(ps.skip(k) =~= ps.drop_first().skip(k - 1));
        if n <= 0 {
            assert(block_from(s, mem, ps, skip, n) == Seq::<u8>::empty());
            assert(block_from(s, mem, ps.skip(k), skip - pieces_total(ps.take(k)), n)
                == Seq::<u8>::empty());
        }
    }
}

impl LogEngine {
    /// The bytes a block extraction yields: empty for an empty or
    /// out-of-range request, the rendered walk otherwise.
    pub open spec fn block_spec(self, start: int, n: int) -> Seq<u8> {
        if n <= 0 || start >= self.total() {
            Seq::empty()
        } else {
            block_from(self.orig(), self.mem(), self.pieces@, start, n)
        }
    }

    /// The byte image of the whole document, as a save writes it.
    pub open spec fn save_spec(self) -> Seq<u8> {
        save_of(self.orig(), self.mem(), self.pieces@)
    }

    /// Render a logical line range as one LF-terminated byte block.
    pub fn render_block(&self, start_line: usize, num_lines: usize) -> (r: Vec<u8>)
        requires
            self.wf(),
        ensures
            r@ == self.block_spec(start_line as int, num_lines as int),
    {
        let ghost s = self.orig();
        let ghost mem = self.mem();
        let ghost ps = self.pieces@;
        let mut out: Vec<u8> = Vec::new();
        let total = self.total_lines();
        if num_lines == 0 || start_line >= total {
            return out;
        }
        let found = self.find_piece_idx(start_line);
        let mut piece_idx = found.0;
        let mut offset = found.1;
        proof {
            lemma_block_skip(s, mem, ps, piece_idx as int, start_line as int, num_lines as int);
        }
        let mut collected: usize = 0;
        while collected < num_lines && piece_idx < self.pieces.len()
            invariant
                self.wf(),
                s == self.orig(),
                mem == self.mem(),
                ps == self.pieces@,
                collected <= num_lines,
                piece_idx <= ps.len(),
                piece_idx < ps.len() ==> offset < ps[piece_idx as int].count(),
                self.block_spec(start_line as int, num_lines as int) == out@ + block_from(
                    s,
                    mem,
                    ps.skip(piece_idx as int),
                    offset as int,
                    num_lines - collected,
                ),
            decreases ps.len() - piece_idx,
        {
            let i = piece_idx;
            let piece = self.pieces[i];
            proof {
                assert(piece_ok(ps[i as int], self.original_total_lines as nat, mem.len()));
                assert(ps.skip(i as int)[0] == ps[i as int]);
                assert(ps.skip(i as int).drop_first() =~= ps.skip(i as int + 1));
            }
            let count = piece.line_count() - offset;
            let take = if count <= num_lines - collected {
                count
            } else {
                num_lines - collected
            };
            let ghost out0 = out@;
            match piece {
                Piece::Original { start_line: p_start, .. } => {
                    let sb = self.line_to_byte_offset(p_start + offset);
                    let eb = self.line_to_byte_offset(p_start + offset + take);
                    proof {
                        lemma_line_start_monotone(s, p_start + offset, p_start + offset
                            + take as int);
                        lemma_line_start_bounds(s, p_start + offset + take as int);
                        lemma_line_start_total(s, p_start + offset);
                        lemma_nls_bounds(s, line_start(s, p_start + offset));
                        lemma_line_start_monotone(s, p_start + offset + 1, p_start + offset
                            + take as int);
                        assert(line_start(s, p_start + offset) < line_start(s, p_start + offset
                            + take as int));
                    }
                    let bytes = mapped_slice(&self.mmap);
                    let seg = slice_subrange(bytes, sb, eb);
                    let mut segv = vstd::slice::slice_to_vec(seg);
                    out.append(&mut segv);
                    if out.len() > 0 && out[out.len() - 1] != LF {
                        out.push(LF);
                    }
                    proof {
                        assert(out@ =~= out0 + seg_orig(s, p_start as int, offset as int,
                            take as int));
                    }
                },
                Piece::Memory { start_idx, .. } => {
                    let mut j: usize = 0;
                    while j < take
                        invariant
                            j <= take,
                            self.wf(),
                            mem == self.mem(),
                            take as int + offset as int + start_idx as int <= mem.len(),
                            start_idx as int + offset as int + take as int <= usize::MAX,
                            out@ == out0 + seg_mem(mem, start_idx as int, offset as int, j as int),
                        decreases take - j,
                    {
                        let ghost outj = out@;
                        let line = slice_subrange(
                            self.memory_buffer[start_idx + offset + j].as_slice(),
                            0,
                            self.memory_buffer[start_idx + offset + j].len(),
                        );
                        let mut lv = vstd::slice::slice_to_vec(line);
                        out.append(&mut lv);
                        out.push(LF);
                        proof {
                            let a = start_idx as int;
                            let o = offset as int;
                            assert(mem[a + o + j] == self.memory_buffer@[a + o + j]@);
                            assert(render_line(mem[a + o + j]) =~= mem[a + o + j].push(LF));
                            assert(out@ =~= outj + render_line(mem[a + o + j]));
                            lemma_seg_mem_snoc(mem, a, o, j as int);
                        }
                        j = j + 1;
                    }
                    proof {
                        assert(out@ =~= out0 + seg_mem(mem, start_idx as int, offset as int,
                            take as int));
                    }
                },
            }
            collected = collected + take;
            offset = 0;
            piece_idx = piece_idx + 1;
        }
        proof {
            if collected >= num_lines {
                assert(block_from(s, mem, ps.skip(piece_idx as int), offset as int, num_lines
                    - collected) == Seq::<u8>::empty());
            } else {
                assert(ps.skip(piece_idx as int) =~= Seq::<Piece>::empty());
                assert(block_from(s, mem, ps.skip(piece_idx as int), offset as int, num_lines
                    - collected) == Seq::<u8>::empty());
            }
            assert(out@ =~= out@ + Seq::<u8>::empty());
        }
        out
    }

    /// Fill the engine-owned scratch buffer with a rendered block; the
    /// buffer keeps its contents until the next call.
    pub fn get_block(&mut self, start_line: usize, num_lines: usize)
        requires
            old(self).wf(),
        ensures
            final(self).wf(),
            final(self).mmap == old(self).mmap,
            final(self).chunks == old(self).chunks,
            final(self).original_total_lines == old(self).original_total_lines,
            final(self).pieces == old(self).pieces,
            final(self).memory_buffer == old(self).memory_buffer,
            final(self).last_block@ == old(self).block_spec(start_line as int, num_lines as int),
    {
        let b = self.render_block(start_line, num_lines);
        self.last_block = b;
    }

    /// The scratch buffer filled by the last block extraction.
    pub fn last_block_bytes(&self) -> (r: &Vec<u8>)
        ensures
            r@ == self.last_block@,
    {
        &self.last_block
    }

    /// The byte image of the whole document, as a save writes it: every
    /// original span LF-terminated if it is not already, every edit-buffer
    /// line followed by LF.
    pub fn save_bytes(&self) -> (r: Vec<u8>)
        requires
            self.wf(),
        ensures
            r@ == self.save_spec(),
    {
        let ghost s = self.orig();
        let ghost mem = self.mem();
        let ghost ps = self.pieces@;
        let mut out: Vec<u8> = Vec::new();
        let mut piece_idx: usize = 0;
        proof {
            assert(ps.skip(0) =~= ps);
        }
        while piece_idx < self.pieces.len()
            invariant
                self.wf(),
                s == self.orig(),
                mem == self.mem(),
                ps == self.pieces@,
                piece_idx <= ps.len(),
                self.save_spec() == out@ + save_of(s, mem, ps.skip(piece_idx as int)),
            decreases ps.len() - piece_idx,
        {
            let i = piece_idx;
            let piece = self.pieces[i];
            proof {
                assert(piece_ok(ps[i as int], self.original_total_lines as nat, mem.len()));
                assert(ps.skip(i as int)[0] == ps[i as int]);
                assert(ps.skip(i as int).drop_first() =~= ps.skip(i as int + 1));
            }
            let ghost out0 = out@;
            match piece {
                Piece::Original { start_line: p_start, line_count } => {
                    let sb = self.line_to_byte_offset(p_start);
                    let eb = self.line_to_byte_offset(p_start + line_count);
                    proof {
                        lemma_line_start_monotone(s, p_start as int, p_start + line_count as int);
                        lemma_line_start_bounds(s, p_start + line_count as int);
                        lemma_line_start_total(s, p_start as int);
                        lemma_nls_bounds(s, line_start(s, p_start as int));
                        lemma_line_start_monotone(s, p_start as int + 1, p_start
                            + line_count as int);
                        assert(line_start(s, p_start as int) < line_start(s, p_start
                            + line_count as int));
                    }
                    let bytes = mapped_slice(&self.mmap);
                    let seg = slice_subrange(bytes, sb, eb);
                    let mut segv = vstd::slice::slice_to_vec(seg);
                    out.append(&mut segv);
                    if out.len() > 0 && out[out.len() - 1] != LF {
                        out.push(LF);
                    }
                    proof {
                        assert(out@ =~= out0 + seg_orig(s, p_start as int, 0, line_count as int));
                    }
                },
                Piece::Memory { start_idx, line_count } => {
                    let mut j: usize = 0;
                    while j < line_count
                        invariant
                            j <= line_count,
                            self.wf(),
                            mem == self.mem(),
                            line_count as int + start_idx as int <= mem.len(),
                            start_idx as int + line_count as int <= usize::MAX,
                            out@ == out0 + seg_mem(mem, start_idx as int, 0, j as int),
                        decreases line_count - j,
                    {
                        let ghost outj = out@;
                        let line = slice_subrange(
                            self.memory_buffer[start_idx + j].as_slice(),
                            0,
                            self.memory_buffer[start_idx + j].len(),
                        );
                        let mut lv = vstd::slice::slice_to_vec(line);
                        out.append(&mut lv);
                        out.push(LF);
                        proof {
                            let a = start_idx as int;
                            assert(mem[a + j] == self.memory_buffer@[a + j]@);
                            assert(render_line(mem[a + j]) =~= mem[a + j].push(LF));
                            assert(out@ =~= outj + render_line(mem[a + j]));
                            lemma_seg_mem_snoc(mem, a, 0, j as int);
                        }
                        j = j + 1;
                    }
                    proof {
                        assert(out@ =~= out0 + seg_mem(mem, start_idx as int, 0,
                            line_count as int));
                    }
                },
            }
            piece_idx = piece_idx + 1;
        }
        proof {
            assert(ps.skip(piece_idx as int) =~= Seq::<Piece>::empty());
            assert(out@ =~= out@ + Seq::<u8>::empty());
        }
        out
    }
}

/// A memory run grows at its right edge one rendered line at a time.
proof fn lemma_seg_mem_snoc(mem: Seq<Seq<u8>>, a: int, off: int, j: int)
    requires
        0 <= j,
    ensures
        seg_mem(mem, a, off, j + 1) == seg_mem(mem, a, off, j) + render_line(mem[a + off + j]),
    decreases j,
{
    if j == 0 {
        assert(seg_mem(mem, a, off + 1, 0) == Seq::<u8>::empty());
        assert(seg_mem(mem, a, off, 1) =~= render_line(mem[a + off]) + Seq::<u8>::empty());
        assert(seg_mem(mem, a, off, 0) =~= Seq::<u8>::empty());
        assert(seg_mem(mem, a, off, 0) + render_line(mem[a + off]) =~= render_line(mem[a + off]));
        assert(seg_mem(mem, a, off, 1) =~= seg_mem(mem, a, off, 0) + render_line(mem[a + off]));
    } else {
        lemma_seg_mem_snoc(mem, a, off + 1, j - 1);
        assert(seg_mem(mem, a, off, j + 1) =~= seg_mem(mem, a, off, j) + render_line(
            mem[a + off + j],
        ));
    }
}

} // verus!
