//! Substring search over the logical document: forward from a starting
//! line, and backward from a starting line, each returning the logical line
//! holding the beginning of the nearest match.

use vstd::prelude::*;
use crate::engine::LogEngine;
use crate::outside::{find_sub, lossy_decode, lossy_of, rfind_sub};
use crate::piece::{piece_ok, pieces_total, Piece};
use crate::index::count_window;
use crate::text::{
    first_match, last_match, lemma_first_match, lemma_last_match, lemma_tcf_le, line_start,
    occurs_in, term_count_from,
};

verus! {

/// The first edit-buffer line at index `j` or later (below `c`) containing
/// the query.
pub open spec fn mem_fwd(mem: Seq<Seq<u8>>, a: int, j: int, c: int, qm: Seq<u8>) -> Option<int>
    decreases c - j,
{
    if j >= c {
        None
    } else if occurs_in(mem[a + j], qm) {
        Some(j)
    } else {
        mem_fwd(mem, a, j + 1, c, qm)
    }
}

/// The last edit-buffer line at index `j` or earlier (down to 0) containing
/// the query.
pub open spec fn mem_bwd(mem: Seq<Seq<u8>>, a: int, j: int, qm: Seq<u8>) -> Option<int>
    decreases j,
{
    if occurs_in(mem[a + j], qm) {
        Some(j)
    } else if j <= 0 {
        None
    } else {
        mem_bwd(mem, a, j - 1, qm)
    }
}

/// The forward walk: skip `skip` lines, then return the logical line of the
/// first match; `cur` is the logical line of the first unskipped line.
pub open spec fn fwd_from(
    s: Seq<u8>,
    mem: Seq<Seq<u8>>,
    ps: Seq<Piece>,
    skip: int,
    q: Seq<u8>,
    qm: Seq<u8>,
    cur: int,
) -> Option<int>
    decreases ps.len(),
{
    if ps.len() == 0 {
        None
    } else {
        let c = ps[0].count() as int;
        if skip >= c {
            fwd_from(s, mem, ps.drop_first(), skip - c, q, qm, cur)
        } else {
            let hit = match ps[0] {
                Piece::Original { start_line: a, .. } => {
                    let span = s.subrange(line_start(s, a + skip), line_start(s, a + c));
                    match first_match(span, q) {
                        Some(pos) => Some(cur + term_count_from(span.take(pos), 0) as int),
                        None => None,
                    }
                },
                Piece::Memory { start_idx: a, .. } => {
                    match mem_fwd(mem, a as int, skip, c, qm) {
                        Some(j) => Some(cur + j - skip),
                        None => None,
                    }
                },
            };
            match hit {
                Some(l) => Some(l),
                None => fwd_from(s, mem, ps.drop_first(), 0, q, qm, cur + c - skip),
            }
        }
    }
}

/// The backward walk: `l` is the starting logical line within `ps`; return
/// the logical line of the last match at or before it.
pub open spec fn bwd_from(
    s: Seq<u8>,
    mem: Seq<Seq<u8>>,
    ps: Seq<Piece>,
    l: int,
    q: Seq<u8>,
    qm: Seq<u8>,
) -> Option<int>
    decreases ps.len(),
{
    if ps.len() == 0 {
        None
    } else {
        let rest = ps.drop_last();
        let before = pieces_total(rest) as int;
        if l < before {
            bwd_from(s, mem, rest, l, q, qm)
        } else {
            let off = l - before;
            let hit = match ps.last() {
                Piece::Original { start_line: a, .. } => {
                    let span = s.subrange(line_start(s, a as int), line_start(s, a + off + 1));
                    match last_match(span, q) {
                        Some(pos) => Some(before + term_count_from(span.take(pos), 0) as int),
                        None => None,
                    }
                },
                Piece::Memory { start_idx: a, .. } => {
                    match mem_bwd(mem, a as int, off, qm) {
                        Some(j) => Some(before + j),
                        None => None,
                    }
                },
            };
            match hit {
                Some(r) => Some(r),
                None => bwd_from(s, mem, rest, before - 1, q, qm),
            }
        }
    }
}

impl LogEngine {
    /// What a forward search returns: `None` for an empty query, else the
    /// walk from the starting line; memory lines are matched against the
    /// lossy decoding of the query.
    pub open spec fn search_spec(self, q: Seq<u8>, start: int) -> Option<int> {
        if q.len() == 0 {
            None
        } else {
            fwd_from(self.orig(), self.mem(), self.pieces@, start, q, lossy_of(q), start)
        }
    }

    /// What a backward search returns: `None` for an empty query or an empty
    /// document; a start past the end is clamped to the last line.
    pub open spec fn search_backward_spec(self, q: Seq<u8>, start: int) -> Option<int> {
        if q.len() == 0 || self.total() == 0 {
            None
        } else {
            let st = if start < self.total() {
                start
            } else {
                self.total() - 1
            };
            bwd_from(self.orig(), self.mem(), self.pieces@, st, q, lossy_of(q))
        }
    }

    /// Forward substring search from a logical line: the logical line
    /// containing the beginning of the first match at or after it.
    pub fn search(&self, query: &[u8], start_line: usize) -> (r: Option<usize>)
        requires
            self.wf(),
            self.total() + self.orig().len() < usize::MAX,
        ensures
            match r {
                Some(v) => self.search_spec(query@, start_line as int) == Some(v as int),
                None => self.search_spec(query@, start_line as int) is None,
            },
    {
        let ghost s = self.orig();
        let ghost mem = self.mem();
        let ghost ps = self.pieces@;
        let ghost q = query@;
        if query.len() == 0 {
            return None;
        }
        let qmv = lossy_decode(query);
        let qm = qmv.as_slice();
        let found = self.find_piece_idx(start_line);
        let mut piece_idx = found.0;
        let mut offset = found.1;
        let mut cur = start_line;
        proof {
            if start_line < self.total() {
                lemma_fwd_skip(s, mem, ps, piece_idx as int, start_line as int, q, lossy_of(q),
                    start_line as int);
            } else {
                assert(ps.take(piece_idx as int) =~= ps);
                lemma_fwd_skip(s, mem, ps, piece_idx as int, start_line as int, q, lossy_of(q),
                    start_line as int);
            }
        }
        while piece_idx < self.pieces.len()
            invariant
                self.wf(),
                s == self.orig(),
                mem == self.mem(),
                ps == self.pieces@,
                q == query@,
                q.len() > 0,
                qm@ == lossy_of(q),
                piece_idx <= ps.len(),
                piece_idx < ps.len() ==> offset < ps[piece_idx as int].count(),
                piece_idx < ps.len() ==> cur as int == pieces_total(ps.take(piece_idx as int))
                    + offset,
                self.total() + self.orig().len() < usize::MAX,
                self.search_spec(q, start_line as int) == fwd_from(
                    s,
                    mem,
                    ps.skip(piece_idx as int),
                    offset as int,
                    q,
                    lossy_of(q),
                    cur as int,
                ),
            decreases ps.len() - piece_idx,
        {
            let i = piece_idx;
            let piece = self.pieces[i];
            proof {
                assert(piece_ok(ps[i as int], self.original_total_lines as nat, mem.len()));
                assert(ps.skip(i as int)[0] == ps[i as int]);
                assert(ps.skip(i as int).drop_first() =~= ps.skip(i as int + 1));
                lemma_pt_succ_local(ps, i as int);
            }
            let count = piece.line_count();
            match piece {
                Piece::Original { start_line: p_start, .. } => {
                    let bytes = self.get_original_bytes(p_start + offset, count - offset);
                    let ghost span = s.subrange(line_start(s, p_start + offset), line_start(s,
                        p_start + count));
                    proof {
                        crate::text::lemma_line_start_bounds(s, p_start + offset);
                        crate::text::lemma_line_start_bounds(s, p_start + count);
                        crate::text::lemma_line_start_monotone(s, p_start + offset, p_start
                            + count);
                        assert(bytes@ == span);
                        assert(span.len() <= s.len());
                        lemma_first_match(span, q);
                    }
                    match find_sub(bytes, query) {
                        Some(pos) => {
                            let prefix = vstd::slice::slice_subrange(bytes, 0, pos);
                            let lines = count_window(prefix);
                            proof {
                                assert(prefix@ =~= span.take(pos as int));
                                lemma_tcf_le(span.take(pos as int), 0);
                                assert(first_match(span, q) == Some(pos as int));
                            }
                            return Some(cur + lines);
                        },
                        None => {
                            proof {
                                assert(first_match(span, q) is None);
                            }
                        },
                    }
                },
                Piece::Memory { start_idx, .. } => {
                    let mut j = offset;
                    while j < count
                        invariant
                            offset <= j <= count,
                            self.wf(),
                            s == self.orig(),
                            mem == self.mem(),
                            ps == self.pieces@,
                            q == query@,
                            q.len() > 0,
                            qm@ == lossy_of(q),
                            count == ps[piece_idx as int].count(),
                            piece == ps[piece_idx as int],
                            piece_idx < ps.len(),
                            offset < count,
                            piece matches Piece::Memory { start_idx: sidx, .. } && sidx
                                == start_idx,
                            start_idx + count <= mem.len(),
                            cur as int + (count as int - offset as int) <= self.total(),
                            self.search_spec(q, start_line as int) == fwd_from(
                                s,
                                mem,
                                ps.skip(piece_idx as int),
                                offset as int,
                                q,
                                lossy_of(q),
                                cur as int,
                            ),
                            mem_fwd(mem, start_idx as int, offset as int, count as int, lossy_of(q))
                                == mem_fwd(mem, start_idx as int, j as int, count as int, lossy_of(q)),
                        decreases count - j,
                    {
                        let line = self.memory_buffer[start_idx + j].as_slice();
                        proof {
                            assert(mem[start_idx + j] == self.memory_buffer@[start_idx + j]@);
                        }
                        match find_sub(line, qm) {
                            Some(_) => {
                                proof {
                                    assert(occurs_in(mem[start_idx + j], lossy_of(q)));
                                    assert(mem_fwd(mem, start_idx as int, j as int, count as int,
                                        lossy_of(q)) == Some(j as int));
                                    assert(ps.skip(piece_idx as int)[0] == ps[piece_idx as int]);
                                }
                                return Some(cur + (j - offset));
                            },
                            None => {
                                proof {
                                    assert(!occurs_in(mem[start_idx + j], lossy_of(q)));
                                }
                                j = j + 1;
                            },
                        }
                    }
                    proof {
                        assert(mem_fwd(mem, start_idx as int, offset as int, count as int,
                            lossy_of(q)) is None);
                    }
                },
            }
            cur = cur + (count - offset);
            offset = 0;
            piece_idx = piece_idx + 1;
        }
        proof {
            assert(ps.skip(piece_idx as int) =~= Seq::<Piece>::empty());
        }
        None
    }

    /// Backward substring search from a logical line: the logical line
    /// containing the beginning of the last match at or before it.
    pub fn search_backward(&self, query: &[u8], start_line: usize) -> (r: Option<usize>)
        requires
            self.wf(),
            self.total() + self.orig().len() < usize::MAX,
        ensures
            match r {
                Some(v) => self.search_backward_spec(query@, start_line as int) == Some(v as int),
                None => self.search_backward_spec(query@, start_line as int) is None,
            },
    {
        let ghost s = self.orig();
        let ghost mem = self.mem();
        let ghost ps = self.pieces@;
        let ghost q = query@;
        if query.len() == 0 {
            return None;
        }
        let total = self.total_lines();
        if total == 0 {
            return None;
        }
        let qmv = lossy_decode(query);
        let qm = qmv.as_slice();
        let st = if start_line < total {
            start_line
        } else {
            total - 1
        };
        let found = self.find_piece_idx(st);
        let mut piece_idx = found.0;
        let mut offset = found.1;
        let mut cur = st;
        proof {
            lemma_pt_succ_local(ps, piece_idx as int);
            lemma_bwd_take(s, mem, ps, piece_idx as int, st as int, q, lossy_of(q));
        }
        loop
            invariant
                self.wf(),
                s == self.orig(),
                mem == self.mem(),
                ps == self.pieces@,
                q == query@,
                q.len() > 0,
                qm@ == lossy_of(q),
                piece_idx < ps.len(),
                offset < ps[piece_idx as int].count(),
                cur as int == pieces_total(ps.take(piece_idx as int)) + offset,
                self.total() + self.orig().len() < usize::MAX,
                self.search_backward_spec(q, start_line as int) == bwd_from(
                    s,
                    mem,
                    ps.take(piece_idx as int + 1),
                    cur as int,
                    q,
                    lossy_of(q),
                ),
            decreases piece_idx,
        {
            let i = piece_idx;
            let piece = self.pieces[i];
            let ghost pfx = ps.take(i as int + 1);
            let ghost before = pieces_total(ps.take(i as int)) as int;
            proof {
                assert(piece_ok(ps[i as int], self.original_total_lines as nat, mem.len()));
                assert(pfx.drop_last() =~= ps.take(i as int));
                assert(pfx.last() == ps[i as int]);
                lemma_pt_succ_local(ps, i as int);
            }
            match piece {
                Piece::Original { start_line: p_start, .. } => {
                    let bytes = self.get_original_bytes(p_start, offset + 1);
                    let ghost span = s.subrange(line_start(s, p_start as int), line_start(s,
                        p_start + offset + 1));
                    proof {
                        crate::text::lemma_line_start_bounds(s, p_start as int);
                        crate::text::lemma_line_start_bounds(s, p_start + offset + 1);
                        crate::text::lemma_line_start_monotone(s, p_start as int, p_start + offset
                            + 1);
                        assert(bytes@ == span);
                        assert(span.len() <= s.len());
                        lemma_last_match(span, q);
                    }
                    match rfind_sub(bytes, query) {
                        Some(pos) => {
                            let prefix = vstd::slice::slice_subrange(bytes, 0, pos);
                            let lines = count_window(prefix);
                            proof {
                                assert(prefix@ =~= span.take(pos as int));
                                lemma_tcf_le(span.take(pos as int), 0);
                                assert(last_match(span, q) == Some(pos as int));
                            }
                            return Some(cur - offset + lines);
                        },
                        None => {
                            proof {
                                assert(last_match(span, q) is None);
                            }
                        },
                    }
                },
                Piece::Memory { start_idx, .. } => {
                    let mut j = offset;
                    loop
                        invariant
                            j <= offset,
                            self.wf(),
                            s == self.orig(),
                            mem == self.mem(),
                            ps == self.pieces@,
                            q == query@,
                            q.len() > 0,
                            qm@ == lossy_of(q),
                            piece == ps[piece_idx as int],
                            piece_idx < ps.len(),
                            offset < ps[piece_idx as int].count(),
                            offset <= cur,
                            cur as int == pieces_total(ps.take(piece_idx as int)) + offset,
                            cur as int <= self.total(),
                            piece matches Piece::Memory { start_idx: sidx, .. } && sidx
                                == start_idx,
                            start_idx as int + ps[piece_idx as int].count() <= mem.len(),
                            self.search_backward_spec(q, start_line as int) == bwd_from(
                                s,
                                mem,
                                ps.take(piece_idx as int + 1),
                                cur as int,
                                q,
                                lossy_of(q),
                            ),
                            mem_bwd(mem, start_idx as int, offset as int, lossy_of(q)) == mem_bwd(
                                mem,
                                start_idx as int,
                                j as int,
                                lossy_of(q),
                            ),
                        ensures
                            mem_bwd(mem, start_idx as int, offset as int, lossy_of(q)) is None,
                        decreases j,
                    {
                        let line = self.memory_buffer[start_idx + j].as_slice();
                        proof {
                            assert(mem[start_idx + j] == self.memory_buffer@[start_idx + j]@);
                        }
                        match find_sub(line, qm) {
                            Some(_) => {
                                proof {
                                    assert(occurs_in(mem[start_idx + j], lossy_of(q)));
                                    assert(mem_bwd(mem, start_idx as int, j as int, lossy_of(q))
                                        == Some(j as int));
                                    assert(ps.take(piece_idx as int + 1).drop_last() =~= ps.take(
                                        piece_idx as int,
                                    ));
                                    assert(ps.take(piece_idx as int + 1).last()
                                        == ps[piece_idx as int]);
                                }
                                return Some(cur - offset + j);
                            },
                            None => {
                                proof {
                                    assert(!occurs_in(mem[start_idx + j], lossy_of(q)));
                                }
                                if j == 0 {
                                    break ;
                                }
                                j = j - 1;
                            },
                        }
                    }
                    proof {
                        assert(mem_bwd(mem, start_idx as int, offset as int, lossy_of(q)) is None);
                    }
                },
            }
            if piece_idx == 0 {
                proof {
                    assert(ps.take(0int) =~= Seq::<Piece>::empty());
                    assert(pieces_total(Seq::<Piece>::empty()) == 0);
                    assert(ps.take(1int).drop_last() =~= ps.take(0int));
                    assert(ps.take(1int).last() == ps[0]);
                    assert(cur == offset);
                    assert(bwd_from(s, mem, Seq::<Piece>::empty(), -1, q, lossy_of(q)) is None);
                    assert(ps.take(1int).len() == 1);
                }
                return None;
            }
            proof {
                assert(piece_ok(ps[piece_idx as int - 1], self.original_total_lines as nat,
                    mem.len()));
                lemma_pt_succ_local(ps, piece_idx as int - 1);
            }
            cur = cur - (offset + 1);
            piece_idx = piece_idx - 1;
            offset = self.pieces[piece_idx].line_count() - 1;
            proof {
                assert(ps.take(piece_idx as int + 1).drop_last() =~= ps.take(piece_idx as int));
            }
        }
    }
}

/// Unfolding prefix sums one piece at a time.
proof fn lemma_pt_succ_local(ps: Seq<Piece>, i: int)
    requires
        0 <= i < ps.len(),
    ensures
        pieces_total(ps.take(i + 1)) == pieces_total(ps.take(i)) + ps[i].count(),
        pieces_total(ps.take(i)) <= pieces_total(ps),
        pieces_total(ps.take(i + 1)) <= pieces_total(ps),
{
    crate::piece::lemma_pt_take_succ(ps, i);
    crate::piece::lemma_pt_take_skip(ps, i);
    crate::piece::lemma_pt_take_skip(ps, i + 1);
}

/// The forward walk ignores wholly skipped leading pieces.
proof fn lemma_fwd_skip(
    s: Seq<u8>,
    mem: Seq<Seq<u8>>,
    ps: Seq<Piece>,
    k: int,
    skip: int,
    q: Seq<u8>,
    qm: Seq<u8>,
    cur: int,
)
    requires
        0 <= k <= ps.len(),
        pieces_total(ps.take(k)) <= skip,
    ensures
        fwd_from(s, mem, ps, skip, q, qm, cur) == fwd_from(
            s,
            mem,
            ps.skip(k),
            skip - pieces_total(ps.take(k)),
            q,
            qm,
            cur,
        ),
    decreases k,
{
    if k == 0 {
        assert(ps.skip(0) =~= ps);
        assert(ps.take(0) =~= Seq::<Piece>::empty());
    } else {
        let c = ps[0].count() as int;
        assert(ps.take(k)[0] == ps[0]);
        assert(ps.take(k).drop_first() =~= ps.drop_first().take(k - 1));
        assert(pieces_total(ps.take(k)) == c + pieces_total(ps.drop_first().take(k - 1)));
        assert(pieces_total(ps.drop_first().take(k - 1)) >= 0);
        lemma_fwd_skip(s, mem, ps.drop_first(), k - 1, skip - c, q, qm, cur);
        assert(ps.skip(k) =~= ps.drop_first().skip(k - 1));
    }
}

/// The backward walk from a line inside a prefix of the pieces ignores the
/// pieces after that prefix.
proof fn lemma_bwd_take(
    s: Seq<u8>,
    mem: Seq<Seq<u8>>,
    ps: Seq<Piece>,
    k: int,
    l: int,
    q: Seq<u8>,
    qm: Seq<u8>,
)
    requires
        0 <= k < ps.len(),
        0 <= l < pieces_total(ps.take(k + 1)),
    ensures
        bwd_from(s, mem, ps, l, q, qm) == bwd_from(s, mem, ps.take(k + 1), l, q, qm),
    decreases ps.len() - k,
{
    if k + 1 == ps.len() {
        assert(ps.take(k + 1) =~= ps);
    } else {
        crate::piece::lemma_pt_take_succ(ps, k + 1);
        assert(pieces_total(ps.take(k + 1)) <= pieces_total(ps.take(k + 2)));
        lemma_bwd_take(s, mem, ps, k + 1, l, q, qm);
        let pfx = ps.take(k + 2);
        assert(pfx.drop_last() =~= ps.take(k + 1));
        crate::piece::lemma_pt_take_succ(ps, k + 1);
        assert(l < pieces_total(pfx.drop_last()));
    }
}

} // verus!
