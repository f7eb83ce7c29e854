//! Line-range replacement: the edit splits the piece containing the first
//! affected line, removes the deleted range piece by piece, and inserts one
//! memory piece for the decoded replacement lines.

use vstd::prelude::*;
use crate::engine::LogEngine;
use crate::outside::find_first_of;
use crate::piece::{
    doc_of, lemma_doc_concat, lemma_doc_len, lemma_doc_mem_extend, lemma_doc_singleton,
    lemma_doc_take_skip, lemma_pt_concat, lemma_pt_singleton, lemma_pt_take_skip,
    lemma_pt_take_succ, piece_doc, piece_ok, pieces_total, Piece,
};
use crate::text::{lemma_first_lf_at, lines_of_text, render_line, LF};
use vstd::slice::{slice_subrange, slice_to_vec};

verus! {

/// The decoded replacement lines, rendered as they will stand in the
/// document.
pub open spec fn rendered(lines: Seq<Seq<u8>>) -> Seq<Seq<u8>> {
    lines.map_values(|l: Seq<u8>| render_line(l))
}

/// Split a replacement text on LF, dropping a single trailing empty piece
/// when the text ends with LF.
pub fn split_text(t: &[u8]) -> (r: Vec<Vec<u8>>)
    ensures
        r@.map_values(|v: Vec<u8>| v@) == lines_of_text(t@),
        forall|j: int, b: int|
            0 <= j < r@.len() && 0 <= b < r@[j]@.len() ==> #[trigger] r@[j]@[b] != LF,
{
    let len = t.len();
    let mut r: Vec<Vec<u8>> = Vec::new();
    let mut i: usize = 0;
    proof {
        assert(t@.skip(0) =~= t@);
        assert(r@.map_values(|v: Vec<u8>| v@) =~= Seq::<Seq<u8>>::empty());
    }
    while i < len
        invariant
            i <= len,
            len == t@.len(),
            lines_of_text(t@) == r@.map_values(|v: Vec<u8>| v@) + lines_of_text(
                t@.skip(i as int),
            ),
            forall|j: int, b: int|
                0 <= j < r@.len() && 0 <= b < r@[j]@.len() ==> #[trigger] r@[j]@[b] != LF,
        decreases len - i,
    {
        let ghost rest0 = t@.skip(i as int);
        let rest = slice_subrange(t, i, len);
        let ghost old_r = r@;
        match find_first_of(LF, LF, rest) {
            Some(p) => {
                let line = slice_to_vec(slice_subrange(t, i, i + p));
                r.push(line);
                proof {
                    lemma_first_lf_at(rest0, p as int);
                    assert(rest0.subrange(0, p as int) =~= t@.subrange(i as int, i + p));
                    assert(rest0.subrange(p + 1, rest0.len() as int) =~= t@.skip(i + p + 1));
                    assert(lines_of_text(rest0) == seq![t@.subrange(i as int, i + p)]
                        + lines_of_text(t@.skip(i + p + 1)));
                    assert(r@.map_values(|v: Vec<u8>| v@) =~= old_r.map_values(|v: Vec<u8>| v@)
                        + seq![t@.subrange(i as int, i + p)]);
                }
                i = i + p + 1;
            },
            None => {
                let line = slice_to_vec(slice_subrange(t, i, len));
                r.push(line);
                proof {
                    lemma_first_lf_at(rest0, rest0.len() as int);
                    assert(rest0.subrange(0, rest0.len() as int) =~= rest0);
                    assert(lines_of_text(rest0) == seq![rest0]);
                    assert(r@.map_values(|v: Vec<u8>| v@) =~= old_r.map_values(|v: Vec<u8>| v@)
                        + seq![rest0]);
                    assert(t@.skip(len as int) =~= Seq::<u8>::empty());
                    assert(lines_of_text(t@.skip(len as int)) == Seq::<Seq<u8>>::empty());
                }
                i = len;
            },
        }
    }
    proof {
        assert(t@.skip(len as int) =~= Seq::<u8>::empty());
        assert(lines_of_text(t@.skip(len as int)) == Seq::<Seq<u8>>::empty());
        assert(lines_of_text(t@) =~= r@.map_values(|v: Vec<u8>| v@));
    }
    r
}

impl LogEngine {
    /// Replace `num_deleted` logical lines starting at `start_line` with the
    /// lines of `new_text`.  A start past the end appends; a deletion past
    /// the end truncates; empty text inserts nothing.
    #[verifier::rlimit(100)]
    pub fn apply_edit(&mut self, start_line: usize, num_deleted: usize, new_text: &[u8])
        requires
            old(self).wf(),
            old(self).total() + lines_of_text(new_text@).len() <= usize::MAX,
            old(self).mem().len() + lines_of_text(new_text@).len() <= usize::MAX,
        ensures
            final(self).wf(),
            final(self).mmap == old(self).mmap,
            final(self).chunks == old(self).chunks,
            final(self).original_total_lines == old(self).original_total_lines,
            final(self).last_block == old(self).last_block,
            ({
                let l0 = if start_line as int <= old(self).total() {
                    start_line as int
                } else {
                    old(self).total() as int
                };
                let d0 = if num_deleted as int <= old(self).total() - l0 {
                    num_deleted as int
                } else {
                    old(self).total() - l0
                };
                final(self).doc() == old(self).doc().take(l0) + rendered(
                    lines_of_text(new_text@),
                ) + old(self).doc().skip(l0 + d0)
            }),
    {
        let ghost old_doc = self.doc();
        let ghost old_total = self.total() as int;
        let ghost l0: int = if start_line as int <= old_total {
            start_line as int
        } else {
            old_total
        };
        let ghost d0: int = if num_deleted as int <= old_total - l0 {
            num_deleted as int
        } else {
            old_total - l0
        };
        proof {
            lemma_doc_len(self.orig(), self.mem(), self.pieces@);
        }
        let (idx0, off) = self.find_piece_idx(start_line);
        let mut piece_idx = idx0;
        if piece_idx < self.pieces.len() {
            proof {
                lemma_pt_take_skip(self.pieces@, idx0 as int);
            }
            self.split_piece_at(piece_idx, off);
            if off > 0 {
                piece_idx = piece_idx + 1;
            }
        }
        proof {
            if start_line as int >= old_total {
                assert(self.pieces@.take(piece_idx as int) =~= self.pieces@);
            }
            assert(pieces_total(self.pieces@.take(piece_idx as int)) == l0);
            assert(self.doc() == old_doc);
            assert(old_doc =~= old_doc.take(l0) + old_doc.skip(l0));
        }
        let mut remaining = num_deleted;
        let ghost mut cut: int = 0;
        while remaining > 0 && piece_idx < self.pieces.len()
            invariant
                self.wf(),
                self.mmap == old(self).mmap,
                self.chunks == old(self).chunks,
                self.original_total_lines == old(self).original_total_lines,
                self.memory_buffer == old(self).memory_buffer,
                self.last_block == old(self).last_block,
                piece_idx <= self.pieces@.len(),
                pieces_total(self.pieces@.take(piece_idx as int)) == l0,
                0 <= cut,
                cut + remaining == num_deleted,
                cut <= old_total - l0,
                old_doc == old(self).doc(),
                old_total == old_doc.len(),
                0 <= l0 <= old_total,
                self.doc() == old_doc.take(l0) + old_doc.skip(l0 + cut),
            decreases remaining,
        {
            let ghost s = self.orig();
            let ghost mem = self.mem();
            let ghost ps = self.pieces@;
            let i = piece_idx;
            let count = self.pieces[i].line_count();
            proof {
                lemma_doc_len(s, mem, ps);
                lemma_pt_take_skip(ps, i as int);
                lemma_pt_take_succ(ps, i as int);
                lemma_pt_take_skip(ps, i as int + 1);
            }
            if count <= remaining {
                proof {
                    assert(piece_ok(ps[i as int], self.original_total_lines as nat, mem.len()));
                }
                self.pieces.remove(i);
                proof {
                    assert(self.pieces@ =~= ps.take(i as int) + ps.skip(i as int + 1));
                    lemma_removed_piece_doc(s, mem, ps, i as int, l0, old_doc, cut);
                    assert(self.pieces@.take(i as int) =~= ps.take(i as int));
                    assert forall|k2: int| 0 <= k2 < self.pieces@.len() implies piece_ok(
                        #[trigger] self.pieces@[k2],
                        self.original_total_lines as nat,
                        self.mem().len(),
                    ) by {
                        if k2 < i as int {
                            assert(self.pieces@[k2] == ps[k2]);
                        } else {
                            assert(self.pieces@[k2] == ps[k2 + 1]);
                        }
                    }
                    lemma_doc_len(s, mem, self.pieces@);
                }
                remaining = remaining - count;
                proof {
                    cut = cut + count;
                }
            } else {
                self.split_piece_at(i, remaining);
                let ghost ps2 = self.pieces@;
                proof {
                    lemma_pt_take_skip(ps2, i as int);
                    lemma_pt_take_succ(ps2, i as int);
                    lemma_doc_len(s, self.mem(), ps2);
                }
                proof {
                    assert(ps2.take(i as int) =~= ps.take(i as int));
                    assert(ps2[i as int].count() == remaining);
                }
                self.pieces.remove(i);
                proof {
                    assert(self.pieces@ =~= ps2.take(i as int) + ps2.skip(i as int + 1));
                    lemma_removed_piece_doc(s, mem, ps2, i as int, l0, old_doc, cut);
                    assert(self.pieces@.take(i as int) =~= ps2.take(i as int));
                    assert forall|k2: int| 0 <= k2 < self.pieces@.len() implies piece_ok(
                        #[trigger] self.pieces@[k2],
                        self.original_total_lines as nat,
                        self.mem().len(),
                    ) by {
                        if k2 < i as int {
                            assert(self.pieces@[k2] == ps2[k2]);
                        } else {
                            assert(self.pieces@[k2] == ps2[k2 + 1]);
                        }
                    }
                    lemma_doc_len(s, mem, self.pieces@);
                    cut = cut + remaining;
                }
                remaining = 0;
            }
        }
        proof {
            lemma_doc_len(self.orig(), self.mem(), self.pieces@);
            if remaining > 0 {
                // ran out of pieces: everything from l0 on is gone
                assert(self.pieces@.take(piece_idx as int) =~= self.pieces@);
                assert(self.doc().len() == l0);
                assert(old_doc.skip(l0 + cut).len() == 0);
                assert(cut == old_total - l0);
                assert(d0 == cut);
                assert(old_doc.skip(l0 + d0) =~= old_doc.skip(l0 + cut));
            } else {
                assert(cut == num_deleted);
                assert(d0 == cut);
            }
            assert(self.doc() == old_doc.take(l0) + old_doc.skip(l0 + d0));
        }
        if new_text.len() > 0 {
            let lines = split_text(new_text);
            if lines.len() > 0 {
                let ghost s = self.orig();
                let ghost mem1 = self.mem();
                let ghost ps = self.pieces@;
                let start_idx = self.memory_buffer.len();
                let line_count = lines.len();
                let ghost lvs = lines@.map_values(|v: Vec<u8>| v@);
                // move the decoded lines into the edit buffer, in order
                let mut lines_in = lines;
                self.memory_buffer.append(&mut lines_in);
                proof {
                    assert(self.mem() =~= mem1 + lvs);
                }
                let newp = Piece::Memory { start_idx, line_count };
                self.pieces.insert(piece_idx, newp);
                proof {
                    let mem2 = self.mem();
                    let i = piece_idx as int;
                    assert(self.pieces@ =~= ps.take(i) + seq![newp] + ps.skip(i));
                    lemma_doc_mem_extend(s, mem1, mem2, ps, self.original_total_lines as nat);
                    lemma_doc_concat(s, mem2, ps.take(i) + seq![newp], ps.skip(i));
                    lemma_doc_concat(s, mem2, ps.take(i), seq![newp]);
                    lemma_doc_singleton(s, mem2, newp);
                    lemma_doc_take_skip(s, mem2, ps, i);
                    lemma_doc_mem_extend(s, mem1, mem2, ps.take(i), self.original_total_lines as nat);
                    lemma_doc_mem_extend(s, mem1, mem2, ps.skip(i), self.original_total_lines as nat);
                    assert(piece_doc(s, mem2, newp) =~= rendered(lvs));
                    lemma_doc_len(s, mem1, ps.take(i));
                    lemma_pt_take_skip(ps, i);
                    lemma_doc_take_skip(s, mem1, ps, i);
                    assert(doc_of(s, mem1, ps.take(i)) =~= (old_doc.take(l0) + old_doc.skip(
                        l0 + d0,
                    )).take(l0));
                    assert((old_doc.take(l0) + old_doc.skip(l0 + d0)).take(l0) =~= old_doc.take(
                        l0,
                    ));
                    assert(doc_of(s, mem1, ps) == old_doc.take(l0) + old_doc.skip(l0 + d0));
                    assert(doc_of(s, mem1, ps) == doc_of(s, mem1, ps.take(i)) + doc_of(
                        s,
                        mem1,
                        ps.skip(i),
                    ));
                    assert(doc_of(s, mem1, ps.take(i)).len() == l0);
                    assert(old_doc.take(l0).len() == l0);
                    assert(doc_of(s, mem1, ps.skip(i)).len() == old_doc.skip(l0 + d0).len());
                    assert forall|j: int| 0 <= j < doc_of(s, mem1, ps.skip(i)).len() implies doc_of(
                        s,
                        mem1,
                        ps.skip(i),
                    )[j] == old_doc.skip(l0 + d0)[j] by {
                        assert(doc_of(s, mem1, ps.skip(i))[j] == (doc_of(s, mem1, ps.take(i))
                            + doc_of(s, mem1, ps.skip(i)))[l0 + j]);
                        assert((old_doc.take(l0) + old_doc.skip(l0 + d0))[l0 + j] == old_doc.skip(
                            l0 + d0,
                        )[j]);
                    }
                    assert(doc_of(s, mem1, ps.skip(i)) =~= old_doc.skip(l0 + d0));
                    assert(self.doc() =~= old_doc.take(l0) + rendered(lines_of_text(new_text@))
                        + old_doc.skip(l0 + d0));
                    lemma_pt_concat(ps.take(i) + seq![newp], ps.skip(i));
                    lemma_pt_concat(ps.take(i), seq![newp]);
                    lemma_pt_singleton(newp);
                }
            } else {
                proof {
                    assert(rendered(lines_of_text(new_text@)) =~= Seq::<Seq<u8>>::empty());
                    assert(self.doc() =~= old_doc.take(l0) + rendered(lines_of_text(new_text@))
                        + old_doc.skip(l0 + d0));
                }
            }
        } else {
            proof {
                assert(new_text@ =~= Seq::<u8>::empty());
                assert(lines_of_text(new_text@) == Seq::<Seq<u8>>::empty());
                assert(rendered(lines_of_text(new_text@)) =~= Seq::<Seq<u8>>::empty());
                assert(self.doc() =~= old_doc.take(l0) + rendered(lines_of_text(new_text@))
                    + old_doc.skip(l0 + d0));
            }
        }
    }
}

/// Removing the piece that starts at document line `l0` cuts exactly its
/// lines out of the document.
proof fn lemma_removed_piece_doc(
    s: Seq<u8>,
    mem: Seq<Seq<u8>>,
    ps: Seq<Piece>,
    i: int,
    l0: int,
    old_doc: Seq<Seq<u8>>,
    cut: int,
)
    requires
        0 <= i < ps.len(),
        pieces_total(ps.take(i)) == l0,
        0 <= cut,
        0 <= l0,
        l0 + cut <= old_doc.len(),
        doc_of(s, mem, ps) == old_doc.take(l0) + old_doc.skip(l0 + cut),
    ensures
        doc_of(s, mem, ps.take(i) + ps.skip(i + 1)) == old_doc.take(l0) + old_doc.skip(
            l0 + cut + ps[i].count(),
        ),
        l0 + cut + ps[i].count() <= old_doc.len(),
{
    let cur = doc_of(s, mem, ps);
    lemma_doc_take_skip(s, mem, ps, i);
    lemma_doc_take_skip(s, mem, ps, i + 1);
    lemma_doc_len(s, mem, ps.take(i));
    lemma_doc_len(s, mem, ps.take(i + 1));
    lemma_doc_len(s, mem, ps);
    lemma_pt_take_succ(ps, i);
    lemma_doc_concat(s, mem, ps.take(i), ps.skip(i + 1));
    assert(ps.take(i + 1) =~= ps.take(i) + seq![ps[i]]);
    lemma_doc_concat(s, mem, ps.take(i), seq![ps[i]]);
    lemma_doc_singleton(s, mem, ps[i]);
    let k = ps[i].count() as int;
    // the current document around the removed piece
    assert(doc_of(s, mem, ps.take(i)) =~= cur.take(l0));
    assert(doc_of(s, mem, ps.skip(i + 1)) =~= cur.skip(l0 + k));
    assert(cur.take(l0) =~= old_doc.take(l0));
    assert(cur.skip(l0 + k) =~= old_doc.skip(l0 + cut + k));
}

} // verus!
