//! The engine: a read-only mapped original, its chunk index, the piece
//! table, the append-only edit buffer, and the scratch block buffer.

use vstd::prelude::*;
use crate::index::{build_index, chunks_wf, resolve_line, ChunkMeta};
use crate::outside::{mapped_bytes, mapped_slice};
use crate::piece::{
    doc_of, lemma_doc_concat, lemma_doc_len, lemma_doc_singleton, lemma_doc_take_skip,
    lemma_pt_concat, lemma_pt_singleton, lemma_pt_take_skip, lemma_pt_take_succ, orig_line,
    piece_doc, piece_ok, pieces_total, Piece,
};
use crate::text::{line_start, lemma_line_start_monotone, render_line, total_lines_of, LF};
use vstd::slice::slice_subrange;

verus! {

pub struct LogEngine {
    pub mmap: memmap2::Mmap,
    pub chunks: Vec<ChunkMeta>,
    pub original_total_lines: usize,
    pub pieces: Vec<Piece>,
    pub memory_buffer: Vec<Vec<u8>>,
    pub last_block: Vec<u8>,
}

impl LogEngine {
    /// The bytes of the original file.
    pub open spec fn orig(self) -> Seq<u8> {
        mapped_bytes(self.mmap)
    }

    /// The edit buffer's lines.
    pub open spec fn mem(self) -> Seq<Seq<u8>> {
        self.memory_buffer@.map_values(|v: Vec<u8>| v@)
    }

    /// The current logical document, line by line, each line rendered with
    /// its final LF.
    pub open spec fn doc(self) -> Seq<Seq<u8>> {
        doc_of(self.orig(), self.mem(), self.pieces@)
    }

    /// The logical line count.
    pub open spec fn total(self) -> nat {
        pieces_total(self.pieces@)
    }

    /// The engine's invariant: a sound chunk index, the recorded line count
    /// of the original, pieces inside their stores, LF-free edit-buffer
    /// lines, and a total that a machine word can hold.
    pub open spec fn wf(self) -> bool {
        &&& self.original_total_lines == total_lines_of(self.orig())
        &&& chunks_wf(self.orig(), self.chunks@)
        &&& self.orig().len() < usize::MAX
        &&& forall|k: int|
            0 <= k < self.pieces@.len() ==> piece_ok(
                #[trigger] self.pieces@[k],
                self.original_total_lines as nat,
                self.mem().len(),
            )
        &&& forall|j: int, b: int|
            0 <= j < self.mem().len() && 0 <= b < self.mem()[j].len() ==> self.mem()[j][b] != LF
        &&& self.mem().len() <= usize::MAX
        &&& self.total() <= usize::MAX
    }

    /// Build an engine over a mapping: index it, and cover the whole
    /// original with one piece.
    pub fn from_mapping(m: memmap2::Mmap) -> (r: LogEngine)
        requires
            mapped_bytes(m).len() < usize::MAX,
        ensures
            r.wf(),
            r.orig() == mapped_bytes(m),
            r.mem().len() == 0,
            r.last_block@.len() == 0,
            r.total() == total_lines_of(mapped_bytes(m)),
            r.doc() == Seq::new(
                total_lines_of(mapped_bytes(m)),
                |l: int| render_line(orig_line(mapped_bytes(m), l)),
            ),
    {
        let bytes = mapped_slice(&m);
        let (chunks, total) = build_index(bytes);
        let mut pieces: Vec<Piece> = Vec::new();
        if total > 0 {
            pieces.push(Piece::Original { start_line: 0, line_count: total });
        }
        let r = LogEngine {
            mmap: m,
            chunks,
            original_total_lines: total,
            pieces,
            memory_buffer: Vec::new(),
            last_block: Vec::new(),
        };
        proof {
            let s = r.orig();
            if total > 0 {
                let p = Piece::Original { start_line: 0, line_count: total };
                assert(r.pieces@ =~= seq![p]);
                lemma_pt_singleton(p);
                lemma_doc_singleton(s, r.mem(), p);
                assert(piece_doc(s, r.mem(), p) =~= Seq::new(
                    total_lines_of(s),
                    |l: int| render_line(orig_line(s, l)),
                ));
            } else {
                assert(r.doc() =~= Seq::new(
                    total_lines_of(s),
                    |l: int| render_line(orig_line(s, l)),
                ));
            }
        }
        r
    }

    /// The byte offset in the original where original line `line` starts.
    pub fn line_to_byte_offset(&self, line: usize) -> (r: usize)
        requires
            self.wf(),
        ensures
            r == line_start(self.orig(), line as int),
    {
        let bytes = mapped_slice(&self.mmap);
        resolve_line(bytes, &self.chunks, self.original_total_lines, line)
    }

    /// The byte span of `line_count` original lines starting at original
    /// line `start_line`.
    pub fn get_original_bytes(&self, start_line: usize, line_count: usize) -> (r: &[u8])
        requires
            self.wf(),
            start_line + line_count <= usize::MAX,
        ensures
            r@ == self.orig().subrange(
                line_start(self.orig(), start_line as int),
                line_start(self.orig(), start_line as int + line_count as int),
            ),
    {
        let bytes = mapped_slice(&self.mmap);
        if line_count == 0 {
            proof {
                crate::text::lemma_line_start_bounds(self.orig(), start_line as int);
                assert(self.orig().subrange(
                    line_start(self.orig(), start_line as int),
                    line_start(self.orig(), start_line as int),
                ) =~= Seq::<u8>::empty());
            }
            let empty = slice_subrange(bytes, 0, 0);
            proof {
                assert(empty@ =~= self.orig().subrange(
                    line_start(self.orig(), start_line as int),
                    line_start(self.orig(), start_line as int),
                ));
            }
            return empty;
        }
        let start = self.line_to_byte_offset(start_line);
        let end = self.line_to_byte_offset(start_line + line_count);
        proof {
            lemma_line_start_monotone(self.orig(), start_line as int, start_line as int
                + line_count as int);
            crate::text::lemma_line_start_bounds(self.orig(), start_line as int + line_count as int);
        }
        slice_subrange(bytes, start, end)
    }

    /// The logical line count: the sum of the pieces' line counts.
    pub fn total_lines(&self) -> (r: usize)
        requires
            self.wf(),
        ensures
            r as nat == self.total(),
    {
        let n = self.pieces.len();
        let mut sum: usize = 0;
        let mut i: usize = 0;
        while i < n
            invariant
                i <= n,
                n == self.pieces@.len(),
                sum as nat == pieces_total(self.pieces@.take(i as int)),
                self.total() <= usize::MAX,
            decreases n - i,
        {
            proof {
                lemma_pt_take_succ(self.pieces@, i as int);
                lemma_pt_take_skip(self.pieces@, i as int + 1);
                assert(pieces_total(self.pieces@.take(i as int + 1)) <= self.total());
            }
            sum = sum + self.pieces[i].line_count();
            i = i + 1;
        }
        proof {
            assert(self.pieces@.take(n as int) =~= self.pieces@);
        }
        sum
    }

    /// Locate the piece holding a logical line: the piece's index and the
    /// line's offset inside it; one past the last piece when the line is at
    /// or past the total.
    pub fn find_piece_idx(&self, logical_line: usize) -> (r: (usize, usize))
        requires
            self.wf(),
        ensures
            logical_line < self.total() ==> r.0 < self.pieces@.len() && pieces_total(
                self.pieces@.take(r.0 as int),
            ) <= logical_line && r.1 == logical_line - pieces_total(
                self.pieces@.take(r.0 as int),
            ) && (r.1 as nat) < self.pieces@[r.0 as int].count(),
            logical_line >= self.total() ==> r.0 == self.pieces@.len() && r.1 == 0,
    {
        let n = self.pieces.len();
        let mut current: usize = 0;
        let mut i: usize = 0;
        while i < n
            invariant
                i <= n,
                n == self.pieces@.len(),
                self.wf(),
                current as nat == pieces_total(self.pieces@.take(i as int)),
                current <= logical_line,
            decreases n - i,
        {
            proof {
                lemma_pt_take_succ(self.pieces@, i as int);
                lemma_pt_take_skip(self.pieces@, i as int + 1);
            }
            let count = self.pieces[i].line_count();
            if logical_line < current + count {
                proof {
                    lemma_pt_take_skip(self.pieces@, i as int);
                }
                return (i, logical_line - current);
            }
            current = current + count;
            i = i + 1;
        }
        proof {
            assert(self.pieces@.take(n as int) =~= self.pieces@);
        }
        (n, 0)
    }

    /// Split a piece in two at an offset inside it; out-of-range arguments
    /// leave the table unchanged.  The document is unchanged either way.
    pub fn split_piece_at(&mut self, piece_idx: usize, offset: usize)
        requires
            old(self).wf(),
        ensures
            final(self).wf(),
            final(self).mmap == old(self).mmap,
            final(self).chunks == old(self).chunks,
            final(self).original_total_lines == old(self).original_total_lines,
            final(self).memory_buffer == old(self).memory_buffer,
            final(self).last_block == old(self).last_block,
            final(self).doc() == old(self).doc(),
            final(self).total() == old(self).total(),
            ({
                let eff = piece_idx < old(self).pieces@.len() && 0 < offset < old(
                    self,
                ).pieces@[piece_idx as int].count();
                if eff {
                    final(self).pieces@.len() == old(self).pieces@.len() + 1 && (forall|k: int|
                        0 <= k < piece_idx ==> final(self).pieces@[k] == old(self).pieces@[k]) && (
                    forall|k: int|
                        piece_idx + 1 < k < final(self).pieces@.len() ==> final(self).pieces@[k] == old(
                            self,
                        ).pieces@[k - 1]) && final(self).pieces@[piece_idx as int].count() == offset
                        && final(self).pieces@[piece_idx as int + 1].count() == old(
                        self,
                    ).pieces@[piece_idx as int].count() - offset && pieces_total(
                        final(self).pieces@.take(piece_idx as int + 1),
                    ) == pieces_total(old(self).pieces@.take(piece_idx as int)) + offset
                } else {
                    final(self).pieces@ == old(self).pieces@
                }
            }),
    {
        if offset == 0 || piece_idx >= self.pieces.len() {
            return ;
        }
        let piece = self.pieces[piece_idx];
        if offset >= piece.line_count() {
            return ;
        }
        let ghost old_ps = self.pieces@;
        let ghost s = self.orig();
        let ghost mem = self.mem();
        proof {
            assert(piece_ok(
                self.pieces@[piece_idx as int],
                self.original_total_lines as nat,
                self.mem().len(),
            ));
        }
        let (left, right) = match piece {
            Piece::Original { start_line, line_count } => {
                (
                    Piece::Original { start_line, line_count: offset },
                    Piece::Original {
                        start_line: start_line + offset,
                        line_count: line_count - offset,
                    },
                )
            },
            Piece::Memory { start_idx, line_count } => {
                (
                    Piece::Memory { start_idx, line_count: offset },
                    Piece::Memory { start_idx: start_idx + offset, line_count: line_count - offset },
                )
            },
        };
        self.pieces.remove(piece_idx);
        self.pieces.insert(piece_idx, right);
        self.pieces.insert(piece_idx, left);
        proof {
            let i = piece_idx as int;
            assert(self.pieces@ =~= old_ps.take(i) + seq![left, right] + old_ps.skip(i + 1));
            assert(old_ps =~= old_ps.take(i) + seq![piece] + old_ps.skip(i + 1));
            // the two halves carry exactly the lines of the one piece
            assert(piece_doc(s, mem, left) + piece_doc(s, mem, right) =~= piece_doc(s, mem, piece));
            assert(seq![left, right] =~= seq![left] + seq![right]);
            lemma_doc_concat(s, mem, old_ps.take(i) + seq![left, right], old_ps.skip(i + 1));
            lemma_doc_concat(s, mem, old_ps.take(i), seq![left, right]);
            lemma_doc_concat(s, mem, seq![left], seq![right]);
            lemma_doc_singleton(s, mem, left);
            lemma_doc_singleton(s, mem, right);
            lemma_doc_concat(s, mem, old_ps.take(i) + seq![piece], old_ps.skip(i + 1));
            lemma_doc_concat(s, mem, old_ps.take(i), seq![piece]);
            lemma_doc_singleton(s, mem, piece);
            assert(self.doc() =~= old(self).doc());
            lemma_pt_concat(old_ps.take(i) + seq![left, right], old_ps.skip(i + 1));
            lemma_pt_concat(old_ps.take(i), seq![left, right]);
            lemma_pt_concat(seq![left], seq![right]);
            lemma_pt_singleton(left);
            lemma_pt_singleton(right);
            lemma_pt_concat(old_ps.take(i) + seq![piece], old_ps.skip(i + 1));
            lemma_pt_concat(old_ps.take(i), seq![piece]);
            lemma_pt_singleton(piece);
            assert(self.pieces@.take(i + 1) =~= old_ps.take(i) + seq![left]);
            lemma_pt_concat(old_ps.take(i), seq![left]);
        }
    }
}

} // verus!
