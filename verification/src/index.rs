//! The chunked line index over the original file: fixed-size windows are
//! counted in parallel, the counts are accumulated into per-window line
//! checkpoints, and a logical line is resolved to its byte offset by picking
//! a checkpoint and scanning the remaining terminators.

use vstd::prelude::*;
use vstd::slice::slice_subrange;
use crate::text::{
    is_break, is_term_start, line_start, next_line_start, straddles, term_count_from,
    term_starts_in, terms_ended_by, total_lines_of, lemma_line_start_bounds,
    lemma_line_start_monotone, lemma_line_start_total, lemma_nls_bounds, lemma_nls_within,
    lemma_position_in_line, lemma_skip_nonbreaks, lemma_tcf_eq_tsi, lemma_tsi_front,
    lemma_tsi_le, lemma_tsi_split, lemma_tsi_subrange, CR, LF,
};
use crate::outside::find_first_of;
use rayon::iter::IndexedParallelIterator;
use rayon::iter::ParallelIterator;
use rayon::slice::ParallelSlice;

verus! {

/// The fixed window width of the chunk index.
pub const CHUNK_SIZE: usize = 1048576;

/// A checkpoint: the first line number of the line that contains the first
/// byte of a window.
pub struct ChunkMeta {
    pub byte_offset: usize,
    pub start_line: usize,
}

/// One checkpoint is sound: it sits at its window's first byte and carries
/// the number of terminators that have fully ended by that byte.
pub open spec fn chunk_inv(s: Seq<u8>, c: ChunkMeta, i: int) -> bool {
    &&& c.byte_offset == i * (CHUNK_SIZE as int)
    &&& c.byte_offset < s.len()
    &&& c.start_line == terms_ended_by(s, c.byte_offset as int)
}

/// The whole index is sound: one checkpoint per window, windows covering the
/// byte range exactly.
pub open spec fn chunks_wf(s: Seq<u8>, cs: Seq<ChunkMeta>) -> bool {
    &&& forall|i: int| 0 <= i < cs.len() ==> chunk_inv(s, #[trigger] cs[i], i)
    &&& cs.len() * (CHUNK_SIZE as int) >= s.len()
    &&& (s.len() == 0 ==> cs.len() == 0)
}

/// Count the terminators inside one window, by repeated break search.
pub fn count_window(w: &[u8]) -> (r: usize)
    ensures
        r == term_count_from(w@, 0),
{
    let len = w.len();
    let mut i: usize = 0;
    let mut count: usize = 0;
    proof {
        lemma_tsi_le(w@, 0, w@.len() as int);
    }
    while i < len
        invariant
            i <= len,
            len == w@.len(),
            count <= i,
            count + term_count_from(w@, i as int) == term_count_from(w@, 0),
        decreases len - i,
    {
        let rest = slice_subrange(w, i, len);
        match find_first_of(LF, CR, rest) {
            None => {
                proof {
                    assert forall|k: int| i <= k < len implies !is_break(w@[k]) by {
                        assert(rest@[k - i] != LF && rest@[k - i] != CR);
                    }
                    lemma_skip_nonbreaks(w@, i as int, len as int);
                }
                i = len;
            },
            Some(p) => {
                let pos = i + p;
                proof {
                    assert forall|k: int| i <= k < pos implies !is_break(w@[k]) by {
                        assert(rest@[k - i] != LF && rest@[k - i] != CR);
                    }
                    lemma_skip_nonbreaks(w@, i as int, pos as int);
                    assert(w@[pos as int] == rest@[p as int]);
                }
                if w[pos] == CR && pos + 1 < len && w[pos + 1] == LF {
                    i = pos + 2;
                } else {
                    i = pos + 1;
                }
                count = count + 1;
            },
        }
    }
    count
}

/// Relies on rayon's `par_chunks`, `map` and `collect`: the windows are
/// disjoint `CHUNK_SIZE`-wide spans in order (the last possibly shorter),
/// and collecting the mapped indexed iterator keeps that order, so entry `i`
/// is what the verified `count_window` returns on window `i`.
#[verifier::external_body]
fn window_counts(bytes: &[u8]) -> (r: Vec<usize>)
    ensures
        r@.len() * (CHUNK_SIZE as int) >= bytes@.len(),
        bytes@.len() == 0 ==> r@.len() == 0,
        forall|i: int| 0 <= i < r@.len() ==> #[trigger] (i * (CHUNK_SIZE as int))
            < bytes@.len(),
        forall|i: int| 0 <= i < r@.len() ==> #[trigger] r@[i] == term_count_from(
            bytes@.subrange(
                i * (CHUNK_SIZE as int),
                if (i + 1) * (CHUNK_SIZE as int) <= bytes@.len() {
                    (i + 1) * (CHUNK_SIZE as int)
                } else {
                    bytes@.len() as int
                },
            ),
            0,
        ),
{
    bytes.par_chunks(CHUNK_SIZE).map(|w| count_window(w)).collect()
}

/// Build the chunk index and the total line count of the original.
pub fn build_index(bytes: &[u8]) -> (r: (Vec<ChunkMeta>, usize))
    requires
        bytes@.len() < usize::MAX,
    ensures
        chunks_wf(bytes@, r.0@),
        r.1 == total_lines_of(bytes@),
{
    let s = Ghost(bytes@);
    let counts = window_counts(bytes);
    let n = counts.len();
    let len = bytes.len();
    let mut chunks: Vec<ChunkMeta> = Vec::new();
    let mut current: usize = 0;
    let mut i: usize = 0;
    proof {
        lemma_tsi_le(s@, 0, len as int);
    }
    while i < n
        invariant
            i <= n,
            s@ == bytes@,
            len == s@.len() < usize::MAX,
            n * (CHUNK_SIZE as int) >= len,
            s@.len() == 0 ==> n == 0,
            forall|k: int| 0 <= k < n ==> #[trigger] (k * (CHUNK_SIZE as int)) < len,
            forall|k: int| 0 <= k < n ==> #[trigger] counts@[k] == term_count_from(
                s@.subrange(
                    k * (CHUNK_SIZE as int),
                    if (k + 1) * (CHUNK_SIZE as int) <= len {
                        (k + 1) * (CHUNK_SIZE as int)
                    } else {
                        len as int
                    },
                ),
                0,
            ),
            n == counts@.len(),
            chunks@.len() == i,
            forall|k: int| 0 <= k < i ==> chunk_inv(s@, #[trigger] chunks@[k], k),
            current == term_starts_in(
                s@,
                0,
                if i * (CHUNK_SIZE as int) <= len {
                    i * (CHUNK_SIZE as int)
                } else {
                    len as int
                },
            ),
        decreases n - i,
    {
        let byte_offset = i * CHUNK_SIZE;
        let ghost b = byte_offset as int;
        let ghost e: int = if (i + 1) * (CHUNK_SIZE as int) <= len {
            (i + 1) * (CHUNK_SIZE as int)
        } else {
            len as int
        };
        proof {
            assert(b < len);
            assert(b < e <= len) by {
                assert((i + 1) * (CHUNK_SIZE as int) == i * (CHUNK_SIZE as int) + (
                CHUNK_SIZE as int)) by (nonlinear_arith);
            }
            // the window's own count, seen from the whole sequence
            lemma_tcf_eq_tsi(s@.subrange(b, e), 0);
            lemma_tsi_subrange(s@, b, e, 0, e - b);
            lemma_tsi_le(s@, b, e);
            lemma_tsi_split(s@, 0, b, e);
        }
        let straddle: bool = if byte_offset > 0 && byte_offset < len {
            bytes[byte_offset - 1] == CR && bytes[byte_offset] == LF
        } else {
            false
        };
        proof {
            assert(straddle == straddles(s@, b));
            if straddle {
                assert(term_starts_in(s@, b - 1, b - 1) == 0);
                assert(term_starts_in(s@, b - 1, b) == term_starts_in(s@, b - 1, b - 1)
                    + if is_term_start(s@, b - 1) {
                    1nat
                } else {
                    0nat
                });
                lemma_tsi_split(s@, 0, b - 1, b);
            }
            lemma_tsi_le(s@, 0, e);
        }
        if straddle {
            current = current - 1;
        }
        chunks.push(ChunkMeta { byte_offset, start_line: current });
        proof {
            assert(current + counts@[i as int] == term_starts_in(s@, 0, e));
        }
        current = current + counts[i];
        i = i + 1;
        proof {
            assert(chunk_inv(s@, chunks@[i - 1], i - 1));
            assert(current == term_starts_in(s@, 0, e));
        }
    }
    proof {
        if len > 0 {
            assert(n * (CHUNK_SIZE as int) >= len);
            assert(current == term_starts_in(s@, 0, len as int));
        }
        lemma_tcf_eq_tsi(s@, 0);
    }
    let total = if len > 0 && bytes[len - 1] != LF && bytes[len - 1] != CR {
        current + 1
    } else {
        current
    };
    (chunks, total)
}

/// Resolve a logical line of the original to the byte offset of its first
/// byte; lines at or past the total resolve to the end of the mapping.
pub fn resolve_line(bytes: &[u8], chunks: &Vec<ChunkMeta>, total: usize, line: usize) -> (r: usize)
    requires
        chunks_wf(bytes@, chunks@),
        total == total_lines_of(bytes@),
    ensures
        r == line_start(bytes@, line as int),
{
    let s = Ghost(bytes@);
    let len = bytes.len();
    proof {
        lemma_line_start_total(s@, line as int);
    }
    if line >= total {
        return len;
    }
    // the file is non-empty, so at least one checkpoint exists
    assert(chunks@.len() > 0);
    // the first index whose checkpoint line is at or past the target
    let mut lo: usize = 0;
    let mut hi: usize = chunks.len();
    while lo < hi
        invariant
            lo <= hi <= chunks@.len(),
            lo == 0 || chunks@[lo - 1].start_line < line,
        decreases hi - lo,
    {
        let mid = lo + (hi - lo) / 2;
        if chunks[mid].start_line < line {
            lo = mid + 1;
        } else {
            hi = mid;
        }
    }
    let idx = if lo == 0 {
        0
    } else {
        lo - 1
    };
    let t = chunks[idx].start_line;
    let mut offset = chunks[idx].byte_offset;
    let mut skip = line - t;
    proof {
        assert(chunk_inv(s@, chunks@[idx as int], idx as int));
        lemma_position_in_line(s@, offset as int);
        lemma_line_start_bounds(s@, t as int);
        if idx > 0 {
            assert(t < line);
        } else {
            assert(0 * (CHUNK_SIZE as int) == 0);
            assert(chunks@[0].byte_offset == 0);
            assert(term_starts_in(s@, 0, 0) == 0);
            assert(t == 0);
        }
        if skip == 0 {
            assert(line == 0 && offset == 0);
            lemma_nls_bounds(s@, 0);
        }
    }
    while skip > 0
        invariant
            s@ == bytes@,
            len == s@.len(),
            skip <= line < total,
            total == total_lines_of(s@),
            offset <= len,
            line_start(s@, line - skip) <= offset < next_line_start(
                s@,
                line_start(s@, line - skip),
            ),
            skip == 0 ==> offset == line_start(s@, line as int),
        decreases skip,
    {
        let ghost cur = line - skip;
        proof {
            lemma_line_start_bounds(s@, cur);
            lemma_line_start_total(s@, cur);
            lemma_nls_bounds(s@, line_start(s@, cur));
        }
        let rest = slice_subrange(bytes, offset, len);
        match find_first_of(LF, CR, rest) {
            Some(p) => {
                let pos = offset + p;
                proof {
                    assert forall|k: int| offset <= k < pos implies !is_break(s@[k]) by {
                        assert(rest@[k - offset] != LF && rest@[k - offset] != CR);
                    }
                    lemma_skip_nonbreaks(s@, offset as int, pos as int);
                    assert(s@[pos as int] == rest@[p as int]);
                    lemma_nls_within(s@, line_start(s@, cur), offset as int);
                }
                if bytes[pos] == CR && pos + 1 < len && bytes[pos + 1] == LF {
                    offset = pos + 2;
                } else {
                    offset = pos + 1;
                }
                proof {
                    // the scan from anywhere in this line ends at the next
                    // line's start
                    assert(next_line_start(s@, pos as int) == offset);
                    assert(offset == line_start(s@, cur + 1));
                    lemma_line_start_total(s@, cur + 1);
                    lemma_line_start_bounds(s@, cur + 1);
                    lemma_nls_bounds(s@, line_start(s@, cur + 1));
                }
                skip = skip - 1;
            },
            None => {
                proof {
                    assert forall|k: int| offset <= k < len implies !is_break(s@[k]) by {
                        assert(rest@[k - offset] != LF && rest@[k - offset] != CR);
                    }
                    lemma_skip_nonbreaks(s@, offset as int, len as int);
                    lemma_nls_within(s@, line_start(s@, cur), offset as int);
                    assert(next_line_start(s@, len as int) == len);
                    assert(line_start(s@, cur + 1) == len);
                    lemma_line_start_monotone(s@, cur + 1, line as int);
                    lemma_line_start_bounds(s@, line as int);
                    lemma_line_start_total(s@, line as int);
                    assert(false);
                }
                skip = 0;
            },
        }
    }
    offset
}

} // verus!
