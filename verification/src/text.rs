//! The line structure of a byte sequence.
//!
//! A terminator is any LF, or any CR not immediately followed by LF; a CRLF
//! pair counts as a single terminator.  These spec functions fix, for a byte
//! sequence, where each logical line starts, how many terminators a scan
//! finds, and how a flat text is decoded into lines; the lemmas connect
//! scanning, per-position counting, and line starts.

use vstd::prelude::*;

verus! {

pub const LF: u8 = 10;
pub const CR: u8 = 13;

pub open spec fn is_break(b: u8) -> bool {
    b == LF || b == CR
}

/// The offset just past the first terminator at or after `i`, or the length
/// of `s` when no terminator follows.
pub open spec fn next_line_start(s: Seq<u8>, i: int) -> int
    decreases s.len() - i when 0 <= i <= s.len()
{
    if i >= s.len() {
        s.len() as int
    } else if s[i] == LF {
        i + 1
    } else if s[i] == CR {
        if i + 1 < s.len() && s[i + 1] == LF {
            i + 2
        } else {
            i + 1
        }
    } else {
        next_line_start(s, i + 1)
    }
}

/// How many terminators a scan from `i` finds before the end of `s`.
pub open spec fn term_count_from(s: Seq<u8>, i: int) -> nat
    decreases s.len() - i when 0 <= i
{
    if i >= s.len() {
        0
    } else if s[i] == LF {
        1 + term_count_from(s, i + 1)
    } else if s[i] == CR {
        if i + 1 < s.len() && s[i + 1] == LF {
            1 + term_count_from(s, i + 2)
        } else {
            1 + term_count_from(s, i + 1)
        }
    } else {
        term_count_from(s, i + 1)
    }
}

/// The byte offset of the first byte of line `l`; the length of `s` when
/// `l` is at or past the number of lines.
pub open spec fn line_start(s: Seq<u8>, l: int) -> int
    decreases l when l >= 0
{
    if l <= 0 {
        0
    } else {
        next_line_start(s, line_start(s, l - 1))
    }
}

/// How many lines `s` holds: one per terminator, plus a final unterminated
/// line when the last byte is not itself part of a terminator.
pub open spec fn total_lines_of(s: Seq<u8>) -> nat {
    term_count_from(s, 0) + if s.len() > 0 && !is_break(s[s.len() - 1]) {
        1nat
    } else {
        0nat
    }
}

/// A terminator starts at `i`: any CR, or an LF not preceded by CR.
pub open spec fn is_term_start(s: Seq<u8>, i: int) -> bool {
    s[i] == CR || (s[i] == LF && (i == 0 || s[i - 1] != CR))
}

/// How many terminator starts lie in `[a, b)`.
pub open spec fn term_starts_in(s: Seq<u8>, a: int, b: int) -> nat
    decreases b - a when a <= b
{
    if a >= b {
        0
    } else {
        term_starts_in(s, a, b - 1) + if is_term_start(s, b - 1) {
            1nat
        } else {
            0nat
        }
    }
}

/// A CRLF pair straddles position `p`: its CR lies just before `p`, its LF
/// at `p`.
pub open spec fn straddles(s: Seq<u8>, p: int) -> bool {
    0 < p < s.len() && s[p - 1] == CR && s[p] == LF
}

/// How many terminators have fully ended by position `p`: the line number of
/// the line that position `p` belongs to.
pub open spec fn terms_ended_by(s: Seq<u8>, p: int) -> int {
    term_starts_in(s, 0, p) - if straddles(s, p) {
        1int
    } else {
        0int
    }
}

pub proof fn lemma_nls_bounds(s: Seq<u8>, i: int)
    requires
        0 <= i <= s.len(),
    ensures
        i <= next_line_start(s, i) <= s.len(),
        i < s.len() ==> i < next_line_start(s, i),
    decreases s.len() - i,
{
    if i < s.len() && s[i] != LF && s[i] != CR {
        lemma_nls_bounds(s, i + 1);
    }
}

pub proof fn lemma_line_start_bounds(s: Seq<u8>, l: int)
    requires
        l >= 0,
    ensures
        0 <= line_start(s, l) <= s.len(),
    decreases l,
{
    if l > 0 {
        lemma_line_start_bounds(s, l - 1);
        lemma_nls_bounds(s, line_start(s, l - 1));
    }
}

pub proof fn lemma_line_start_monotone(s: Seq<u8>, l: int, m: int)
    requires
        0 <= l <= m,
    ensures
        line_start(s, l) <= line_start(s, m),
    decreases m - l,
{
    if l < m {
        lemma_line_start_monotone(s, l, m - 1);
        lemma_line_start_bounds(s, m - 1);
        lemma_nls_bounds(s, line_start(s, m - 1));
    }
}

/// Splitting a count of terminator starts at a midpoint.
pub proof fn lemma_tsi_split(s: Seq<u8>, a: int, b: int, c: int)
    requires
        a <= b <= c,
    ensures
        term_starts_in(s, a, c) == term_starts_in(s, a, b) + term_starts_in(s, b, c),
    decreases c - b,
{
    if b < c {
        lemma_tsi_split(s, a, b, c - 1);
    }
}

/// Unfolding a count of terminator starts from the front.
pub proof fn lemma_tsi_front(s: Seq<u8>, a: int, b: int)
    requires
        a < b,
    ensures
        term_starts_in(s, a, b) == term_starts_in(s, a + 1, b) + if is_term_start(s, a) {
            1nat
        } else {
            0nat
        },
{
    lemma_tsi_split(s, a, a + 1, b);
    assert(term_starts_in(s, a, a) == 0);
    assert(term_starts_in(s, a, a + 1) == term_starts_in(s, a, a) + if is_term_start(s, a) {
        1nat
    } else {
        0nat
    });
}

/// A scan that starts outside any CRLF pair counts exactly the terminator
/// starts it passes.
pub proof fn lemma_tcf_eq_tsi(s: Seq<u8>, i: int)
    requires
        0 <= i <= s.len(),
        !straddles(s, i),
    ensures
        term_count_from(s, i) == term_starts_in(s, i, s.len() as int),
    decreases s.len() - i,
{
    if i < s.len() {
        if s[i] == LF {
            assert(is_term_start(s, i));
            lemma_tcf_eq_tsi(s, i + 1);
            lemma_tsi_front(s, i, s.len() as int);
        } else if s[i] == CR {
            if i + 1 < s.len() && s[i + 1] == LF {
                assert(straddles(s, i + 2) == false);
                lemma_tcf_eq_tsi(s, i + 2);
                lemma_tsi_front(s, i, s.len() as int);
                if i + 1 < s.len() {
                    lemma_tsi_front(s, i + 1, s.len() as int);
                }
                assert(!is_term_start(s, i + 1));
            } else {
                lemma_tcf_eq_tsi(s, i + 1);
                lemma_tsi_front(s, i, s.len() as int);
            }
        } else {
            lemma_tcf_eq_tsi(s, i + 1);
            lemma_tsi_front(s, i, s.len() as int);
        }
    }
}

/// Terminator starts of a subrange, seen from the enclosing sequence: they
/// agree except that a CRLF straddling the left edge contributes a start to
/// the subrange and none to the whole.
pub proof fn lemma_tsi_subrange(s: Seq<u8>, a: int, b: int, j: int, k: int)
    requires
        0 <= a <= b <= s.len(),
        0 <= j <= k <= b - a,
    ensures
        term_starts_in(s.subrange(a, b), j, k) == term_starts_in(s, a + j, a + k) + if j == 0 && k
            > 0 && straddles(s, a) {
            1nat
        } else {
            0nat
        },
    decreases k - j,
{
    let w = s.subrange(a, b);
    if j < k {
        lemma_tsi_subrange(s, a, b, j + 1, k);
        lemma_tsi_front(w, j, k);
        lemma_tsi_front(s, a + j, a + k);
        if j == 0 {
            if straddles(s, a) {
                assert(w[0] == s[a]);
                assert(is_term_start(w, 0));
                assert(!is_term_start(s, a));
            } else {
                assert(is_term_start(w, 0) == is_term_start(s, a));
            }
        } else {
            assert(w[j] == s[a + j] && w[j - 1] == s[a + j - 1]);
            assert(is_term_start(w, j) == is_term_start(s, a + j));
        }
    }
}

/// How the per-position line number changes when one more byte is taken in.
pub proof fn lemma_ends_by_step(s: Seq<u8>, p: int)
    requires
        0 <= p < s.len(),
    ensures
        terms_ended_by(s, p + 1) == terms_ended_by(s, p) + if s[p] == LF || (s[p] == CR && !(p + 1
            < s.len() && s[p + 1] == LF)) {
            1int
        } else {
            0int
        },
{
    assert(term_starts_in(s, 0, p + 1) == term_starts_in(s, 0, p) + if is_term_start(s, p) {
        1nat
    } else {
        0nat
    });
}

/// Every position lies in the territory of the line it belongs to: at or
/// after that line's start, before the next line's start.
pub proof fn lemma_position_in_line(s: Seq<u8>, p: int)
    requires
        0 <= p < s.len(),
    ensures
        0 <= terms_ended_by(s, p),
        line_start(s, terms_ended_by(s, p)) <= p,
        p < next_line_start(s, line_start(s, terms_ended_by(s, p))),
    decreases p,
{
    if p == 0 {
        lemma_nls_bounds(s, 0);
    } else {
        lemma_position_in_line(s, p - 1);
        lemma_ends_by_step(s, p - 1);
        let t0 = terms_ended_by(s, p - 1);
        let t1 = terms_ended_by(s, p);
        let ls0 = line_start(s, t0);
        lemma_line_start_bounds(s, t0);
        if t1 == t0 + 1 {
            // a terminator ends exactly at p: line t0 + 1 starts at p
            assert(s[p - 1] == LF || (s[p - 1] == CR && s[p] != LF));
            lemma_nls_at(s, ls0, p - 1);
            assert(line_start(s, t1) == next_line_start(s, ls0));
            lemma_nls_bounds(s, p);
        } else {
            assert(t1 == t0);
            // no terminator ends at p, so the scan from ls0 continues past p
            lemma_nls_past(s, ls0, p - 1);
        }
    }
}

/// If the scan from `i` has not passed position `p` and no terminator ends
/// at `p + 1`... helper: when `i <= p < next_line_start(s, i)` and the byte
/// at `p` does not end a terminator at `p + 1`, the scan also passes `p + 1`.
proof fn lemma_nls_past(s: Seq<u8>, i: int, p: int)
    requires
        0 <= i <= p,
        p + 1 < s.len(),
        p < next_line_start(s, i),
        !(s[p] == LF || (s[p] == CR && !(p + 1 < s.len() && s[p + 1] == LF))),
    ensures
        p + 1 < next_line_start(s, i),
    decreases p - i,
{
    if i < p {
        if s[i] == LF {
            assert(next_line_start(s, i) == i + 1);
            assert(false);
        } else if s[i] == CR {
            assert(next_line_start(s, i) <= i + 2);
            assert(false);
        } else {
            lemma_nls_past(s, i + 1, p);
        }
    } else {
        // i == p: either a CR followed by LF (scan stops at p + 2), or an
        // ordinary byte (scan continues past p + 1)
        if s[p] == CR {
            assert(next_line_start(s, i) == p + 2);
        } else {
            assert(next_line_start(s, p) == next_line_start(s, p + 1));
            lemma_nls_bounds(s, p + 1);
        }
    }
}

/// When the byte at `p` ends a terminator at `p + 1` and the scan from `i`
/// had not finished before `p`, the scan stops exactly at `p + 1`.
proof fn lemma_nls_at(s: Seq<u8>, i: int, p: int)
    requires
        0 <= i <= p < s.len(),
        p < next_line_start(s, i),
        s[p] == LF || (s[p] == CR && !(p + 1 < s.len() && s[p + 1] == LF)),
    ensures
        next_line_start(s, i) == p + 1,
    decreases p - i,
{
    if i < p {
        if s[i] == LF {
            assert(next_line_start(s, i) == i + 1);
            assert(false);
        } else if s[i] == CR {
            if i + 1 < s.len() && s[i + 1] == LF {
                // the scan stops at i + 2, so p == i + 1: the LF of this pair
                assert(next_line_start(s, i) == i + 2);
                assert(p == i + 1);
            } else {
                assert(next_line_start(s, i) == i + 1);
                assert(false);
            }
        } else {
            lemma_nls_at(s, i + 1, p);
        }
    }
}

/// The scan from a position on finds one terminator fewer than the scan
/// from the start of its line... relates `term_count_from` across one
/// terminator: after consuming the first terminator the count drops by one.
pub proof fn lemma_tcf_nls(s: Seq<u8>, i: int)
    requires
        0 <= i <= s.len(),
        term_count_from(s, i) > 0,
    ensures
        term_count_from(s, next_line_start(s, i)) == term_count_from(s, i) - 1,
        next_line_start(s, i) <= s.len(),
    decreases s.len() - i,
{
    lemma_nls_bounds(s, i);
    if i < s.len() && s[i] != LF && s[i] != CR {
        lemma_tcf_nls(s, i + 1);
    }
}

/// A scan that finds no terminator has reached past every break.
pub proof fn lemma_tcf_zero(s: Seq<u8>, i: int, j: int)
    requires
        0 <= i <= j < s.len(),
        term_count_from(s, i) == 0,
    ensures
        !is_break(s[j]),
    decreases j - i,
{
    if i < j {
        lemma_tcf_zero(s, i + 1, j);
    }
}

/// The scan state at the start of line `l`: the terminators still ahead.
pub proof fn lemma_tcf_at_line_start(s: Seq<u8>, l: int)
    requires
        0 <= l <= term_count_from(s, 0),
    ensures
        term_count_from(s, line_start(s, l)) == term_count_from(s, 0) - l,
        0 <= line_start(s, l) <= s.len(),
    decreases l,
{
    lemma_line_start_bounds(s, l);
    if l > 0 {
        lemma_tcf_at_line_start(s, l - 1);
        lemma_tcf_nls(s, line_start(s, l - 1));
    }
}

/// If the scan from `i` stops at the very end, the final byte is a break
/// (provided the scan found some terminator).
proof fn lemma_nls_end_break(s: Seq<u8>, i: int)
    requires
        0 <= i < s.len(),
        term_count_from(s, i) > 0,
        next_line_start(s, i) == s.len(),
    ensures
        is_break(s[s.len() - 1]),
    decreases s.len() - i,
{
    if s[i] == LF {
        assert(next_line_start(s, i) == i + 1);
    } else if s[i] == CR {
        if i + 1 < s.len() && s[i + 1] == LF {
            assert(next_line_start(s, i) == i + 2);
        } else {
            assert(next_line_start(s, i) == i + 1);
        }
    } else if i + 1 < s.len() {
        lemma_nls_end_break(s, i + 1);
    } else {
        assert(term_count_from(s, i) == term_count_from(s, i + 1));
        assert(false);
    }
}

/// Line starts below the total are strictly inside the sequence; at or past
/// the total they sit at the end.
pub proof fn lemma_line_start_total(s: Seq<u8>, l: int)
    requires
        l >= 0,
    ensures
        l < total_lines_of(s) ==> line_start(s, l) < s.len(),
        l >= total_lines_of(s) ==> line_start(s, l) == s.len(),
    decreases l,
{
    let tc = term_count_from(s, 0) as int;
    let total = total_lines_of(s) as int;
    lemma_line_start_bounds(s, l);
    if l < total {
        if l < tc {
            lemma_tcf_at_line_start(s, l);
            // a terminator remains ahead, so the start is a real position
            assert(term_count_from(s, line_start(s, l)) > 0);
            if line_start(s, l) >= s.len() {
                assert(term_count_from(s, line_start(s, l)) == 0);
            }
        } else {
            // the final unterminated line
            assert(l == tc && s.len() > 0 && !is_break(s[s.len() - 1]));
            lemma_tcf_at_line_start(s, l);
            if l == 0 {
            } else {
                if line_start(s, l) == s.len() {
                    lemma_tcf_at_line_start(s, l - 1);
                    lemma_nls_end_break(s, line_start(s, l - 1));
                    assert(false);
                }
            }
        }
    } else {
        if l == total {
            lemma_tcf_at_line_start(s, tc);
            if total == tc {
                // ends with a terminator (or is empty): scanning past the
                // last terminator reaches the end
                if l == 0 {
                    assert(s.len() == 0 || is_break(s[s.len() - 1]));
                    assert(tc == 0);
                    if s.len() > 0 {
                        lemma_tcf_zero(s, 0, s.len() - 1);
                        assert(false);
                    }
                } else {
                    lemma_tcf_at_line_start(s, tc - 1);
                    lemma_tcf_nls(s, line_start(s, tc - 1));
                    if line_start(s, tc) < s.len() {
                        lemma_tcf_zero(s, line_start(s, tc), s.len() - 1);
                        assert(!is_break(s[s.len() - 1]));
                        assert(total == tc + 1);
                        assert(false);
                    }
                }
            } else {
                // total == tc + 1: line tc is the unterminated final line
                assert(total == tc + 1 && l == tc + 1);
                lemma_tcf_at_line_start(s, tc);
                if line_start(s, tc + 1) < s.len() {
                    lemma_line_start_bounds(s, tc);
                    lemma_nls_bounds(s, line_start(s, tc));
                    if line_start(s, tc) < s.len() {
                        lemma_tcf_zero_nls(s, line_start(s, tc));
                    }
                }
            }
        } else {
            lemma_line_start_total(s, l - 1);
            assert(line_start(s, l - 1) == s.len());
        }
    }
}

/// A count of terminator starts never exceeds the width of its range.
pub proof fn lemma_tsi_le(s: Seq<u8>, a: int, b: int)
    requires
        a <= b,
    ensures
        term_starts_in(s, a, b) <= b - a,
    decreases b - a,
{
    if a < b {
        lemma_tsi_le(s, a, b - 1);
    }
}

/// Bytes that are no breaks neither end a scan nor count.
pub proof fn lemma_skip_nonbreaks(s: Seq<u8>, i: int, j: int)
    requires
        0 <= i <= j <= s.len(),
        forall|k: int| i <= k < j ==> !is_break(s[k]),
    ensures
        next_line_start(s, i) == next_line_start(s, j),
        term_count_from(s, i) == term_count_from(s, j),
    decreases j - i,
{
    if i < j {
        lemma_skip_nonbreaks(s, i + 1, j);
    }
}

/// From anywhere inside the stretch a scan covers, the scan ends at the same
/// place.
pub proof fn lemma_nls_within(s: Seq<u8>, i: int, p: int)
    requires
        0 <= i <= p < next_line_start(s, i),
        p <= s.len(),
    ensures
        next_line_start(s, p) == next_line_start(s, i),
    decreases p - i,
{
    lemma_nls_bounds(s, i);
    if i < p {
        if s[i] == LF {
            assert(false);
        } else if s[i] == CR {
            if i + 1 < s.len() && s[i + 1] == LF {
                assert(p == i + 1);
            } else {
                assert(false);
            }
        } else {
            lemma_nls_within(s, i + 1, p);
        }
    }
}

/// The query occurs in the haystack at position `i`.
pub open spec fn occurs_at(h: Seq<u8>, q: Seq<u8>, i: int) -> bool {
    0 <= i && i + q.len() <= h.len() && h.subrange(i, i + q.len() as int) == q
}

/// The query occurs somewhere in the haystack.
pub open spec fn occurs_in(h: Seq<u8>, q: Seq<u8>) -> bool {
    exists|i: int| occurs_at(h, q, i)
}

/// An occurrence within a subrange is an occurrence within the whole.
pub proof fn lemma_occurs_subrange(h: Seq<u8>, q: Seq<u8>, a: int, b: int, i: int)
    requires
        0 <= a <= b <= h.len(),
        occurs_at(h.subrange(a, b), q, i),
    ensures
        occurs_at(h, q, a + i),
{
    assert(h.subrange(a + i, a + i + q.len() as int) =~= h.subrange(a, b).subrange(
        i,
        i + q.len() as int,
    ));
}

/// A scan finds no more terminators than remaining bytes.
pub proof fn lemma_tcf_le(s: Seq<u8>, i: int)
    requires
        0 <= i <= s.len(),
    ensures
        term_count_from(s, i) <= s.len() - i,
    decreases s.len() - i,
{
    if i < s.len() {
        lemma_tcf_le(s, i + 1);
        if s[i] == CR && i + 1 < s.len() && s[i + 1] == LF {
            lemma_tcf_le(s, i + 2);
        }
    }
}

/// The least index at which the query occurs, `None` when it occurs nowhere.
pub open spec fn first_match(h: Seq<u8>, q: Seq<u8>) -> Option<int>
    decreases h.len(),
    via first_match_decreases
{
    if h.len() < q.len() {
        None
    } else if h.subrange(0, q.len() as int) == q {
        Some(0int)
    } else {
        match first_match(h.drop_first(), q) {
            Some(i) => Some(i + 1),
            None => None,
        }
    }
}

/// The greatest index at which the query occurs, `None` when it occurs
/// nowhere.
pub open spec fn last_match(h: Seq<u8>, q: Seq<u8>) -> Option<int>
    decreases h.len(),
    via last_match_decreases
{
    if h.len() < q.len() {
        None
    } else if h.subrange(h.len() - q.len(), h.len() as int) == q {
        Some(h.len() - q.len())
    } else {
        last_match(h.take(h.len() - 1), q)
    }
}

#[via_fn]
proof fn first_match_decreases(h: Seq<u8>, q: Seq<u8>) {
    if h.len() >= q.len() && h.subrange(0, q.len() as int) != q && h.len() == 0 {
        assert(h.subrange(0, q.len() as int) =~= q);
    }
}

#[via_fn]
proof fn last_match_decreases(h: Seq<u8>, q: Seq<u8>) {
    if h.len() >= q.len() && h.subrange(h.len() - q.len(), h.len() as int) != q && h.len() == 0 {
        assert(h.subrange(h.len() - q.len(), h.len() as int) =~= q);
    }
}

pub proof fn lemma_first_match(h: Seq<u8>, q: Seq<u8>)
    ensures
        match first_match(h, q) {
            Some(i) => occurs_at(h, q, i) && forall|j: int| 0 <= j < i ==> !occurs_at(h, q, j),
            None => forall|j: int| !occurs_at(h, q, j),
        },
    decreases h.len(),
{
    if h.len() < q.len() {
        assert forall|j: int| !occurs_at(h, q, j) by {}
    } else if h.subrange(0, q.len() as int) == q {
    } else {
        if h.len() == 0 {
            assert(h.subrange(0, q.len() as int) =~= q);
        }
        lemma_first_match(h.drop_first(), q);
        let d = h.drop_first();
        assert forall|j: int| occurs_at(h, q, j) && j >= 1 implies occurs_at(d, q, j - 1) by {
            assert(d.subrange(j - 1, j - 1 + q.len() as int) =~= h.subrange(
                j,
                j + q.len() as int,
            ));
        }
        assert forall|j: int| occurs_at(d, q, j) implies occurs_at(h, q, j + 1) by {
            assert(h.subrange(j + 1, j + 1 + q.len() as int) =~= d.subrange(
                j,
                j + q.len() as int,
            ));
        }
        assert(!occurs_at(h, q, 0));
    }
}

pub proof fn lemma_last_match(h: Seq<u8>, q: Seq<u8>)
    ensures
        match last_match(h, q) {
            Some(i) => occurs_at(h, q, i) && forall|j: int| j > i ==> !occurs_at(h, q, j),
            None => forall|j: int| !occurs_at(h, q, j),
        },
    decreases h.len(),
{
    if h.len() < q.len() {
        assert forall|j: int| !occurs_at(h, q, j) by {}
    } else if h.subrange(h.len() - q.len(), h.len() as int) == q {
        assert(occurs_at(h, q, h.len() - q.len()));
    } else {
        if h.len() == 0 {
            assert(h.subrange(h.len() - q.len(), h.len() as int) =~= q);
        }
        let t = h.take(h.len() - 1);
        lemma_last_match(t, q);
        assert forall|j: int| occurs_at(h, q, j) implies occurs_at(t, q, j) by {
            assert(j != h.len() - q.len());
            assert(j + q.len() <= h.len() - 1);
            assert(t.subrange(j, j + q.len() as int) =~= h.subrange(j, j + q.len() as int));
        }
        assert forall|j: int| occurs_at(t, q, j) implies occurs_at(h, q, j) by {
            assert(h.subrange(j, j + q.len() as int) =~= t.subrange(j, j + q.len() as int));
        }
    }
}

/// The index of the first LF in `t`, or its length when none occurs.
pub open spec fn first_lf(t: Seq<u8>) -> int
    decreases t.len(),
{
    if t.len() == 0 {
        0
    } else if t[0] == LF {
        0
    } else {
        1 + first_lf(t.drop_first())
    }
}

pub proof fn lemma_first_lf(t: Seq<u8>)
    ensures
        0 <= first_lf(t) <= t.len(),
        forall|k: int| 0 <= k < first_lf(t) ==> t[k] != LF,
        first_lf(t) < t.len() ==> t[first_lf(t)] == LF,
    decreases t.len(),
{
    if t.len() > 0 && t[0] != LF {
        lemma_first_lf(t.drop_first());
        assert forall|k: int| 0 <= k < first_lf(t) implies t[k] != LF by {
            if k > 0 {
                assert(t.drop_first()[k - 1] != LF);
            }
        }
    }
}

/// The first LF is wherever no LF stands before an LF.
pub proof fn lemma_first_lf_at(u: Seq<u8>, p: int)
    requires
        0 <= p <= u.len(),
        forall|k: int| 0 <= k < p ==> u[k] != LF,
        p == u.len() || u[p] == LF,
    ensures
        first_lf(u) == p,
    decreases p,
{
    if u.len() == 0 {
    } else if p == 0 {
    } else {
        assert(u[0] != LF);
        assert forall|k: int| 0 <= k < p - 1 implies u.drop_first()[k] != LF by {
            assert(u[k + 1] != LF);
        }
        lemma_first_lf_at(u.drop_first(), p - 1);
    }
}

/// How a flat replacement text decodes into lines: split on LF, dropping a
/// single trailing empty piece when the text ends with LF.
pub open spec fn lines_of_text(t: Seq<u8>) -> Seq<Seq<u8>>
    decreases t.len(),
    via lines_of_text_decreases
{
    if t.len() == 0 {
        Seq::empty()
    } else {
        let i = first_lf(t);
        if i == t.len() {
            seq![t]
        } else {
            seq![t.subrange(0, i)] + lines_of_text(t.subrange(i + 1, t.len() as int))
        }
    }
}

#[via_fn]
proof fn lines_of_text_decreases(t: Seq<u8>) {
    lemma_first_lf(t);
}

/// A line as it is handed out or written: terminated by exactly one LF,
/// appended when the raw bytes do not already end with one.
pub open spec fn render_line(raw: Seq<u8>) -> Seq<u8> {
    if raw.len() > 0 && raw.last() == LF {
        raw
    } else {
        raw.push(LF)
    }
}

/// A scan with no terminator ahead runs to the end.
proof fn lemma_tcf_zero_nls(s: Seq<u8>, i: int)
    requires
        0 <= i <= s.len(),
        term_count_from(s, i) == 0,
    ensures
        next_line_start(s, i) == s.len(),
    decreases s.len() - i,
{
    if i < s.len() {
        lemma_tcf_zero_nls(s, i + 1);
    }
}

} // verus!
