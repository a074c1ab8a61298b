//! Turning a (line, column) location into a byte offset of a source text.

use vstd::prelude::*;
use vstd::string::StringSliceAdditionalSpecFns;

verus! {

/// The newline byte.
pub const NEWLINE: u8 = 10;

/// Why a location names no place in a text.
#[derive(Debug, Clone, Copy, PartialEq, Eq)]
pub enum PositionError {
    /// The line is 0, or the text has fewer lines.
    LineOutOfRange,
    /// The line exists but is shorter than the column.
    ColumnOutOfRange,
}

/// How many newline bytes `s` holds.
pub open spec fn newline_count(s: Seq<u8>) -> nat
    decreases s.len(),
{
    if s.len() == 0 {
        0
    } else {
        newline_count(s.drop_last()) + if s.last() == NEWLINE {
            1nat
        } else {
            0nat
        }
    }
}

/// Offset `o` of `t` is the first byte of a line.
pub open spec fn is_line_start(t: Seq<u8>, o: int) -> bool {
    o == 0 || (0 < o <= t.len() && t[o - 1] == NEWLINE)
}

/// `t` has a line numbered `line` (lines count from 1; a text with `k`
/// newlines has `k + 1` lines, the last one possibly empty).
pub open spec fn has_line(t: Seq<u8>, line: int) -> bool {
    1 <= line <= newline_count(t) + 1
}

/// Offset `off` of `t` lies on line `line` (from 1), `column` bytes (from 0)
/// after the start of that line.
pub open spec fn at_position(t: Seq<u8>, off: int, line: int, column: int) -> bool {
    &&& 0 <= column <= off <= t.len()
    &&& newline_count(t.take(off)) == line - 1
    &&& is_line_start(t, off - column)
    &&& newline_count(t.subrange(off - column, off)) == 0
}

proof fn lemma_count_concat(a: Seq<u8>, b: Seq<u8>)
    ensures
        newline_count(a + b) == newline_count(a) + newline_count(b),
    decreases b.len(),
{
    if b.len() == 0 {
        assert(a + b =~= a);
    } else {
        lemma_count_concat(a, b.drop_last());
        assert((a + b).drop_last() =~= a + b.drop_last());
    }
}

/// Counting newlines is additive over adjacent pieces of a text.
proof fn lemma_count_split(t: Seq<u8>, i: int, j: int, k: int)
    requires
        0 <= i <= j <= k <= t.len(),
    ensures
        newline_count(t.subrange(i, k)) == newline_count(t.subrange(i, j)) + newline_count(
            t.subrange(j, k),
        ),
{
    lemma_count_concat(t.subrange(i, j), t.subrange(j, k));
    assert(t.subrange(i, j) + t.subrange(j, k) =~= t.subrange(i, k));
}

/// A piece holds no newline exactly when its count is zero.
proof fn lemma_count_zero(s: Seq<u8>)
    ensures
        newline_count(s) == 0 <==> forall|i: int| 0 <= i < s.len() ==> s[i] != NEWLINE,
    decreases s.len(),
{
    if s.len() > 0 {
        lemma_count_zero(s.drop_last());
        if newline_count(s) == 0 {
            assert forall|i: int| 0 <= i < s.len() implies s[i] != NEWLINE by {
                if i < s.len() - 1 {
                    assert(s.drop_last()[i] == s[i]);
                }
            }
        }
        if forall|i: int| 0 <= i < s.len() ==> s[i] != NEWLINE {
            assert forall|i: int| 0 <= i < s.drop_last().len() implies s.drop_last()[i]
                != NEWLINE by {
                assert(s.drop_last()[i] == s[i]);
            }
        }
    }
}

/// Two line starts preceded by equally many newlines are the same offset.
proof fn lemma_line_starts_equal(t: Seq<u8>, s1: int, s2: int)
    requires
        0 <= s1 <= t.len(),
        0 <= s2 <= t.len(),
        is_line_start(t, s1),
        is_line_start(t, s2),
        newline_count(t.take(s1)) == newline_count(t.take(s2)),
    ensures
        s1 == s2,
{
    if s1 != s2 {
        let (a, b) = if s1 < s2 {
            (s1, s2)
        } else {
            (s2, s1)
        };
        assert(t.take(a) =~= t.subrange(0, a));
        assert(t.take(b) =~= t.subrange(0, b));
        lemma_count_split(t, 0, a, b);
        let piece = t.subrange(a, b);
        assert(piece[b - a - 1] == NEWLINE);
        lemma_count_zero(piece);
    }
}

/// A position takes the newline count of the text before its line start.
proof fn lemma_position_line_start(t: Seq<u8>, off: int, line: int, column: int)
    requires
        at_position(t, off, line, column),
    ensures
        newline_count(t.take(off - column)) == line - 1,
{
    assert(t.take(off) =~= t.subrange(0, off));
    assert(t.take(off - column) =~= t.subrange(0, off - column));
    lemma_count_split(t, 0, off - column, off);
}

/// A line and column name at most one offset of a text, so that the offset
/// returned by `position_in_string` is the only one at that location.
pub proof fn lemma_position_unique(t: Seq<u8>, o1: int, o2: int, line: int, column: int)
    requires
        at_position(t, o1, line, column),
        at_position(t, o2, line, column),
    ensures
        o1 == o2,
{
    lemma_position_line_start(t, o1, line, column);
    lemma_position_line_start(t, o2, line, column);
    lemma_line_starts_equal(t, o1 - column, o2 - column);
}

/// A text has a line for every position that lies in it.
proof fn lemma_position_has_line(t: Seq<u8>, off: int, line: int, column: int)
    requires
        at_position(t, off, line, column),
    ensures
        has_line(t, line),
{
    assert(t.take(off) =~= t.subrange(0, off));
    assert(t =~= t.subrange(0, t.len() as int));
    lemma_count_split(t, 0, off, t.len() as int);
}

/// The end of the line that starts at or before `from`: the offset of the
/// next newline at or after `from`, or the text's length if none follows.
fn line_end(b: &[u8], from: usize) -> (e: usize)
    requires
        from <= b@.len(),
    ensures
        from <= e <= b@.len(),
        forall|i: int| from <= i < e ==> b@[i] != NEWLINE,
        e < b@.len() ==> b@[e as int] == NEWLINE,
{
    let mut e = from;
    while e < b.len() && b[e] != NEWLINE
        invariant
            from <= e <= b@.len(),
            forall|i: int| from <= i < e ==> b@[i] != NEWLINE,
        decreases b@.len() - e,
    {
        e = e + 1;
    }
    e
}

/// Finds the byte offset of a location in `text`; `pos` is (line, column),
/// the line counted from 1 and the column, in bytes, from 0.
pub fn position_in_string(text: &str, pos: (usize, usize)) -> (r: Result<usize, PositionError>)
    ensures
        r is Ok <==> exists|o: int| at_position(text.spec_bytes(), o, pos.0 as int, pos.1 as int),
        match r {
            Ok(o) => at_position(text.spec_bytes(), o as int, pos.0 as int, pos.1 as int),
            Err(PositionError::LineOutOfRange) => !has_line(text.spec_bytes(), pos.0 as int),
            Err(PositionError::ColumnOutOfRange) => has_line(text.spec_bytes(), pos.0 as int),
        },
{
    let (line, column) = pos;
    let bytes = text.as_bytes();
    let ghost t = bytes@;
    let n = bytes.len();
    if line == 0 {
        proof {
            assert forall|o: int| !at_position(t, o, 0, column as int) by {
                if at_position(t, o, 0, column as int) {
                    lemma_position_has_line(t, o, 0, column as int);
                }
            }
        }
        return Err(PositionError::LineOutOfRange);
    }
    let mut start: usize = 0;
    let mut cur: usize = 1;
    proof {
        assert(t.take(0) =~= Seq::<u8>::empty());
    }
    while cur < line
        invariant
            bytes@ == t,
            t == text.spec_bytes(),
            pos == (line, column),
            n == t.len(),
            1 <= cur <= line,
            start <= n,
            newline_count(t.take(start as int)) == cur - 1,
            is_line_start(t, start as int),
        decreases line - cur,
    {
        let end = line_end(bytes, start);
        proof {
            let piece = t.subrange(start as int, end as int);
            assert forall|i: int| 0 <= i < piece.len() implies piece[i] != NEWLINE by {
                assert(piece[i] == t[start + i]);
            }
            lemma_count_zero(piece);
            assert(t.take(start as int) =~= t.subrange(0, start as int));
        }
        if end == n {
            proof {
                assert(t =~= t.subrange(0, n as int));
                lemma_count_split(t, 0, start as int, n as int);
                assert forall|o: int| !at_position(t, o, line as int, column as int) by {
                    if at_position(t, o, line as int, column as int) {
                        lemma_position_has_line(t, o, line as int, column as int);
                    }
                }
            }
            return Err(PositionError::LineOutOfRange);
        }
        proof {
            lemma_count_split(t, 0, start as int, end as int + 1);
            lemma_count_split(t, start as int, end as int, end as int + 1);
            let last = t.subrange(end as int, end as int + 1);
            assert(last.drop_last() =~= Seq::<u8>::empty());
            assert(last.last() == NEWLINE);
            assert(newline_count(last.drop_last()) == 0);
            assert(t.take(end as int + 1) =~= t.subrange(0, end as int + 1));
        }
        start = end + 1;
        cur = cur + 1;
    }
    let end = line_end(bytes, start);
    proof {
        let piece = t.subrange(start as int, end as int);
        assert forall|i: int| 0 <= i < piece.len() implies piece[i] != NEWLINE by {
            assert(piece[i] == t[start + i]);
        }
        lemma_count_zero(piece);
        assert(t.take(start as int) =~= t.subrange(0, start as int));
        assert(t =~= t.subrange(0, n as int));
        lemma_count_split(t, 0, start as int, n as int);
    }
    if column > end - start {
        proof {
            assert forall|o: int| !at_position(t, o, line as int, column as int) by {
                if at_position(t, o, line as int, column as int) {
                    let s = o - column;
                    lemma_position_line_start(t, o, line as int, column as int);
                    lemma_line_starts_equal(t, s, start as int);
                    lemma_count_zero(t.subrange(s, o));
                    if o > end {
                        assert(t.subrange(s, o)[end - s] == NEWLINE);
                    }
                }
            }
        }
        return Err(PositionError::ColumnOutOfRange);
    }
    let off = start + column;
    proof {
        let piece = t.subrange(start as int, off as int);
        lemma_count_zero(piece);
        assert forall|i: int| 0 <= i < piece.len() implies piece[i] != NEWLINE by {
            assert(piece[i] == t[start + i]);
        }
        assert(t.take(off as int) =~= t.subrange(0, off as int));
        lemma_count_split(t, 0, start as int, off as int);
        assert(at_position(t, off as int, line as int, column as int));
    }
    Ok(off)
}

} // verus!
