//! Converting SCIP columns in any position encoding to browser (UTF-16) columns.
use vstd::prelude::*;

verus! {

/// How the columns of a SCIP document count characters.
#[derive(Clone, Copy, Debug, PartialEq, Eq)]
pub enum PositionEncoding {
    /// No encoding given; read as UTF-8 byte offsets.
    UnspecifiedPositionEncoding,
    /// UTF-8 byte offsets from the line start.
    UTF8CodeUnitOffsetFromLineStart,
    /// UTF-16 code unit offsets from the line start.
    UTF16CodeUnitOffsetFromLineStart,
    /// Character (UTF-32 code unit) offsets from the line start.
    UTF32CodeUnitOffsetFromLineStart,
}

/// The number of bytes that UTF-8 takes for `c`.
pub open spec fn utf8_len(c: char) -> nat {
    if (c as u32) < 0x80 {
        1
    } else if (c as u32) < 0x800 {
        2
    } else if (c as u32) < 0x10000 {
        3
    } else {
        4
    }
}

/// The number of code units that UTF-16 takes for `c`.
pub open spec fn utf16_len(c: char) -> nat {
    if (c as u32) < 0x10000 {
        1
    } else {
        2
    }
}

/// The UTF-8 length of `s` in bytes.
pub open spec fn utf8_count(s: Seq<char>) -> nat
    decreases s.len(),
{
    if s.len() == 0 {
        0
    } else {
        utf8_count(s.drop_last()) + utf8_len(s.last())
    }
}

/// The UTF-16 length of `s` in code units.
pub open spec fn utf16_count(s: Seq<char>) -> nat
    decreases s.len(),
{
    if s.len() == 0 {
        0
    } else {
        utf16_count(s.drop_last()) + utf16_len(s.last())
    }
}

/// The number of leading characters of `s`, from the `i`-th on, whose UTF-8 encoding fits in
/// `limit` bytes.
pub open spec fn fitting_from(s: Seq<char>, limit: int, i: nat) -> nat
    decreases s.len() - i,
{
    if i >= s.len() || utf8_count(s.take(i + 1int)) > limit {
        i
    } else {
        fitting_from(s, limit, i + 1)
    }
}

/// The number of whole leading characters of `s` within the first `limit` bytes: the byte
/// offset `limit` moved back to the nearest character boundary.
pub open spec fn fitting_chars(s: Seq<char>, limit: int) -> nat {
    fitting_from(s, limit, 0)
}

/// The browser column of `column` on `line`, where `column` counts in `encoding`.
pub open spec fn browser_column(line: Seq<char>, column: int, encoding: PositionEncoding) -> int {
    match encoding {
        PositionEncoding::UTF16CodeUnitOffsetFromLineStart => if column < utf16_count(line) {
            column
        } else {
            utf16_count(line) as int
        },
        PositionEncoding::UTF32CodeUnitOffsetFromLineStart => utf16_count(
            line.take(if column < line.len() {
                column
            } else {
                line.len() as int
            }),
        ) as int,
        _ => utf16_count(line.take(fitting_chars(line, column) as int)) as int,
    }
}

proof fn lemma_take_last<T>(s: Seq<T>, i: int)
    requires
        0 <= i < s.len(),
    ensures
        s.take(i + 1).drop_last() == s.take(i),
        s.take(i + 1).last() == s[i],
{
    assert(s.take(i + 1).drop_last() =~= s.take(i));
}

/// Counts never shrink as a prefix grows.
proof fn lemma_utf16_count_bound(s: Seq<char>)
    ensures
        utf16_count(s) <= 2 * s.len(),
    decreases s.len(),
{
    if s.len() > 0 {
        lemma_utf16_count_bound(s.drop_last());
    }
}

proof fn lemma_fitting_bound(s: Seq<char>, limit: int, i: nat)
    requires
        i <= s.len(),
    ensures
        i <= fitting_from(s, limit, i) <= s.len(),
    decreases s.len() - i,
{
    if !(i >= s.len() || utf8_count(s.take(i + 1int)) > limit) {
        lemma_fitting_bound(s, limit, i + 1);
    }
}

fn char_utf8_len(c: char) -> (n: usize)
    ensures
        n == utf8_len(c),
{
    let v = c as u32;
    if v < 0x80 {
        1
    } else if v < 0x800 {
        2
    } else if v < 0x10000 {
        3
    } else {
        4
    }
}

fn char_utf16_len(c: char) -> (n: usize)
    ensures
        n == utf16_len(c),
{
    if (c as u32) < 0x10000 {
        1
    } else {
        2
    }
}

/// The UTF-16 length of `line[..end]`.
fn utf16_units(line: &[char], end: usize) -> (n: usize)
    requires
        end <= line@.len(),
        line@.len() <= usize::MAX / 4,
    ensures
        n == utf16_count(line@.take(end as int)),
{
    let mut n: usize = 0;
    let mut i: usize = 0;
    while i < end
        invariant
            i <= end <= line@.len() <= usize::MAX / 4,
            n == utf16_count(line@.take(i as int)),
        decreases end - i,
    {
        proof {
            lemma_take_last(line@, i as int);
            lemma_utf16_count_bound(line@.take(i as int));
        }
        n = n + char_utf16_len(line[i]);
        i += 1;
    }
    n
}

/// Converts `column` on `line`, counted in `encoding`, to a UTF-16 column clamped to the line.
pub fn utf16_column(line: &[char], column: usize, encoding: PositionEncoding) -> (res: usize)
    requires
        line@.len() <= usize::MAX / 4,
    ensures
        res == browser_column(line@, column as int, encoding),
{
    match encoding {
        PositionEncoding::UTF16CodeUnitOffsetFromLineStart => {
            let total = utf16_units(line, line.len());
            assert(line@.take(line@.len() as int) =~= line@);
            if column < total {
                column
            } else {
                total
            }
        },
        PositionEncoding::UTF32CodeUnitOffsetFromLineStart => {
            let end = if column < line.len() {
                column
            } else {
                line.len()
            };
            utf16_units(line, end)
        },
        _ => {
            let mut i: usize = 0;
            let mut bytes: usize = 0;
            while i < line.len() && char_utf8_len(line[i]) <= column - bytes
                invariant
                    i <= line@.len() <= usize::MAX / 4,
                    bytes == utf8_count(line@.take(i as int)),
                    bytes <= column,
                    fitting_chars(line@, column as int) == fitting_from(line@, column as int, i as nat),
                decreases line@.len() - i,
            {
                proof {
                    lemma_take_last(line@, i as int);
                }
                bytes = bytes + char_utf8_len(line[i]);
                i += 1;
            }
            proof {
                if i < line@.len() {
                    lemma_take_last(line@, i as int);
                }
            }
            utf16_units(line, i)
        },
    }
}

proof fn lemma_utf16_prefix(s: Seq<char>, k: int)
    requires
        0 <= k <= s.len(),
    ensures
        utf16_count(s.take(k)) <= utf16_count(s),
    decreases s.len(),
{
    if k == s.len() {
        assert(s.take(k) =~= s);
    } else {
        lemma_utf16_prefix(s.drop_last(), k);
        assert(s.drop_last().take(k) =~= s.take(k));
    }
}

proof fn lemma_ascii_counts(s: Seq<char>)
    requires
        forall|i: int| 0 <= i < s.len() ==> (#[trigger] s[i] as u32) < 0x80,
    ensures
        utf16_count(s) == s.len(),
        utf8_count(s) == s.len(),
    decreases s.len(),
{
    if s.len() > 0 {
        let t = s.drop_last();
        assert forall|i: int| 0 <= i < t.len() implies (#[trigger] t[i] as u32) < 0x80 by {
            assert(t[i] == s[i]);
        }
        lemma_ascii_counts(t);
        assert((s.last() as u32) < 0x80);
    }
}

proof fn lemma_ascii_fitting(s: Seq<char>, limit: int, i: nat)
    requires
        forall|j: int| 0 <= j < s.len() ==> (#[trigger] s[j] as u32) < 0x80,
        0 <= limit,
        i <= s.len(),
        i <= limit,
    ensures
        fitting_from(s, limit, i) == if limit < s.len() {
            limit
        } else {
            s.len() as int
        },
    decreases s.len() - i,
{
    if i < s.len() {
        let t = s.take(i + 1int);
        assert forall|j: int| 0 <= j < t.len() implies (#[trigger] t[j] as u32) < 0x80 by {
            assert(t[j] == s[j]);
        }
        lemma_ascii_counts(t);
        if i + 1 <= limit {
            lemma_ascii_fitting(s, limit, i + 1);
        }
    }
}

/// A browser column never passes the end of its line.
pub proof fn law_browser_column_within_line(line: Seq<char>, column: int, encoding: PositionEncoding)
    requires
        0 <= column,
    ensures
        0 <= browser_column(line, column, encoding) <= utf16_count(line),
{
    match encoding {
        PositionEncoding::UTF16CodeUnitOffsetFromLineStart => {},
        PositionEncoding::UTF32CodeUnitOffsetFromLineStart => {
            lemma_utf16_prefix(line, if column < line.len() { column } else { line.len() as int });
        },
        _ => {
            lemma_fitting_bound(line, column, 0);
            lemma_utf16_prefix(line, fitting_chars(line, column) as int);
        },
    }
}

/// On a line of ASCII characters every encoding counts alike: the browser column is the
/// column itself, clamped to the line.
pub proof fn law_ascii_columns_unchanged(line: Seq<char>, column: int, encoding: PositionEncoding)
    requires
        0 <= column,
        forall|i: int| 0 <= i < line.len() ==> (#[trigger] line[i] as u32) < 0x80,
    ensures
        browser_column(line, column, encoding) == if column < line.len() {
            column
        } else {
            line.len() as int
        },
{
    lemma_ascii_counts(line);
    let k = if column < line.len() {
        column
    } else {
        line.len() as int
    };
    let t = line.take(k);
    assert forall|j: int| 0 <= j < t.len() implies (#[trigger] t[j] as u32) < 0x80 by {
        assert(t[j] == line[j]);
    }
    lemma_ascii_counts(t);
    lemma_ascii_fitting(line, column, 0);
}

} // verus!
