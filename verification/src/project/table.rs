//! The text of the distance table: a header row of room names, then one row
//! per room with its name and its distances, cells divided by commas.

use vstd::prelude::*;

verus! {

/// Whether `c` is white space: one of the 25 characters with the Unicode
/// property `White_Space`, which are the characters that
/// `char::is_whitespace` tells.
pub open spec fn is_space(c: char) -> bool {
    ||| '\u{9}' <= c <= '\u{d}'
    ||| c == ' '
    ||| c == '\u{85}'
    ||| c == '\u{a0}'
    ||| c == '\u{1680}'
    ||| '\u{2000}' <= c <= '\u{200a}'
    ||| c == '\u{2028}'
    ||| c == '\u{2029}'
    ||| c == '\u{202f}'
    ||| c == '\u{205f}'
    ||| c == '\u{3000}'
}

/// Whether `c` is white space.
pub fn space(c: char) -> (b: bool)
    ensures
        b == is_space(c),
{
    (c >= '\u{9}' && c <= '\u{d}') || c == ' ' || c == '\u{85}' || c == '\u{a0}' || c
        == '\u{1680}' || (c >= '\u{2000}' && c <= '\u{200a}') || c == '\u{2028}' || c
        == '\u{2029}' || c == '\u{202f}' || c == '\u{205f}' || c == '\u{3000}'
}

/// The string that holds the characters `chars`, collected by
/// `String::from_iter`.
#[verifier::external_body]
pub(crate) fn text_of(chars: &Vec<char>) -> (s: String)
    ensures
        s@ == chars@,
{
    String::from_iter(chars.iter())
}

/// Why the text of a distance table was rejected.
#[derive(Debug, Clone, Copy, PartialEq, Eq, Structural)]
pub enum TableError {
    /// The row at this position, the header not counted, has no cell.
    EmptyRow(usize),
    /// In the row at the first position, the header not counted, the
    /// distance at the second position is no number that fits 32 bits.
    BadNumber(usize, usize),
}

/// `s` cut at every `sep`: the pieces between them, in order.
pub open spec fn split(s: Seq<char>, sep: char) -> Seq<Seq<char>>
    decreases s.len(),
{
    if s.len() == 0 {
        seq![Seq::empty()]
    } else {
        let head = split(s.drop_last(), sep);
        if s.last() == sep {
            head.push(Seq::empty())
        } else {
            head.drop_last().push(head.last().push(s.last()))
        }
    }
}

/// `s` without the white space at its start.
pub open spec fn trim_start(s: Seq<char>) -> Seq<char>
    decreases s.len(),
{
    if s.len() > 0 && is_space(s[0]) {
        trim_start(s.skip(1))
    } else {
        s
    }
}

/// `s` without the white space at its end.
pub open spec fn trim_end(s: Seq<char>) -> Seq<char>
    decreases s.len(),
{
    if s.len() > 0 && is_space(s.last()) {
        trim_end(s.drop_last())
    } else {
        s
    }
}

/// `s` without the white space at its start and at its end.
pub open spec fn trim(s: Seq<char>) -> Seq<char> {
    trim_end(trim_start(s))
}

/// The pieces of `pieces`, trimmed, without those that are empty then.
pub open spec fn kept(pieces: Seq<Seq<char>>) -> Seq<Seq<char>>
    decreases pieces.len(),
{
    if pieces.len() == 0 {
        Seq::empty()
    } else if trim(pieces.last()).len() == 0 {
        kept(pieces.drop_last())
    } else {
        kept(pieces.drop_last()).push(trim(pieces.last()))
    }
}

/// The cells of a line: its pieces between commas, trimmed, without the
/// empty ones.
pub open spec fn cells(line: Seq<char>) -> Seq<Seq<char>> {
    kept(split(line, ','))
}

/// The rows of the first `n` lines: the cells of every line that holds more
/// than white space.
pub open spec fn rows_of(lines: Seq<Seq<char>>, n: int) -> Seq<Seq<Seq<char>>>
    decreases n,
{
    if n <= 0 {
        Seq::empty()
    } else if trim(lines[n - 1]).len() == 0 {
        rows_of(lines, n - 1)
    } else {
        rows_of(lines, n - 1).push(cells(trim(lines[n - 1])))
    }
}

/// The rows of a text: the cells of every line that holds more than white
/// space.
pub open spec fn rows(text: Seq<char>) -> Seq<Seq<Seq<char>>> {
    rows_of(split(text, '\n'), split(text, '\n').len() as int)
}

/// The digits of `s` as a number in base ten.
pub open spec fn value(s: Seq<char>) -> int
    decreases s.len(),
{
    if s.len() == 0 {
        0
    } else {
        value(s.drop_last()) * 10 + (s.last() as int - '0' as int)
    }
}

/// `s` holds decimal digits only.
pub open spec fn all_digits(s: Seq<char>) -> bool {
    forall|i: int| 0 <= i < s.len() ==> '0' <= #[trigger] s[i] <= '9'
}

/// The whole number that `s` writes: an optional sign and one decimal digit
/// at least, if the number fits 32 bits.
pub open spec fn number(s: Seq<char>) -> Option<int> {
    let negative = s.len() > 0 && s[0] == '-';
    let body = if s.len() > 0 && (s[0] == '-' || s[0] == '+') {
        s.skip(1)
    } else {
        s
    };
    let v = if negative {
        -value(body)
    } else {
        value(body)
    };
    if body.len() > 0 && all_digits(body) && -0x8000_0000 <= v <= 0x7fff_ffff {
        Some(v)
    } else {
        None
    }
}

/// The rows make a table: every row after the header has a first cell, and
/// its other cells write numbers.
pub open spec fn table_ok(rows: Seq<Seq<Seq<char>>>) -> bool {
    forall|i: int, j: int|
        1 <= i < rows.len() ==> rows[i].len() > 0 && (1 <= j < rows[i].len() ==> number(
            #[trigger] rows[i][j],
        ) is Some)
}

/// More digits make no smaller number.
proof fn lemma_value_grows(s: Seq<char>, n: int)
    requires
        all_digits(s),
        0 <= n <= s.len(),
    ensures
        0 <= value(s.take(n)) <= value(s),
    decreases s.len() - n,
{
    if n == s.len() {
        assert(s.take(n) =~= s);
        lemma_value_nonneg(s);
    } else {
        lemma_value_grows(s, n + 1);
        assert(s.take(n + 1).drop_last() =~= s.take(n));
        lemma_value_nonneg(s.take(n));
        assert(all_digits(s.take(n))) by {
            assert forall|i: int| 0 <= i < s.take(n).len() implies '0' <= #[trigger] s.take(n)[i]
                <= '9' by {
                assert(s.take(n)[i] == s[i]);
            }
        }
        assert('0' <= s[n] <= '9');
        assert(s.take(n + 1).last() == s[n]);
    }
}

proof fn lemma_value_nonneg(s: Seq<char>)
    requires
        all_digits(s),
    ensures
        0 <= value(s),
    decreases s.len(),
{
    if s.len() > 0 {
        assert(all_digits(s.drop_last())) by {
            assert forall|i: int| 0 <= i < s.drop_last().len() implies '0'
                <= #[trigger] s.drop_last()[i] <= '9' by {
                assert(s.drop_last()[i] == s[i]);
            }
        }
        lemma_value_nonneg(s.drop_last());
        assert('0' <= s[s.len() - 1] <= '9');
    }
}

/// The whole number that `cell` writes, if it writes one that fits 32 bits.
#[verifier::loop_isolation(false)]
pub fn parse_number(cell: &Vec<char>) -> (r: Option<i32>)
    ensures
        r is Some <==> number(cell@) is Some,
        r is Some ==> number(cell@) == Some(r.unwrap() as int),
{
    let n = cell.len();
    let mut i: usize = 0;
    let mut negative = false;
    if n > 0 && (cell[0] == '-' || cell[0] == '+') {
        negative = cell[0] == '-';
        i = 1;
    }
    let start = i;
    let ghost body = cell@.skip(start as int);
    proof {
        if start == 0 {
            assert(body =~= cell@);
        }
    }
    if start == n {
        return None;
    }
    let mut acc: i64 = 0;
    assert(body.take(0) =~= Seq::<char>::empty());
    while i < n
        invariant
            start <= i <= n,
            start < n,
            body == cell@.skip(start as int),
            all_digits(body.take(i - start)),
            acc == value(body.take(i - start)),
            0 <= acc <= 0x8000_0000,
        decreases n - i,
    {
        let c = cell[i];
        let ghost k = i - start;
        assert(body[k] == c);
        if !(c >= '0' && c <= '9') {
            assert(!all_digits(body)) by {
                assert(!('0' <= body[k] <= '9'));
            }
            return None;
        }
        let d = (c as u32 - '0' as u32) as i64;
        proof {
            assert(body.take(k + 1).drop_last() =~= body.take(k));
            assert(body.take(k + 1).last() == c);
            assert(all_digits(body.take(k + 1))) by {
                assert forall|j: int| 0 <= j < k + 1 implies '0' <= #[trigger] body.take(k + 1)[j]
                    <= '9' by {
                    if j < k {
                        assert(body.take(k)[j] == body.take(k + 1)[j]);
                    }
                }
            }
        }
        let next = acc * 10 + d;
        if next > 0x8000_0000 {
            proof {
                // the digits that follow make the number no smaller
                if all_digits(body) {
                    lemma_value_grows(body, k + 1);
                    assert(value(body) > 0x8000_0000);
                }
            }
            return None;
        }
        acc = next;
        i += 1;
    }
    assert(body.take(n - start) =~= body);
    assert(all_digits(body) && value(body) == acc && body.len() > 0);
    if negative {
        Some((0 - acc) as i32)
    } else if acc == 0x8000_0000 {
        None
    } else {
        Some(acc as i32)
    }
}

/// `s` cut at every `sep`.
pub fn split_at(s: &Vec<char>, sep: char) -> (pieces: Vec<Vec<char>>)
    ensures
        pieces.len() == split(s@, sep).len(),
        forall|i: int| 0 <= i < pieces.len() ==> (#[trigger] pieces[i])@ == split(s@, sep)[i],
{
    let mut pieces: Vec<Vec<char>> = Vec::new();
    let mut current: Vec<char> = Vec::new();
    let mut i: usize = 0;
    assert(s@.take(0) =~= Seq::<char>::empty());
    while i < s.len()
        invariant
            i <= s.len(),
            pieces.len() + 1 == split(s@.take(i as int), sep).len(),
            forall|k: int|
                0 <= k < pieces.len() ==> (#[trigger] pieces[k])@ == split(s@.take(i as int), sep)[k],
            current@ == split(s@.take(i as int), sep).last(),
        decreases s.len() - i,
    {
        let ghost before = split(s@.take(i as int), sep);
        let ghost next = s@.take(i + 1);
        proof {
            assert(next.drop_last() =~= s@.take(i as int));
            assert(next.last() == s[i as int]);
        }
        let c = s[i];
        if c == sep {
            pieces.push(current);
            current = Vec::new();
            proof {
                let after = split(next, sep);
                assert(after == before.push(Seq::empty()));
                assert forall|k: int| 0 <= k < pieces.len() implies (#[trigger] pieces[k])@
                    == after[k] by {
                    if k < pieces.len() - 1 {
                        assert(after[k] == before[k]);
                    }
                }
            }
        } else {
            current.push(c);
            proof {
                let after = split(next, sep);
                assert(after == before.drop_last().push(before.last().push(c)));
                assert forall|k: int| 0 <= k < pieces.len() implies (#[trigger] pieces[k])@
                    == after[k] by {
                    assert(after[k] == before[k]);
                }
            }
        }
        i += 1;
    }
    assert(s@.take(s.len() as int) =~= s@);
    pieces.push(current);
    pieces
}

/// `s` without the white space at its start and at its end.
pub fn trimmed(s: &Vec<char>) -> (t: Vec<char>)
    ensures
        t@ == trim(s@),
{
    let mut lo: usize = 0;
    assert(s@.skip(0) =~= s@);
    while lo < s.len() && space(s[lo])
        invariant
            lo <= s.len(),
            trim_start(s@) == trim_start(s@.skip(lo as int)),
        decreases s.len() - lo,
    {
        proof {
            let rest = s@.skip(lo as int);
            assert(rest[0] == s[lo as int]);
            assert(rest.skip(1) =~= s@.skip(lo + 1));
        }
        lo += 1;
    }
    let ghost inner = s@.skip(lo as int);
    assert(trim_start(s@) == inner) by {
        if lo < s.len() {
            assert(inner[0] == s[lo as int]);
        }
    }
    let mut hi: usize = s.len();
    assert(s@.subrange(lo as int, hi as int) =~= inner);
    while hi > lo && space(s[hi - 1])
        invariant
            lo <= hi <= s.len(),
            trim_end(inner) == trim_end(s@.subrange(lo as int, hi as int)),
        decreases hi - lo,
    {
        proof {
            let cur = s@.subrange(lo as int, hi as int);
            assert(cur.last() == s[hi - 1]);
            assert(cur.drop_last() =~= s@.subrange(lo as int, hi - 1));
        }
        hi -= 1;
    }
    proof {
        let cur = s@.subrange(lo as int, hi as int);
        if hi > lo {
            assert(cur.last() == s[hi - 1]);
        }
        assert(trim_end(inner) == cur);
    }
    let mut t: Vec<char> = Vec::new();
    let mut i: usize = lo;
    while i < hi
        invariant
            lo <= i <= hi,
            hi <= s.len(),
            t@ == s@.subrange(lo as int, i as int),
        decreases hi - i,
    {
        t.push(s[i]);
        assert(t@ =~= s@.subrange(lo as int, i + 1));
        i += 1;
    }
    t
}

/// The cells of a line.
pub fn cells_of(line: &Vec<char>) -> (r: Vec<Vec<char>>)
    ensures
        r.len() == cells(line@).len(),
        forall|i: int| 0 <= i < r.len() ==> (#[trigger] r[i])@ == cells(line@)[i],
{
    let pieces = split_at(line, ',');
    let ghost all = split(line@, ',');
    let mut r: Vec<Vec<char>> = Vec::new();
    let mut i: usize = 0;
    assert(all.take(0) =~= Seq::<Seq<char>>::empty());
    while i < pieces.len()
        invariant
            i <= pieces.len(),
            pieces.len() == all.len(),
            forall|k: int| 0 <= k < pieces.len() ==> (#[trigger] pieces[k])@ == all[k],
            r.len() == kept(all.take(i as int)).len(),
            forall|k: int| 0 <= k < r.len() ==> (#[trigger] r[k])@ == kept(all.take(i as int))[k],
        decreases pieces.len() - i,
    {
        let cell = trimmed(&pieces[i]);
        proof {
            let next = all.take(i + 1);
            assert(next.drop_last() =~= all.take(i as int));
            assert(next.last() == all[i as int]);
        }
        if cell.len() > 0 {
            r.push(cell);
        }
        i += 1;
    }
    assert(all.take(all.len() as int) =~= all);
    r
}

/// The three parts of a distance table.
#[derive(Debug)]
pub struct Table {
    pub names_row: Vec<String>,
    pub names_col: Vec<String>,
    pub mat: Vec<Vec<i32>>,
}

/// Reads the text of a distance table: the cells of the first row that
/// holds more than white space are the header; every later such row gives a
/// name, its first cell, and a row of numbers, its other cells.
#[verifier::loop_isolation(false)]
pub fn read_table(text: &Vec<char>) -> (r: Result<Table, TableError>)
    ensures
        r is Ok <==> table_ok(rows(text@)),
        r matches Ok(t) ==> {
            let rows = rows(text@);
            &&& crate::utils::texts(t.names_row@) == if rows.len() > 0 {
                rows[0]
            } else {
                Seq::empty()
            }
            &&& t.names_col.len() == t.mat.len()
            &&& t.names_col.len() == if rows.len() > 0 {
                rows.len() - 1
            } else {
                0
            }
            &&& forall|i: int|
                0 <= i < t.names_col.len() ==> (#[trigger] t.names_col[i])@ == rows[i + 1][0]
            &&& forall|i: int|
                0 <= i < t.mat.len() ==> (#[trigger] t.mat[i]).len() == rows[i + 1].len() - 1
            &&& forall|i: int, j: int|
                0 <= i < t.mat.len() && 0 <= j < t.mat[i].len() ==> number(rows[i + 1][j + 1])
                    == Some(#[trigger] t.mat[i][j] as int)
        },
        r matches Err(TableError::EmptyRow(i)) ==> i + 1 < rows(text@).len() && rows(
            text@,
        )[i + 1].len() == 0,
        r matches Err(TableError::BadNumber(i, j)) ==> i + 1 < rows(text@).len() && j + 1 < rows(
            text@,
        )[i + 1].len() && number(rows(text@)[i + 1][j + 1]) is None,
{
    let lines = split_at(text, '\n');
    let ghost all = split(text@, '\n');
    let mut names_row: Vec<String> = Vec::new();
    let mut names_col: Vec<String> = Vec::new();
    let mut mat: Vec<Vec<i32>> = Vec::new();
    let mut seen: usize = 0;
    let mut l: usize = 0;
    while l < lines.len()
        invariant
            l <= lines.len(),
            lines.len() == all.len(),
            forall|k: int| 0 <= k < lines.len() ==> (#[trigger] lines[k])@ == all[k],
            seen == rows_of(all, l as int).len(),
            seen <= l,
            seen == 0 ==> names_row.len() == 0,
            table_ok(rows_of(all, l as int)),
            crate::utils::texts(names_row@) == if seen > 0 {
                rows_of(all, l as int)[0]
            } else {
                Seq::empty()
            },
            names_col.len() == mat.len(),
            names_col.len() == if seen > 0 {
                seen - 1
            } else {
                0
            },
            forall|i: int|
                0 <= i < names_col.len() ==> (#[trigger] names_col[i])@ == rows_of(
                    all,
                    l as int,
                )[i + 1][0],
            forall|i: int|
                0 <= i < mat.len() ==> (#[trigger] mat[i]).len() == rows_of(all, l as int)[i
                    + 1].len() - 1,
            forall|i: int, j: int|
                0 <= i < mat.len() && 0 <= j < mat[i].len() ==> number(
                    rows_of(all, l as int)[i + 1][j + 1],
                ) == Some(#[trigger] mat[i][j] as int),
        decreases lines.len() - l,
    {
        let line = trimmed(&lines[l]);
        let ghost before = rows_of(all, l as int);
        if line.len() > 0 {
            let row = cells_of(&line);
            let ghost this = cells(trim(all[l as int]));
            let ghost after = before.push(this);
            assert(rows_of(all, l + 1) == after);
            assert forall|i: int| 0 <= i < before.len() implies after[i] == before[i] by {}
            if seen == 0 {
                let mut c: usize = 0;
                while c < row.len()
                    invariant
                        c <= row.len(),
                        row.len() == this.len(),
                        forall|k: int| 0 <= k < row.len() ==> (#[trigger] row[k])@ == this[k],
                        names_row.len() == c,
                        forall|k: int| 0 <= k < c ==> (#[trigger] names_row[k])@ == this[k],
                    decreases row.len() - c,
                {
                    names_row.push(text_of(&row[c]));
                    c += 1;
                }
                assert(crate::utils::texts(names_row@) =~= this);
                assert(table_ok(after)) by {
                    assert(after.len() == 1);
                }
            } else {
                if row.len() == 0 {
                    proof {
                        lemma_rows_prefix(all, l + 1, all.len() as int);
                        assert(after[seen as int] == this);
                        assert(rows(text@)[seen as int] == this);
                        assert(!table_ok(rows(text@)));
                    }
                    return Err(TableError::EmptyRow(seen - 1));
                }
                let mut numbers: Vec<i32> = Vec::new();
                let mut c: usize = 1;
                while c < row.len()
                    invariant
                        1 <= c <= row.len(),
                        row.len() == this.len(),
                        forall|k: int| 0 <= k < row.len() ==> (#[trigger] row[k])@ == this[k],
                        numbers.len() == c - 1,
                        forall|k: int|
                            0 <= k < numbers.len() ==> number(this[k + 1]) == Some(
                                #[trigger] numbers[k] as int,
                            ),
                    decreases row.len() - c,
                {
                    match parse_number(&row[c]) {
                        Some(x) => {
                            numbers.push(x);
                        },
                        None => {
                            proof {
                                lemma_rows_prefix(all, l + 1, all.len() as int);
                                assert(after[seen as int] == this);
                                assert(rows(text@)[seen as int] == this);
                                assert(number(rows(text@)[seen as int][c as int]) is None);
                                assert(!table_ok(rows(text@)));
                            }
                            return Err(TableError::BadNumber(seen - 1, c - 1));
                        },
                    }
                    c += 1;
                }
                names_col.push(text_of(&row[0]));
                mat.push(numbers);
                assert(table_ok(after)) by {
                    assert forall|i: int, j: int| 1 <= i < after.len() implies after[i].len() > 0
                        && (1 <= j < after[i].len() ==> number(#[trigger] after[i][j])
                        is Some) by {
                        if i < before.len() {
                            assert(after[i] == before[i]);
                            if 1 <= j < before[i].len() {
                                assert(number(before[i][j]) is Some);
                            }
                        } else {
                            if 1 <= j < this.len() {
                                assert(number(this[(j - 1) + 1]) == Some(numbers[j - 1] as int));
                            }
                        }
                    }
                }
            }
            seen += 1;
        } else {
            assert(rows_of(all, l + 1) == before);
        }
        l += 1;
    }
    assert(rows(text@) == rows_of(all, all.len() as int));
    Ok(Table { names_row, names_col, mat })
}

/// The rows of the first lines are the first rows of more lines.
proof fn lemma_rows_prefix(lines: Seq<Seq<char>>, n: int, m: int)
    requires
        0 <= n <= m,
    ensures
        rows_of(lines, n).len() <= rows_of(lines, m).len(),
        forall|i: int| 0 <= i < rows_of(lines, n).len() ==> rows_of(lines, m)[i] == rows_of(lines, n)[i],
    decreases m - n,
{
    if n < m {
        lemma_rows_prefix(lines, n, m - 1);
    }
}

} // verus!
