//! Numeric CSV: records of signed decimal numbers separated by commas, one
//! record per line.
//!
//! ```text
//! file       := record ('\n' record)* '\n'? end_of_input
//! record     := number (',' number)*
//! number     := '-'? (int_part frac_part? | frac_part)
//! int_part   := '0' (not followed by a digit) | '1'..'9' digit*
//! frac_part  := '.' digit+
//! ```
//!
//! Numbers are returned as the exact text of their tokens; turning a token
//! into a floating-point value is left to the caller.
use vstd::prelude::*;
use crate::error::SyntaxError;
use crate::text::{chars_of, string_of};

verus! {

pub open spec fn is_digit(c: char) -> bool {
    '0' <= c && c <= '9'
}

pub open spec fn digit_at(s: Seq<char>, i: int) -> bool {
    0 <= i < s.len() && is_digit(s[i])
}

/// The index just past the run of digits that starts at `i`.
pub open spec fn digits_end(s: Seq<char>, i: int) -> int
    decreases s.len() - i,
{
    if digit_at(s, i) {
        digits_end(s, i + 1)
    } else {
        i
    }
}

/// The end of an integer part starting at `j`: a `'0'` that no digit follows,
/// or a nonzero digit with all the digits after it.
pub open spec fn int_part_end(s: Seq<char>, j: int) -> Option<int> {
    if !digit_at(s, j) {
        None
    } else if s[j] == '0' {
        if digit_at(s, j + 1) {
            None
        } else {
            Some(j + 1)
        }
    } else {
        Some(digits_end(s, j))
    }
}

/// A fractional part (a dot and at least one digit) starts at `k`.
pub open spec fn has_frac_part(s: Seq<char>, k: int) -> bool {
    0 <= k && k + 1 < s.len() && s[k] == '.' && is_digit(s[k + 1])
}

/// The end of the longest number token starting at `i`, if one starts there.
pub open spec fn number_end(s: Seq<char>, i: int) -> Option<int> {
    let j = if 0 <= i < s.len() && s[i] == '-' {
        i + 1
    } else {
        i
    };
    match int_part_end(s, j) {
        Some(k) => if has_frac_part(s, k) {
            Some(digits_end(s, k + 1))
        } else {
            Some(k)
        },
        None => if has_frac_part(s, j) {
            Some(digits_end(s, j + 1))
        } else {
            None
        },
    }
}

/// `s` is, as a whole, one number token.
pub open spec fn is_number(s: Seq<char>) -> bool {
    number_end(s, 0) == Some(s.len() as int)
}

/// Goes on parsing at `i`, where a number is expected, with the records
/// `rows` complete and the numbers `row` of the current record read so far.
/// An error carries the position at which the grammar failed.
pub open spec fn scan_records(
    s: Seq<char>,
    i: int,
    rows: Seq<Seq<Seq<char>>>,
    row: Seq<Seq<char>>,
) -> Result<Seq<Seq<Seq<char>>>, int>
    decreases s.len() - i,
    via scan_records_decreases
{
    match number_end(s, i) {
        None => Err(i),
        Some(k) => {
            let row2 = row.push(s.subrange(i, k));
            if k >= s.len() {
                Ok(rows.push(row2))
            } else if s[k] == ',' {
                scan_records(s, k + 1, rows, row2)
            } else if s[k] == '\n' {
                if k + 1 >= s.len() {
                    Ok(rows.push(row2))
                } else {
                    scan_records(s, k + 1, rows.push(row2), seq![])
                }
            } else {
                Err(k)
            }
        },
    }
}

#[via_fn]
proof fn scan_records_decreases(
    s: Seq<char>,
    i: int,
    rows: Seq<Seq<Seq<char>>>,
    row: Seq<Seq<char>>,
) {
    lemma_number_end_bounds(s, i);
}

/// The table that `s` denotes: its records, each the sequence of its number
/// tokens; or the position of the first mismatch.
pub open spec fn csv_table(s: Seq<char>) -> Result<Seq<Seq<Seq<char>>>, int> {
    scan_records(s, 0, seq![], seq![])
}

proof fn lemma_digits_end_bounds(s: Seq<char>, i: int)
    requires
        0 <= i <= s.len(),
    ensures
        i <= digits_end(s, i) <= s.len(),
    decreases s.len() - i,
{
    if digit_at(s, i) {
        lemma_digits_end_bounds(s, i + 1);
    }
}

/// A number token is never empty and never runs past the end.
pub proof fn lemma_number_end_bounds(s: Seq<char>, i: int)
    ensures
        number_end(s, i) matches Some(k) ==> 0 <= i < k <= s.len(),
{
    let j = if 0 <= i < s.len() && s[i] == '-' {
        i + 1
    } else {
        i
    };
    if digit_at(s, j) {
        lemma_digits_end_bounds(s, j + 1);
        if let Some(k) = int_part_end(s, j) {
            if has_frac_part(s, k) {
                lemma_digits_end_bounds(s, k + 1);
            }
        }
    }
    if has_frac_part(s, j) {
        lemma_digits_end_bounds(s, j + 1);
    }
}

fn is_digit_char(c: char) -> (r: bool)
    ensures
        r == is_digit(c),
{
    '0' <= c && c <= '9'
}

fn scan_digits(cs: &Vec<char>, i: usize) -> (r: usize)
    requires
        i <= cs@.len(),
    ensures
        r == digits_end(cs@, i as int),
{
    let mut j: usize = i;
    while j < cs.len() && is_digit_char(cs[j])
        invariant
            i <= j <= cs@.len(),
            digits_end(cs@, j as int) == digits_end(cs@, i as int),
        decreases cs@.len() - j,
    {
        j = j + 1;
    }
    j
}

fn frac_part_at(cs: &Vec<char>, k: usize) -> (r: bool)
    requires
        k <= cs@.len(),
    ensures
        r == has_frac_part(cs@, k as int),
{
    k < cs.len() && cs[k] == '.' && k + 1 < cs.len() && is_digit_char(cs[k + 1])
}

/// The end of the longest number token that starts at `i` in `cs`.
pub fn number_end_at(cs: &Vec<char>, i: usize) -> (r: Option<usize>)
    requires
        i <= cs@.len(),
    ensures
        match r {
            Some(k) => number_end(cs@, i as int) == Some(k as int),
            None => number_end(cs@, i as int) is None,
        },
{
    proof {
        lemma_number_end_bounds(cs@, i as int);
    }
    let j: usize = if i < cs.len() && cs[i] == '-' {
        i + 1
    } else {
        i
    };
    let int_end: Option<usize> = if j < cs.len() && is_digit_char(cs[j]) {
        if cs[j] == '0' {
            if j + 1 < cs.len() && is_digit_char(cs[j + 1]) {
                None
            } else {
                Some(j + 1)
            }
        } else {
            Some(scan_digits(cs, j))
        }
    } else {
        None
    };
    match int_end {
        Some(k) => {
            proof {
                lemma_digits_end_bounds(cs@, j as int);
            }
            if frac_part_at(cs, k) {
                Some(scan_digits(cs, k + 1))
            } else {
                Some(k)
            }
        },
        None => {
            if frac_part_at(cs, j) {
                Some(scan_digits(cs, j + 1))
            } else {
                None
            }
        },
    }
}

/// The longest number token at the start of `s`.
///
/// The token need not reach the end of `s`: on `"1.1.1"` it is `"1.1"`.
/// Where no number starts the text, the error is at position 0.
pub fn parse_number(s: &str) -> (r: Result<String, SyntaxError>)
    ensures
        match number_end(s@, 0) {
            Some(k) => r matches Ok(t) && t@ == s@.subrange(0, k),
            None => r == Err::<String, SyntaxError>(SyntaxError { pos: 0 }),
        },
{
    let cs = chars_of(s);
    match number_end_at(&cs, 0) {
        Some(k) => {
            proof {
                lemma_number_end_bounds(cs@, 0);
            }
            Ok(string_of(&cs, 0, k))
        },
        None => Err(SyntaxError { pos: 0 }),
    }
}

/// Parses a whole CSV text into its records, each the sequence of its number
/// tokens in order.
///
/// Fails with the position of the first mismatch: a character where a number
/// should start, or one after a number that is neither a comma, a line break
/// nor the end of the text.
pub fn parse(data: &str) -> (r: Result<Vec<Vec<String>>, SyntaxError>)
    ensures
        match csv_table(data@) {
            Ok(t) => r matches Ok(rows) && rows.deep_view() == t,
            Err(p) => r == Err::<Vec<Vec<String>>, SyntaxError>(SyntaxError { pos: p as usize }),
        },
{
    let cs = chars_of(data);
    let mut rows: Vec<Vec<String>> = Vec::new();
    let mut row: Vec<String> = Vec::new();
    let mut i: usize = 0;
    assert(rows.deep_view() =~= seq![]);
    assert(row.deep_view() =~= seq![]);
    loop
        invariant
            i <= cs@.len(),
            cs@ == data@,
            scan_records(cs@, i as int, rows.deep_view(), row.deep_view()) == csv_table(data@),
        decreases cs@.len() - i,
    {
        proof {
            lemma_number_end_bounds(cs@, i as int);
        }
        let k = match number_end_at(&cs, i) {
            Some(k) => k,
            None => {
                return Err(SyntaxError { pos: i });
            },
        };
        let ghost old_rows = rows.deep_view();
        let ghost old_row = row.deep_view();
        row.push(string_of(&cs, i, k));
        assert(row.deep_view() =~= old_row.push(cs@.subrange(i as int, k as int)));
        if k >= cs.len() {
            rows.push(row);
            assert(rows.deep_view() =~= old_rows.push(old_row.push(cs@.subrange(i as int, k as int))));
            return Ok(rows);
        } else if cs[k] == ',' {
            i = k + 1;
        } else if cs[k] == '\n' {
            rows.push(row);
            assert(rows.deep_view() =~= old_rows.push(old_row.push(cs@.subrange(i as int, k as int))));
            if k + 1 >= cs.len() {
                return Ok(rows);
            }
            row = Vec::new();
            assert(row.deep_view() =~= seq![]);
            i = k + 1;
        } else {
            return Err(SyntaxError { pos: k });
        }
    }
}

/// A text that is a single number token, as a whole, is one record holding
/// that one token, and the number rule reads all of it.
pub proof fn lemma_single_number(s: Seq<char>)
    requires
        is_number(s),
    ensures
        csv_table(s) == Ok::<Seq<Seq<Seq<char>>>, int>(seq![seq![s]]),
        s.subrange(0, number_end(s, 0)->0) == s,
{
    assert(s.subrange(0, s.len() as int) =~= s);
    assert(seq![s] =~= Seq::<Seq<char>>::empty().push(s.subrange(0, s.len() as int)));
}

proof fn lemma_digits_end_truncate(s: Seq<char>, i: int, k: int, a: int)
    requires
        0 <= i <= a <= k <= s.len(),
        digits_end(s, a) <= k,
    ensures
        digits_end(s.subrange(i, k), a - i) == digits_end(s, a) - i,
    decreases k - a,
{
    let t = s.subrange(i, k);
    if a < k {
        assert(t[a - i] == s[a]);
        if digit_at(s, a) {
            lemma_digits_end_truncate(s, i, k, a + 1);
        }
    } else {
        lemma_digits_end_bounds(s, a);
    }
}

/// A number token, cut out of its text, is a number as a whole.
pub proof fn lemma_token_is_number(s: Seq<char>, i: int)
    requires
        number_end(s, i) is Some,
    ensures
        is_number(s.subrange(i, number_end(s, i)->0)),
{
    lemma_number_end_bounds(s, i);
    let k = number_end(s, i)->0;
    let t = s.subrange(i, k);
    assert(t[0] == s[i]);
    let j = if s[i] == '-' {
        i + 1
    } else {
        i
    };
    if j < k {
        assert(t[j - i] == s[j]);
    }
    if j + 1 < k {
        assert(t[j + 1 - i] == s[j + 1]);
    }
    if digit_at(s, j) {
        lemma_digits_end_bounds(s, j + 1);
    }
    match int_part_end(s, j) {
        Some(m) => {
            if has_frac_part(s, m) {
                lemma_digits_end_bounds(s, m + 2);
            }
            if s[j] != '0' {
                lemma_digits_end_bounds(s, j);
                lemma_digits_end_truncate(s, i, k, j);
            }
            if m < k {
                assert(t[m - i] == s[m]);
            }
            if m + 1 < k {
                assert(t[m + 1 - i] == s[m + 1]);
            }
            if has_frac_part(s, m) {
                lemma_digits_end_bounds(s, m + 1);
                lemma_digits_end_truncate(s, i, k, m + 1);
            }
        },
        None => {
            assert(has_frac_part(s, j));
            lemma_digits_end_bounds(s, j + 2);
            assert(t[j + 1 - i] == s[j + 1]);
            lemma_digits_end_bounds(s, j + 1);
            lemma_digits_end_truncate(s, i, k, j + 1);
        },
    }
}

/// Every record is non-empty and each of its tokens is a number as a whole;
/// a table has at least one record.
pub open spec fn is_table_of_numbers(t: Seq<Seq<Seq<char>>>) -> bool {
    &&& t.len() > 0
    &&& forall|r: int| 0 <= r < t.len() ==> #[trigger] t[r].len() > 0
    &&& forall|r: int, c: int| 0 <= r < t.len() && 0 <= c < t[r].len() ==> is_number(#[trigger] t[r][c])
}

proof fn lemma_scan_tokens(s: Seq<char>, i: int, rows: Seq<Seq<Seq<char>>>, row: Seq<Seq<char>>)
    requires
        forall|r: int| 0 <= r < rows.len() ==> #[trigger] rows[r].len() > 0,
        forall|r: int, c: int|
            0 <= r < rows.len() && 0 <= c < rows[r].len() ==> is_number(#[trigger] rows[r][c]),
        forall|c: int| 0 <= c < row.len() ==> is_number(#[trigger] row[c]),
    ensures
        scan_records(s, i, rows, row) matches Ok(t) ==> is_table_of_numbers(t),
    decreases s.len() - i,
{
    lemma_number_end_bounds(s, i);
    if let Some(k) = number_end(s, i) {
        lemma_token_is_number(s, i);
        let row2 = row.push(s.subrange(i, k));
        assert(forall|c: int| 0 <= c < row2.len() ==> is_number(#[trigger] row2[c]));
        let rows2 = rows.push(row2);
        assert(forall|r: int| 0 <= r < rows2.len() ==> #[trigger] rows2[r].len() > 0);
        assert forall|r: int, c: int| 0 <= r < rows2.len() && 0 <= c < rows2[r].len() implies is_number(
            #[trigger] rows2[r][c],
        ) by {
            if r < rows.len() {
                assert(rows2[r] == rows[r]);
            }
        }
        if k < s.len() {
            if s[k] == ',' {
                lemma_scan_tokens(s, k + 1, rows, row2);
            } else if s[k] == '\n' {
                lemma_scan_tokens(s, k + 1, rows2, seq![]);
            }
        }
    }
}

/// A parsed table has at least one record, no record is empty, and each
/// token is a number as a whole: the number rule, run on a token, reads all
/// of it.
pub proof fn lemma_table_tokens_are_numbers(s: Seq<char>)
    ensures
        csv_table(s) matches Ok(t) ==> is_table_of_numbers(t),
{
    lemma_scan_tokens(s, 0, seq![], seq![]);
}

proof fn lemma_digits_end_extend(s: Seq<char>, i: int, k: int, a: int)
    requires
        0 <= i <= a <= k <= s.len(),
        k == s.len() || !is_digit(s[k]),
    ensures
        digits_end(s, a) == digits_end(s.subrange(i, k), a - i) + i,
    decreases k - a,
{
    let t = s.subrange(i, k);
    if a < k {
        assert(t[a - i] == s[a]);
        if digit_at(s, a) {
            lemma_digits_end_extend(s, i, k, a + 1);
        }
    }
}

/// A text that holds a number token followed by a separator, or by nothing,
/// gives back that token.
proof fn lemma_number_end_extend(s: Seq<char>, i: int, k: int)
    requires
        0 <= i <= k <= s.len(),
        k == s.len() || s[k] == ',' || s[k] == '\n',
        is_number(s.subrange(i, k)),
    ensures
        number_end(s, i) == Some(k),
{
    let t = s.subrange(i, k);
    lemma_number_end_bounds(t, 0);
    assert(t[0] == s[i]);
    let jt = if t[0] == '-' {
        1int
    } else {
        0int
    };
    let j = jt + i;
    if j < k {
        assert(t[jt] == s[j]);
    }
    if j + 1 < k {
        assert(t[jt + 1] == s[j + 1]);
    }
    if j < k {
        lemma_digits_end_extend(s, i, k, j);
    }
    if j + 1 <= k {
        lemma_digits_end_extend(s, i, k, j + 1);
    }
    if let Some(mt) = int_part_end(t, jt) {
        let m = mt + i;
        if jt < t.len() && t[jt] != '0' {
            lemma_digits_end_bounds(t, jt);
        }
        if m < k {
            assert(t[mt] == s[m]);
        }
        if m + 1 < k {
            assert(t[mt + 1] == s[m + 1]);
        }
        if m + 1 <= k {
            lemma_digits_end_extend(s, i, k, m + 1);
        }
    }
}

/// The text of a record: its tokens joined by commas.
pub open spec fn record_text(row: Seq<Seq<char>>) -> Seq<char>
    decreases row.len(),
{
    if row.len() <= 1 {
        if row.len() == 1 {
            row[0]
        } else {
            seq![]
        }
    } else {
        row[0] + seq![','] + record_text(row.drop_first())
    }
}

/// The text of a table: its records' texts joined by line breaks.
pub open spec fn table_text(t: Seq<Seq<Seq<char>>>) -> Seq<char>
    decreases t.len(),
{
    if t.len() <= 1 {
        if t.len() == 1 {
            record_text(t[0])
        } else {
            seq![]
        }
    } else {
        record_text(t[0]) + seq!['\n'] + table_text(t.drop_first())
    }
}

proof fn lemma_scan_record_text(
    s: Seq<char>,
    i: int,
    rows: Seq<Seq<Seq<char>>>,
    cur: Seq<Seq<char>>,
    r: Seq<Seq<char>>,
)
    requires
        r.len() > 0,
        forall|c: int| 0 <= c < r.len() ==> is_number(#[trigger] r[c]),
        0 <= i,
        i + record_text(r).len() <= s.len(),
        s.subrange(i, i + record_text(r).len()) == record_text(r),
        i + record_text(r).len() == s.len() || s[i + record_text(r).len()] == '\n',
    ensures
        ({
            let e = i + record_text(r).len();
            scan_records(s, i, rows, cur) == if e + 1 >= s.len() {
                Ok::<Seq<Seq<Seq<char>>>, int>(rows.push(cur + r))
            } else {
                scan_records(s, e + 1, rows.push(cur + r), seq![])
            }
        }),
    decreases r.len(),
{
    let e = i + record_text(r).len();
    if r.len() == 1 {
        assert(record_text(r) == r[0]);
        lemma_number_end_extend(s, i, e);
        assert(cur.push(s.subrange(i, e)) =~= cur + r);
    } else {
        let rest = r.drop_first();
        let k = i + r[0].len();
        let tail = record_text(rest);
        assert(record_text(r) == r[0] + seq![','] + tail);
        assert(s.subrange(i, k) =~= r[0]) by {
            assert forall|m: int| 0 <= m < r[0].len() implies s.subrange(i, k)[m] == r[0][m] by {
                assert(s.subrange(i, e)[m] == record_text(r)[m]);
            }
        }
        assert(s[k] == ',') by {
            assert(s.subrange(i, e)[k - i] == record_text(r)[k - i]);
        }
        assert(s.subrange(k + 1, k + 1 + tail.len()) =~= tail) by {
            assert forall|m: int| 0 <= m < tail.len() implies s.subrange(k + 1, k + 1 + tail.len())[m]
                == tail[m] by {
                assert(s.subrange(i, e)[k + 1 - i + m] == record_text(r)[k + 1 - i + m]);
            }
        }
        assert forall|c: int| 0 <= c < rest.len() implies is_number(#[trigger] rest[c]) by {
            assert(rest[c] == r[c + 1]);
        }
        lemma_number_end_extend(s, i, k);
        lemma_scan_record_text(s, k + 1, rows, cur.push(r[0]), rest);
        assert(cur.push(r[0]) + rest =~= cur + r);
    }
}

proof fn lemma_scan_table_text(s: Seq<char>, i: int, rows: Seq<Seq<Seq<char>>>, t: Seq<Seq<Seq<char>>>)
    requires
        is_table_of_numbers(t),
        0 <= i,
        i + table_text(t).len() == s.len(),
        s.subrange(i, s.len() as int) == table_text(t),
    ensures
        scan_records(s, i, rows, seq![]) == Ok::<Seq<Seq<Seq<char>>>, int>(rows + t),
    decreases t.len(),
{
    let r = t[0];
    let rt = record_text(r);
    let e = i + rt.len();
    assert(t[0].len() > 0);
    assert(is_number(r[0]));
    lemma_number_end_bounds(r[0], 0);
    assert(rt.len() > 0);
    assert(forall|c: int| 0 <= c < r.len() ==> is_number(#[trigger] r[c])) by {
        assert forall|c: int| 0 <= c < r.len() implies is_number(#[trigger] r[c]) by {
            assert(t[0][c] == r[c]);
        }
    }
    if t.len() == 1 {
        assert(table_text(t) == rt);
        lemma_scan_record_text(s, i, rows, seq![], r);
        assert(seq![] + r =~= r);
        assert(rows.push(r) =~= rows + t);
    } else {
        let rest = t.drop_first();
        let tt = table_text(rest);
        assert(table_text(t) == rt + seq!['\n'] + tt);
        assert(s.subrange(i, e) =~= rt) by {
            assert forall|m: int| 0 <= m < rt.len() implies s.subrange(i, e)[m] == rt[m] by {
                assert(s.subrange(i, s.len() as int)[m] == table_text(t)[m]);
            }
        }
        assert(s[e] == '\n') by {
            assert(s.subrange(i, s.len() as int)[e - i] == table_text(t)[e - i]);
        }
        assert(s.subrange(e + 1, s.len() as int) =~= tt) by {
            assert forall|m: int| 0 <= m < tt.len() implies s.subrange(e + 1, s.len() as int)[m]
                == tt[m] by {
                assert(s.subrange(i, s.len() as int)[e + 1 - i + m] == table_text(t)[e + 1 - i + m]);
            }
        }
        assert(is_table_of_numbers(rest)) by {
            assert forall|x: int| 0 <= x < rest.len() implies #[trigger] rest[x].len() > 0 by {
                assert(rest[x] == t[x + 1]);
            }
            assert forall|x: int, c: int| 0 <= x < rest.len() && 0 <= c < rest[x].len() implies is_number(
                #[trigger] rest[x][c],
            ) by {
                assert(rest[x] == t[x + 1]);
                assert(is_number(t[x + 1][c]));
            }
        }
        assert(rest[0].len() > 0);
        assert(is_number(rest[0][0]));
        lemma_number_end_bounds(rest[0][0], 0);
        assert(record_text(rest[0]).len() > 0);
        assert(tt.len() > 0);
        lemma_scan_record_text(s, i, rows, seq![], r);
        assert(seq![] + r =~= r);
        lemma_scan_table_text(s, e + 1, rows.push(r), rest);
        assert(rows.push(r) + rest =~= rows + t);
    }
}

/// Parsing the text of a table of numbers gives back that table.
pub proof fn lemma_table_text_round_trip(t: Seq<Seq<Seq<char>>>)
    requires
        is_table_of_numbers(t),
    ensures
        csv_table(table_text(t)) == Ok::<Seq<Seq<Seq<char>>>, int>(t),
{
    let s = table_text(t);
    assert(s.subrange(0, s.len() as int) =~= s);
    lemma_scan_table_text(s, 0, seq![], t);
    assert(seq![] + t =~= t);
}

/// Writing a parsed table back as text and parsing that text again gives
/// the same table.
pub proof fn lemma_parse_round_trip(s: Seq<char>)
    requires
        csv_table(s) is Ok,
    ensures
        csv_table(table_text(csv_table(s)->Ok_0)) == csv_table(s),
{
    lemma_table_tokens_are_numbers(s);
    lemma_table_text_round_trip(csv_table(s)->Ok_0);
}

} // verus!
