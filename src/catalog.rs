//! The archive listing: one `name<TAB>YYYY-MM-DD HH:MM:SS` row per line, in UTC.
use vstd::prelude::*;

use crate::retention::Snapshot;

verus! {

/// What str::trim returns for a string: it without leading and trailing whitespace.
pub uninterp spec fn trimmed(s: Seq<char>) -> Seq<char>;

/// What chrono reads from `text` under `format`, as seconds since the epoch
/// in UTC, if it reads a date and time at all.
pub uninterp spec fn utc_seconds(text: Seq<char>, format: Seq<char>) -> Option<i64>;

#[verifier::external_type_specification]
#[verifier::external_body]
pub struct ExParseError(chrono::format::ParseError);

/// Relies on str::trim, to strip the whitespace around a timestamp; what it
/// returns depends on the characters alone.
#[verifier::external_body]
fn trim_whitespace(s: &str) -> (r: &str)
    ensures
        r@ == trimmed(s@),
{
    s.trim()
}

/// Relies on chrono's NaiveDateTime::parse_from_str, to read a date and time
/// written in `format`; NaiveDateTime::and_utc and DateTime::timestamp then
/// count it in seconds since the epoch, in UTC. The outcome depends on the two
/// texts alone.
#[verifier::external_body]
fn parse_utc_seconds(text: &str, format: &str) -> (r: Result<i64, chrono::format::ParseError>)
    ensures
        match r {
            Ok(t) => utc_seconds(text@, format@) == Some(t),
            Err(_) => utc_seconds(text@, format@) is None,
        },
{
    match chrono::NaiveDateTime::parse_from_str(text, format) {
        Ok(t) => Ok(t.and_utc().timestamp()),
        Err(e) => Err(e),
    }
}

/// A listing row that has no tab-separated timestamp, or whose timestamp
/// cannot be read.
#[derive(Clone, Debug, PartialEq)]
pub struct CatalogParseError {
    pub row: String,
}

impl CatalogParseError {
    /// A line for the user naming the offending row.
    pub fn message(&self) -> (r: String)
        ensures
            r@ == "Failed to parse timestamp: "@ + self.row@,
    {
        let mut m = String::from_str("Failed to parse timestamp: ");
        m.append(self.row.as_str());
        m
    }
}

pub open spec fn timestamp_format() -> Seq<char> {
    "%Y-%m-%d %H:%M:%S"@
}

/// Position of the first tab among the first `n` characters, if any.
pub open spec fn first_tab_in(s: Seq<char>, n: nat) -> Option<int>
    decreases n,
{
    if n == 0 {
        None
    } else {
        match first_tab_in(s, (n - 1) as nat) {
            Some(p) => Some(p),
            None => if s[n - 1] == '\t' {
                Some(n - 1)
            } else {
                None
            },
        }
    }
}

pub open spec fn first_tab(s: Seq<char>) -> Option<int> {
    first_tab_in(s, s.len())
}

/// Name and timestamp text of a row: the parts before and after its first tab.
pub open spec fn row_parts(row: Seq<char>) -> Option<(Seq<char>, Seq<char>)> {
    match first_tab(row) {
        Some(p) => Some((row.subrange(0, p), row.subrange(p + 1, row.len() as int))),
        None => None,
    }
}

/// Name and timestamp of a row, if it has both.
pub open spec fn row_fields(row: Seq<char>) -> Option<(Seq<char>, i64)> {
    match row_parts(row) {
        Some((name, when)) => match utc_seconds(trimmed(when), timestamp_format()) {
            Some(t) => Some((name, t)),
            None => None,
        },
        None => None,
    }
}

/// Start of the line that holds position `i`: just past the last newline before it.
pub open spec fn line_start(s: Seq<char>, i: nat) -> int
    decreases i,
{
    if i == 0 {
        0
    } else if s[i - 1] == '\n' {
        i as int
    } else {
        line_start(s, (i - 1) as nat)
    }
}

/// The lines that end with a newline among the first `i` characters.
pub open spec fn closed_lines(s: Seq<char>, i: nat) -> Seq<Seq<char>>
    decreases i,
{
    if i == 0 {
        Seq::empty()
    } else if s[i - 1] == '\n' {
        closed_lines(s, (i - 1) as nat).push(
            s.subrange(line_start(s, (i - 1) as nat), i - 1),
        )
    } else {
        closed_lines(s, (i - 1) as nat)
    }
}

/// The rows of a text: split at each newline, with no empty row after a final newline.
pub open spec fn rows_of(s: Seq<char>) -> Seq<Seq<char>> {
    if line_start(s, s.len()) < s.len() {
        closed_lines(s, s.len()).push(s.subrange(line_start(s, s.len()), s.len() as int))
    } else {
        closed_lines(s, s.len())
    }
}

/// Names and timestamps of the first `n` rows, or the first row that fails.
pub open spec fn parse_rows(rows: Seq<Seq<char>>, n: nat) -> Result<
    Seq<(Seq<char>, i64)>,
    Seq<char>,
>
    decreases n,
{
    if n == 0 {
        Ok(Seq::empty())
    } else {
        match parse_rows(rows, (n - 1) as nat) {
            Err(e) => Err(e),
            Ok(v) => match row_fields(rows[n - 1]) {
                Some(f) => Ok(v.push(f)),
                None => Err(rows[n - 1]),
            },
        }
    }
}

pub open spec fn fields_of(v: Seq<Snapshot>) -> Seq<(Seq<char>, i64)> {
    Seq::new(v.len(), |i: int| (v[i].name@, v[i].ts))
}

proof fn lemma_first_tab_in_bounds(s: Seq<char>, n: nat)
    requires
        n <= s.len(),
    ensures
        match first_tab_in(s, n) {
            Some(p) => 0 <= p < n && s[p] == '\t' && forall|q: int| 0 <= q < p ==> s[q] != '\t',
            None => forall|q: int| 0 <= q < n ==> s[q] != '\t',
        },
    decreases n,
{
    if n > 0 {
        lemma_first_tab_in_bounds(s, (n - 1) as nat);
    }
}

/// Splits a row at its first tab into the name and the timestamp text.
pub fn split_at_tab(row: &str) -> (r: Option<(&str, &str)>)
    ensures
        match r {
            Some((name, when)) => row_parts(row@) == Some((name@, when@)),
            None => row_parts(row@) is None,
        },
{
    let n = row.unicode_len();
    let mut i: usize = 0;
    while i < n
        invariant
            n == row@.len(),
            i <= n,
            first_tab_in(row@, i as nat) is None,
        decreases n - i,
    {
        if row.get_char(i) == '\t' {
            proof {
                lemma_first_tab_in_bounds(row@, i as nat);
                lemma_first_tab_stays(row@, (i + 1) as nat, n as nat);
            }
            let name = row.substring_char(0, i);
            let when = row.substring_char(i + 1, n);
            return Some((name, when));
        }
        i = i + 1;
    }
    None
}

proof fn lemma_first_tab_stays(s: Seq<char>, n: nat, m: nat)
    requires
        n <= m <= s.len(),
        first_tab_in(s, n) is Some,
    ensures
        first_tab_in(s, m) == first_tab_in(s, n),
    decreases m - n,
{
    if n < m {
        lemma_first_tab_stays(s, n, (m - 1) as nat);
    }
}

/// Reads one listing row into a snapshot.
pub fn parse_archive_row(row: &str) -> (r: Result<Snapshot, CatalogParseError>)
    ensures
        match r {
            Ok(s) => row_fields(row@) == Some((s.name@, s.ts)),
            Err(e) => row_fields(row@) is None && e.row@ == row@,
        },
{
    match split_at_tab(row) {
        Some((name, when)) => match parse_utc_seconds(trim_whitespace(when), "%Y-%m-%d %H:%M:%S") {
            Ok(t) => Ok(Snapshot { name: String::from_str(name), ts: t }),
            Err(_) => Err(CatalogParseError { row: String::from_str(row) }),
        },
        None => Err(CatalogParseError { row: String::from_str(row) }),
    }
}


proof fn lemma_parse_rows_err_stays(rows: Seq<Seq<char>>, n: nat, m: nat)
    requires
        n <= m,
        parse_rows(rows, n) is Err,
    ensures
        parse_rows(rows, m) == parse_rows(rows, n),
    decreases m - n,
{
    if n < m {
        lemma_parse_rows_err_stays(rows, n, (m - 1) as nat);
    }
}

proof fn lemma_line_start_bounds(s: Seq<char>, i: nat)
    requires
        i <= s.len(),
    ensures
        0 <= line_start(s, i) <= i,
    decreases i,
{
    if i > 0 {
        lemma_line_start_bounds(s, (i - 1) as nat);
    }
}

/// Reads a whole listing, row by row; fails on the first row that is not one.
pub fn parse_archives(archives: &str) -> (r: Result<Vec<Snapshot>, CatalogParseError>)
    ensures
        match r {
            Ok(v) => parse_rows(rows_of(archives@), rows_of(archives@).len()) == Ok::<
                Seq<(Seq<char>, i64)>,
                Seq<char>,
            >(fields_of(v@)),
            Err(e) => parse_rows(rows_of(archives@), rows_of(archives@).len()) == Err::<
                Seq<(Seq<char>, i64)>,
                Seq<char>,
            >(e.row@),
        },
{
    let ghost s = archives@;
    let n = archives.unicode_len();
    let mut out: Vec<Snapshot> = Vec::new();
    let mut start: usize = 0;
    let mut i: usize = 0;
    proof {
        assert(closed_lines(s, 0) =~= Seq::<Seq<char>>::empty());
        assert(fields_of(out@) =~= Seq::<(Seq<char>, i64)>::empty());
    }
    for c in it: archives.chars()
        invariant
            n == s.len(),
            s == archives@,
            it.seq() == s,
            i == it.index(),
            i <= n,
            start == line_start(s, i as nat),
            parse_rows(closed_lines(s, i as nat), closed_lines(s, i as nat).len()) == Ok::<
                Seq<(Seq<char>, i64)>,
                Seq<char>,
            >(fields_of(out@)),
    {
        proof {
            lemma_line_start_bounds(s, i as nat);
        }
        if c == '\n' {
            let row = archives.substring_char(start, i);
            let ghost lines = closed_lines(s, i as nat);
            let ghost more = closed_lines(s, (i + 1) as nat);
            proof {
                assert(more == lines.push(row@));
                assert forall|q: int| 0 <= q < lines.len() implies #[trigger] more[q] == lines[q] by {}
                lemma_parse_rows_prefix(lines, more, lines.len());
            }
            match parse_archive_row(row) {
                Ok(snap) => {
                    let ghost before = out@;
                    out.push(snap);
                    proof {
                        assert(fields_of(out@) =~= fields_of(before).push((snap.name@, snap.ts)));
                    }
                },
                Err(e) => {
                    proof {
                        lemma_rows_extend(s, (i + 1) as nat);
                        let all = rows_of(s);
                        assert forall|q: int| 0 <= q < more.len() implies #[trigger] all[q] == more[q] by {}
                        lemma_parse_rows_prefix(more, all, more.len());
                        lemma_parse_rows_err_stays(all, more.len(), all.len());
                    }
                    return Err(e);
                },
            }
            start = i + 1;
        }
        i = i + 1;
    }
    if start < n {
        let row = archives.substring_char(start, n);
        let ghost lines = closed_lines(s, n as nat);
        proof {
            assert(rows_of(s) == lines.push(row@));
            assert forall|q: int| 0 <= q < lines.len() implies #[trigger] rows_of(s)[q] == lines[q] by {}
            lemma_parse_rows_prefix(lines, rows_of(s), lines.len());
        }
        match parse_archive_row(row) {
            Ok(snap) => {
                let ghost before = out@;
                out.push(snap);
                proof {
                    assert(fields_of(out@) =~= fields_of(before).push((snap.name@, snap.ts)));
                }
            },
            Err(e) => {
                return Err(e);
            },
        }
    }
    Ok(out)
}

/// Rows that two sequences share give the same outcome.
proof fn lemma_parse_rows_prefix(a: Seq<Seq<char>>, b: Seq<Seq<char>>, n: nat)
    requires
        n <= a.len(),
        n <= b.len(),
        forall|q: int| 0 <= q < n ==> #[trigger] a[q] == b[q],
    ensures
        parse_rows(a, n) == parse_rows(b, n),
    decreases n,
{
    if n > 0 {
        lemma_parse_rows_prefix(a, b, (n - 1) as nat);
    }
}

proof fn lemma_closed_lines_prefix(s: Seq<char>, i: nat, j: nat)
    requires
        i <= j <= s.len(),
    ensures
        closed_lines(s, i).len() <= closed_lines(s, j).len(),
        forall|q: int|
            0 <= q < closed_lines(s, i).len() ==> #[trigger] closed_lines(s, j)[q] == closed_lines(
                s,
                i,
            )[q],
    decreases j - i,
{
    if i < j {
        lemma_closed_lines_prefix(s, i, (j - 1) as nat);
    }
}

/// The closed lines of a prefix come first among the rows of the whole text.
proof fn lemma_rows_extend(s: Seq<char>, i: nat)
    requires
        i <= s.len(),
    ensures
        closed_lines(s, i).len() <= rows_of(s).len(),
        forall|q: int|
            0 <= q < closed_lines(s, i).len() ==> #[trigger] rows_of(s)[q] == closed_lines(s, i)[q],
{
    lemma_closed_lines_prefix(s, i, s.len());
}

} // verus!
