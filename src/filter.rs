use std::collections::HashSet;

use oops::Oops;
use vstd::prelude::*;

use crate::text::{
    lemma_token_spans_bounds, lemma_tokens_trim, lemma_trim_idempotent, line_pieces, span_view,
    split_lines, split_spans, start_view, token_spans, tokens, trim, trim_str,
};

verus! {

#[verifier::external_type_specification]
#[verifier::external_body]
pub struct ExIoError(std::io::Error);

/// Whether some element of `list` spells out `s`.
pub open spec fn listed(list: Set<String>, s: Seq<char>) -> bool {
    exists|k: String| #[trigger] list.contains(k) && k@ == s
}

/// Relies on `HashSet::contains`, looking a `String` up by `&str`: true
/// exactly when an element of the set is equal to `s`.
#[verifier::external_body]
fn set_contains(list: &HashSet<String>, s: &str) -> (r: bool)
    ensures
        r == listed(list@, s@),
{
    list.contains(s)
}

/// Relies on `HashSet::insert`: afterwards the set holds exactly what it
/// held before, and `s`.
#[verifier::external_body]
fn set_insert(list: &mut HashSet<String>, s: String)
    ensures
        forall|t: Seq<char>| #[trigger] listed(final(list)@, t) == (listed(old(list)@, t) || t == s@),
{
    list.insert(s);
}

/// The entries of a list file: its lines, trimmed.
pub open spec fn is_entry(text: Seq<char>, t: Seq<char>) -> bool {
    exists|j: int| 0 <= j < line_pieces(text).len() && t == trim(#[trigger] line_pieces(text)[j])
}

/// The set of the trimmed lines of `text`, duplicates collapsed.
pub fn load_list(text: &str) -> (r: HashSet<String>)
    ensures
        forall|t: Seq<char>| #[trigger] listed(r@, t) == is_entry(text@, t),
{
    let lines = split_lines(text);
    let mut set: HashSet<String> = HashSet::new();
    let mut i: usize = 0;
    while i < lines.len()
        invariant
            i <= lines@.len(),
            lines@.len() == line_pieces(text@).len(),
            forall|j: int| 0 <= j < lines@.len() ==> trim(#[trigger] lines@[j]@) == trim(line_pieces(text@)[j]),
            forall|t: Seq<char>| #[trigger] listed(set@, t) == exists|j: int|
                0 <= j < i && t == trim(#[trigger] line_pieces(text@)[j]),
        decreases lines.len() - i,
    {
        let entry = trim_str(lines[i]).to_owned();
        let ghost before = set@;
        set_insert(&mut set, entry);
        assert forall|t: Seq<char>| #[trigger] listed(set@, t) == exists|j: int|
            0 <= j < i + 1 && t == trim(#[trigger] line_pieces(text@)[j]) by {
            if t == trim(line_pieces(text@)[i as int]) {
                assert(listed(set@, t));
            }
            if listed(before, t) {
                let j = choose|j: int| 0 <= j < i && t == trim(#[trigger] line_pieces(text@)[j]);
                assert(0 <= j < i + 1 && t == trim(line_pieces(text@)[j]));
            }
        }
        i += 1;
    }
    set
}

/// The position among `count` tokens that `column` designates: counted
/// from the front from 0 when non-negative, from the back when negative
/// (`-1` is the last token). `None` when there is no such token.
pub open spec fn column_index(column: int, count: int) -> Option<int> {
    if column >= 0 {
        if column < count {
            Some(column)
        } else {
            None
        }
    } else {
        if -column <= count {
            Some(count + column)
        } else {
            None
        }
    }
}

/// The token of `line` that `column` designates, if the line has it.
pub open spec fn column_of(line: Seq<char>, column: int) -> Option<Seq<char>> {
    match column_index(column, tokens(line).len() as int) {
        Some(j) => Some(tokens(line)[j]),
        None => None,
    }
}

/// The decision on one line: whether it is emitted, or `None` where the
/// requested column is absent from it. The line (or its selected column)
/// is emitted exactly when its membership in `list` agrees with `allow`.
pub open spec fn decide(line: Seq<char>, column: Option<i32>, allow: bool, list: Set<String>) -> Option<bool> {
    match column {
        None => Some(allow == listed(list, line)),
        Some(k) => match column_of(line, k as int) {
            Some(t) => Some(allow == listed(list, t)),
            None => None,
        },
    }
}

/// A line lacks the column that was asked for.
#[derive(Debug)]
pub struct FilterError {
    /// The requested column.
    pub column: i32,
    /// The offending line.
    pub line: String,
    /// The error that describes both.
    pub cause: std::io::Error,
}

/// Relies on `Oops::oops` for `Option`: `Some(t)` becomes `Ok(t)`, and
/// `None` an error of kind `Other` that carries the message.
#[verifier::external_body]
fn require_column<'a>(found: Option<&'a str>, column: i32, line: &str) -> (r: std::io::Result<&'a str>)
    ensures
        r.is_ok() == found.is_some(),
        r matches Ok(u) ==> found == Some(u),
{
    found.oops(&format!("Requested column {} absent on input {}", column, line))
}

/// The whitespace-delimited token of `line` that `column` designates.
pub fn select_column<'a>(line: &'a str, column: i32) -> (r: Option<&'a str>)
    ensures
        match r {
            Some(t) => column_of(line@, column as int) == Some(t@),
            None => column_of(line@, column as int) is None,
        },
{
    let spans = split_spans(line);
    let count = spans.len();
    proof {
        lemma_token_spans_bounds(line@);
    }
    let idx: Option<usize> = if column >= 0 {
        let k = column as usize;
        if k < count {
            Some(k)
        } else {
            None
        }
    } else {
        let back = (-(column as i64) - 1) as usize;
        if back < count {
            Some(count - 1 - back)
        } else {
            None
        }
    };
    assert(start_view(idx) == column_index(column as int, tokens(line@).len() as int));
    match idx {
        Some(j) => {
            let (st, en) = spans[j];
            assert(span_view(spans@)[j as int] == token_spans(line@)[j as int]);
            Some(line.substring_char(st, en))
        },
        None => None,
    }
}

/// Decides whether `line` passes: its whole text, or the token that
/// `column` designates, is looked up in `list`, and the line passes when
/// the outcome agrees with `allow`. A missing column is an error that
/// names the column and the line.
pub fn filter(line: &str, column: Option<i32>, allow: bool, list: &HashSet<String>) -> (r: Result<bool, FilterError>)
    ensures
        match decide(line@, column, allow, list@) {
            Some(b) => r matches Ok(v) && v == b,
            None => r matches Err(e) && column == Some(e.column) && e.line@ == line@,
        },
{
    let list_contains = match column {
        Some(k) => {
            let matchee = match require_column(select_column(line, k), k, line) {
                Ok(t) => t,
                Err(cause) => {
                    return Err(FilterError { column: k, line: line.to_owned(), cause });
                },
            };
            set_contains(list, matchee)
        },
        None => set_contains(list, line),
    };
    Ok(allow == list_contains)
}

/// What the stream makes of one line: its trimmed text where it passes,
/// `None` where it is dropped, and the error of `filter` where its column is
/// missing.
pub fn pass_line(line: &str, column: Option<i32>, allow: bool, list: &HashSet<String>) -> (r: Result<Option<String>, FilterError>)
    ensures
        match decide(line@, column, allow, list@) {
            Some(true) => r matches Ok(Some(out)) && out@ == trim(line@),
            Some(false) => r matches Ok(None),
            None => r matches Err(e) && column == Some(e.column) && e.line@ == line@,
        },
{
    match filter(line, column, allow, list) {
        Ok(true) => Ok(Some(trim_str(line).to_owned())),
        Ok(false) => Ok(None),
        Err(e) => Err(e),
    }
}

/// The output of the stream over `lines`: the trimmed lines that pass, in
/// order, or `None` where some line lacks the requested column.
pub open spec fn run(lines: Seq<Seq<char>>, column: Option<i32>, allow: bool, list: Set<String>) -> Option<Seq<Seq<char>>>
    decreases lines.len(),
{
    if lines.len() == 0 {
        Some(seq![])
    } else {
        match run(lines.drop_last(), column, allow, list) {
            None => None,
            Some(out) => match decide(lines.last(), column, allow, list) {
                None => None,
                Some(true) => Some(out.push(trim(lines.last()))),
                Some(false) => Some(out),
            },
        }
    }
}

proof fn lemma_run_stops(ls: Seq<Seq<char>>, i: int, column: Option<i32>, allow: bool, list: Set<String>)
    requires
        0 <= i < ls.len(),
        run(ls.take(i), column, allow, list) is Some,
        decide(ls[i], column, allow, list) is None,
    ensures
        run(ls, column, allow, list) is None,
    decreases ls.len(),
{
    if ls.len() == i + 1 {
        assert(ls.drop_last() =~= ls.take(i));
    } else {
        assert(ls.drop_last().take(i) =~= ls.take(i));
        assert(ls.drop_last()[i] == ls[i]);
        lemma_run_stops(ls.drop_last(), i, column, allow, list);
    }
}

pub open spec fn lines_view(v: Seq<String>) -> Seq<Seq<char>> {
    v.map_values(|s: String| s@)
}

/// Runs the stream over `lines`, stopping at the first line that lacks the
/// requested column.
pub fn filter_lines(lines: &Vec<String>, column: Option<i32>, allow: bool, list: &HashSet<String>) -> (r: Result<Vec<String>, FilterError>)
    ensures
        match run(lines_view(lines@), column, allow, list@) {
            Some(out) => r matches Ok(v) && lines_view(v@) == out,
            None => r matches Err(e) && exists|j: int|
                0 <= j < lines@.len() && #[trigger] lines@[j]@ == e.line@
                    && column == Some(e.column)
                    && run(lines_view(lines@).take(j), column, allow, list@) is Some
                    && decide(lines@[j]@, column, allow, list@) is None,
        },
{
    let mut out: Vec<String> = Vec::new();
    let mut i: usize = 0;
    while i < lines.len()
        invariant
            i <= lines@.len(),
            run(lines_view(lines@).take(i as int), column, allow, list@) == Some(lines_view(out@)),
        decreases lines.len() - i,
    {
        let line = lines[i].as_str();
        proof {
            assert(lines_view(lines@).take(i + 1).drop_last() =~= lines_view(lines@).take(i as int));
            assert(lines_view(lines@).take(i + 1).last() == lines@[i as int]@);
        }
        match pass_line(line, column, allow, list) {
            Ok(Some(kept)) => {
                let ghost before = out@;
                out.push(kept);
                assert(lines_view(out@) =~= lines_view(before).push(out@[before.len() as int]@));
            },
            Ok(None) => {},
            Err(e) => {
                proof {
                    lemma_run_stops(lines_view(lines@), i as int, column, allow, list@);
                    assert(lines@[i as int]@ == e.line@);
                }
                return Err(e);
            },
        }
        i += 1;
    }
    assert(lines_view(lines@).take(lines@.len() as int) =~= lines_view(lines@));
    Ok(out)
}

/// Ban mode on whole lines passes exactly the lines absent from the list;
/// for a line without surrounding whitespace that is its trimmed form.
pub proof fn lemma_ban_mode(line: Seq<char>, list: Set<String>)
    ensures
        decide(line, None, false, list) == Some(!listed(list, line)),
        trim(line) == line ==> decide(line, None, false, list) == Some(!listed(list, trim(line))),
{
}

/// Allow mode on whole lines passes exactly the lines present in the list.
pub proof fn lemma_allow_mode(line: Seq<char>, list: Set<String>)
    ensures
        decide(line, None, true, list) == Some(listed(list, line)),
        trim(line) == line ==> decide(line, None, true, list) == Some(listed(list, trim(line))),
{
}

/// A non-negative column `k` selects the `k`-th token from the front,
/// counted from 0; a negative one `-k` the `k`-th from the back, counted
/// from 1.
pub proof fn lemma_column_selection(line: Seq<char>, column: int)
    ensures
        0 <= column < tokens(line).len() ==> column_of(line, column) == Some(tokens(line)[column]),
        column < 0 && -column <= tokens(line).len() ==> column_of(line, column) == Some(
            tokens(line)[tokens(line).len() + column],
        ),
{
}

/// A column beyond the tokens of the line is an error, whatever the list
/// and the mode.
pub proof fn lemma_column_out_of_range(line: Seq<char>, column: i32, allow: bool, list: Set<String>)
    requires
        column >= tokens(line).len() || -column > tokens(line).len(),
    ensures
        decide(line, Some(column), allow, list) is None,
{
}

/// Running the stream over its own output, with the same column, mode and
/// list, gives that output back unchanged. Without a column the whole line
/// is looked up as received, so this asks there that each line be listed
/// exactly when its trimmed form is.
pub proof fn lemma_filter_idempotent(lines: Seq<Seq<char>>, column: Option<i32>, allow: bool, list: Set<String>)
    requires
        column is None ==> forall|j: int|
            0 <= j < lines.len() ==> listed(list, #[trigger] lines[j]) == listed(list, trim(lines[j])),
    ensures
        run(lines, column, allow, list) matches Some(out) ==> run(out, column, allow, list) == Some(out),
    decreases lines.len(),
{
    if lines.len() > 0 {
        let prev = lines.drop_last();
        assert forall|j: int| 0 <= j < prev.len() implies #[trigger] prev[j] == lines[j] by {}
        lemma_filter_idempotent(prev, column, allow, list);
        if let Some(out) = run(lines, column, allow, list) {
            let l = lines.last();
            let out0 = run(prev, column, allow, list)->Some_0;
            if decide(l, column, allow, list) == Some(true) {
                lemma_trim_idempotent(l);
                lemma_tokens_trim(l);
                assert(listed(list, lines[lines.len() - 1]) == listed(list, trim(lines[lines.len() - 1])) || column is Some);
                assert(decide(trim(l), column, allow, list) == Some(true));
                assert(out.drop_last() =~= out0);
            }
        }
    }
}

} // verus!
