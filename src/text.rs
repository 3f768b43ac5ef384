use vstd::prelude::*;
use vstd::std_specs::iter::IteratorSpec;

verus! {

/// Whether `c` carries the Unicode `White_Space` property.
pub open spec fn is_white_space(c: char) -> bool {
    let u = c as u32;
    (9 <= u <= 13) || u == 32 || u == 0x85 || u == 0xa0 || u == 0x1680 || (0x2000 <= u
        <= 0x200a) || u == 0x2028 || u == 0x2029 || u == 0x202f || u == 0x205f || u == 0x3000
}

/// Relies on `char::is_whitespace`: true exactly for the `White_Space` characters.
#[verifier::external_body]
fn char_is_whitespace(c: char) -> (r: bool)
    ensures
        r == is_white_space(c),
{
    c.is_whitespace()
}

pub open spec fn span_view(v: Seq<(usize, usize)>) -> Seq<(int, int)> {
    v.map_values(|p: (usize, usize)| (p.0 as int, p.1 as int))
}

pub open spec fn start_view(o: Option<usize>) -> Option<int> {
    match o {
        Some(x) => Some(x as int),
        None => None,
    }
}

/// Left-to-right scan of `s`: the spans `[start, end)` of the tokens that
/// are already closed, and the start of the token still open, if any.
pub open spec fn scan(s: Seq<char>) -> (Seq<(int, int)>, Option<int>)
    decreases s.len(),
{
    if s.len() == 0 {
        (seq![], None)
    } else {
        let i = s.len() - 1;
        let (done, open) = scan(s.drop_last());
        if is_white_space(s[i]) {
            match open {
                Some(st) => (done.push((st, i)), None),
                None => (done, None),
            }
        } else {
            match open {
                Some(st) => (done, Some(st)),
                None => (done, Some(i)),
            }
        }
    }
}

/// The spans of the maximal runs of non-whitespace characters of `s`, in order.
pub open spec fn token_spans(s: Seq<char>) -> Seq<(int, int)> {
    let (done, open) = scan(s);
    match open {
        Some(st) => done.push((st, s.len() as int)),
        None => done,
    }
}

/// The whitespace-delimited tokens of `s`: runs of whitespace separate
/// them, and leading or trailing whitespace yields no empty token.
pub open spec fn tokens(s: Seq<char>) -> Seq<Seq<char>> {
    token_spans(s).map_values(|p: (int, int)| s.subrange(p.0, p.1))
}

proof fn lemma_scan_bounds(s: Seq<char>)
    ensures
        forall|j: int|
            0 <= j < scan(s).0.len() ==> 0 <= #[trigger] scan(s).0[j].0 <= scan(s).0[j].1
                <= s.len(),
        scan(s).1 matches Some(st) ==> 0 <= st < s.len(),
    decreases s.len(),
{
    if s.len() > 0 {
        lemma_scan_bounds(s.drop_last());
    }
}

/// Every token span lies within `s`.
pub proof fn lemma_token_spans_bounds(s: Seq<char>)
    ensures
        forall|j: int|
            0 <= j < token_spans(s).len() ==> 0 <= #[trigger] token_spans(s)[j].0
                <= token_spans(s)[j].1 <= s.len(),
{
    lemma_scan_bounds(s);
}

/// The characters of `s`, in order.
fn chars_of(s: &str) -> (r: Vec<char>)
    ensures
        r@ == s@,
{
    broadcast use vstd::string::axiom_spec_iter, vstd::string::next_postcondition;

    let mut it = s.chars();
    let mut r: Vec<char> = Vec::new();
    loop
        invariant
            r@.len() <= s@.len(),
            r@ == s@.take(r@.len() as int),
            IteratorSpec::remaining(&it) == s@.skip(r@.len() as int),
        ensures
            r@ == s@,
        decreases s@.len() - r@.len(),
    {
        match it.next() {
            Some(c) => {
                assert(s@.skip(r@.len() as int).drop_first() =~= s@.skip(r@.len() + 1int));
                assert(s@.take(r@.len() + 1int) =~= s@.take(r@.len() as int).push(c));
                r.push(c);
            },
            None => {
                assert(s@.skip(r@.len() as int).len() == 0);
                assert(s@.take(r@.len() as int) =~= s@);
                break ;
            },
        }
    }
    r
}

/// The spans of the whitespace-delimited tokens of `line`, counted in characters.
pub fn split_spans(line: &str) -> (r: Vec<(usize, usize)>)
    ensures
        span_view(r@) == token_spans(line@),
{
    let chars = chars_of(line);
    let n = chars.len();
    let mut done: Vec<(usize, usize)> = Vec::new();
    let mut open: Option<usize> = None;
    let mut i: usize = 0;
    while i < n
        invariant
            chars@ == line@,
            n == line@.len(),
            i <= n,
            scan(line@.take(i as int)) == (span_view(done@), start_view(open)),
        decreases n - i,
    {
        let c = chars[i];
        proof {
            assert(line@.take(i + 1).drop_last() =~= line@.take(i as int));
            assert(line@.take(i + 1)[i as int] == c);
        }
        if char_is_whitespace(c) {
            if let Some(st) = open {
                done.push((st, i));
                open = None;
                assert(span_view(done@) =~= scan(line@.take(i + 1)).0);
            }
        } else if open.is_none() {
            open = Some(i);
        }
        i += 1;
    }
    proof {
        assert(line@.take(n as int) =~= line@);
    }
    if let Some(st) = open {
        done.push((st, n));
        assert(span_view(done@) =~= token_spans(line@));
    }
    done
}

/// `s` without its leading whitespace.
pub open spec fn trim_start(s: Seq<char>) -> Seq<char>
    decreases s.len(),
{
    if s.len() > 0 && is_white_space(s[0]) {
        trim_start(s.drop_first())
    } else {
        s
    }
}

/// `s` without its trailing whitespace.
pub open spec fn trim_end(s: Seq<char>) -> Seq<char>
    decreases s.len(),
{
    if s.len() > 0 && is_white_space(s.last()) {
        trim_end(s.drop_last())
    } else {
        s
    }
}

/// `s` without its leading and trailing whitespace.
pub open spec fn trim(s: Seq<char>) -> Seq<char> {
    trim_end(trim_start(s))
}

proof fn lemma_trim_start_shape(s: Seq<char>)
    ensures
        trim_start(s).len() <= s.len(),
        trim_start(s) == s.skip(s.len() - trim_start(s).len()),
        trim_start(s).len() > 0 ==> !is_white_space(trim_start(s)[0]),
    decreases s.len(),
{
    if s.len() > 0 && is_white_space(s[0]) {
        lemma_trim_start_shape(s.drop_first());
        assert(s.drop_first().skip(s.len() - 1 - trim_start(s).len()) =~= s.skip(
            s.len() - trim_start(s).len(),
        ));
    } else {
        assert(s.skip(0) =~= s);
    }
}

proof fn lemma_trim_end_shape(s: Seq<char>)
    ensures
        trim_end(s).len() <= s.len(),
        trim_end(s) == s.take(trim_end(s).len() as int),
        trim_end(s).len() > 0 ==> !is_white_space(trim_end(s).last()),
    decreases s.len(),
{
    if s.len() > 0 && is_white_space(s.last()) {
        lemma_trim_end_shape(s.drop_last());
        assert(s.drop_last().take(trim_end(s).len() as int) =~= s.take(trim_end(s).len() as int));
    } else {
        assert(s.take(s.len() as int) =~= s);
    }
}

/// Trimming twice is trimming once.
pub proof fn lemma_trim_idempotent(s: Seq<char>)
    ensures
        trim(trim(s)) == trim(s),
{
    let t = trim_start(s);
    let u = trim(s);
    lemma_trim_start_shape(s);
    lemma_trim_end_shape(t);
    if u.len() > 0 {
        assert(u[0] == t[0]);
        assert(trim_start(u) == u);
        assert(trim_end(u) == u);
    }
}

spec fn shift_spans(d: Seq<(int, int)>) -> Seq<(int, int)> {
    d.map_values(|p: (int, int)| (p.0 + 1, p.1 + 1))
}

spec fn shift_start(o: Option<int>) -> Option<int> {
    match o {
        Some(x) => Some(x + 1),
        None => None,
    }
}

proof fn lemma_scan_prepend_ws(c: char, s: Seq<char>)
    requires
        is_white_space(c),
    ensures
        scan(seq![c] + s) == (shift_spans(scan(s).0), shift_start(scan(s).1)),
    decreases s.len(),
{
    let w = seq![c] + s;
    if s.len() == 0 {
        assert(w.drop_last() =~= s);
        assert(shift_spans(scan(s).0) =~= scan(s).0);
        assert(w[0] == c);
    } else {
        assert(w.drop_last() =~= seq![c] + s.drop_last());
        lemma_scan_prepend_ws(c, s.drop_last());
        assert(w[w.len() - 1] == s[s.len() - 1]);
        let (d, o) = scan(s.drop_last());
        assert(scan(w.drop_last()) == (shift_spans(d), shift_start(o)));
        if let Some(st) = o {
            assert(shift_spans(d.push((st, s.len() - 1))) =~= shift_spans(d).push(
                (st + 1, s.len() as int),
            ));
        }
    }
}

proof fn lemma_tokens_prepend_ws(c: char, s: Seq<char>)
    requires
        is_white_space(c),
    ensures
        tokens(seq![c] + s) == tokens(s),
{
    let w = seq![c] + s;
    lemma_scan_prepend_ws(c, s);
    let (d, o) = scan(s);
    if let Some(st) = o {
        assert(shift_spans(d.push((st, s.len() as int))) =~= shift_spans(d).push(
            (st + 1, s.len() + 1 as int),
        ));
    }
    assert(token_spans(w) == shift_spans(token_spans(s)));
    lemma_token_spans_bounds(s);
    assert forall|j: int| 0 <= j < tokens(s).len() implies tokens(w)[j] == tokens(s)[j] by {
        let p = token_spans(s)[j];
        assert(token_spans(w)[j] == (p.0 + 1, p.1 + 1));
        assert(w.subrange(p.0 + 1, p.1 + 1) =~= s.subrange(p.0, p.1));
    }
    assert(tokens(w) =~= tokens(s));
}

proof fn lemma_tokens_append_ws(s: Seq<char>, c: char)
    requires
        is_white_space(c),
    ensures
        tokens(s.push(c)) == tokens(s),
{
    let w = s.push(c);
    assert(w.drop_last() =~= s);
    assert(w[w.len() - 1] == c);
    assert(token_spans(w) == token_spans(s));
    lemma_token_spans_bounds(s);
    assert forall|j: int| 0 <= j < tokens(s).len() implies tokens(w)[j] == tokens(s)[j] by {
        let p = token_spans(s)[j];
        assert(w.subrange(p.0, p.1) =~= s.subrange(p.0, p.1));
    }
    assert(tokens(w) =~= tokens(s));
}

proof fn lemma_tokens_trim_start(s: Seq<char>)
    ensures
        tokens(trim_start(s)) == tokens(s),
    decreases s.len(),
{
    if s.len() > 0 && is_white_space(s[0]) {
        let r = s.drop_first();
        assert(s =~= seq![s[0]] + r);
        lemma_tokens_prepend_ws(s[0], r);
        lemma_tokens_trim_start(r);
    }
}

proof fn lemma_tokens_trim_end(s: Seq<char>)
    ensures
        tokens(trim_end(s)) == tokens(s),
    decreases s.len(),
{
    if s.len() > 0 && is_white_space(s.last()) {
        let r = s.drop_last();
        assert(s =~= r.push(s.last()));
        lemma_tokens_append_ws(r, s.last());
        lemma_tokens_trim_end(r);
    }
}

/// Surrounding whitespace carries no token: a line and its trimmed form
/// have the same tokens.
pub proof fn lemma_tokens_trim(s: Seq<char>)
    ensures
        tokens(trim(s)) == tokens(s),
{
    lemma_tokens_trim_start(s);
    lemma_tokens_trim_end(trim_start(s));
}

/// Left-to-right scan of `s` cutting at each `'\n'`: the pieces already
/// cut, and the piece in progress.
pub open spec fn line_scan(s: Seq<char>) -> (Seq<Seq<char>>, Seq<char>)
    decreases s.len(),
{
    if s.len() == 0 {
        (seq![], seq![])
    } else {
        let (done, cur) = line_scan(s.drop_last());
        if s.last() == '\n' {
            (done.push(cur), seq![])
        } else {
            (done, cur.push(s.last()))
        }
    }
}

/// The lines of `s`, split at each `'\n'`; a final line ending adds no
/// empty line.
pub open spec fn line_pieces(s: Seq<char>) -> Seq<Seq<char>> {
    let (done, cur) = line_scan(s);
    if cur.len() > 0 {
        done.push(cur)
    } else {
        done
    }
}

/// Relies on `str::lines`: one slice per line, in order, each without its
/// `\n` or `\r\n` ending; since `'\r'` is whitespace, each line trims to
/// the trimmed piece.
#[verifier::external_body]
pub(crate) fn split_lines(s: &str) -> (r: Vec<&str>)
    ensures
        r@.len() == line_pieces(s@).len(),
        forall|j: int| 0 <= j < r@.len() ==> trim(#[trigger] r@[j]@) == trim(line_pieces(s@)[j]),
{
    s.lines().collect()
}

/// Relies on `str::trim`: the slice with leading and trailing `White_Space`
/// characters removed.
#[verifier::external_body]
pub(crate) fn trim_str(s: &str) -> (r: &str)
    ensures
        r@ == trim(s@),
{
    s.trim()
}

} // verus!
