//! Parsing an edge-list text into a [`Graph`].
//!
//! The text is consumed line by line. A line starting with `#` is a
//! comment and is skipped. Every other line must hold exactly two
//! tab-separated tokens, each a non-negative integer that fits in `u32`;
//! the two identifiers are resolved through the identity map and one
//! directed edge is added from the first to the second. The first
//! malformed line aborts the whole load: a line without exactly two
//! fields is a `FormatError`, a field that is not such an integer is a
//! `ParseError`. Reading the file itself is the caller's business; a read
//! failure is carried as `IoError`.

use vstd::prelude::*;

verus! {

use crate::graph::Graph;
use crate::graph::id_index;
use vstd::string::StrSliceExecFns;

/// Declares `std::io::Error` to the verifier, so that `MyError` can carry
/// a native read failure through unchanged. Nothing is assumed about it.
#[verifier::external_type_specification]
#[verifier::external_body]
pub struct ExIoError(std::io::Error);

/// Everything that can end a load attempt early.
#[derive(Debug)]
pub enum MyError {
    /// The underlying read failed; the native error is passed on as-is.
    IoError(std::io::Error),
    /// A field did not parse as a `u32`; carries the offending token.
    ParseError(String),
    /// A data line did not split into exactly two fields; carries the line.
    FormatError(String),
}

impl From<std::io::Error> for MyError {
    fn from(error: std::io::Error) -> (r: Self) {
        MyError::IoError(error)
    }
}

impl vstd::std_specs::convert::FromSpecImpl<std::io::Error> for MyError {
    open spec fn obeys_from_spec() -> bool {
        true
    }

    open spec fn from_spec(t: std::io::Error) -> Self {
        MyError::IoError(t)
    }
}

/// What a load failed on, at the level of the text.
pub ghost enum LoadFailure {
    Parse { token: Seq<char> },
    Format { line: Seq<char> },
}

/// The meaning of a load: either the finished identifier table and edge
/// list, or the first failure.
pub ghost enum LoadOutcome {
    Loaded { ids: Seq<u32>, links: Seq<(usize, usize)> },
    Failed { failure: LoadFailure },
}

/// Index of the first occurrence of `c` in `s`, or `s.len()` if absent.
pub open spec fn find_char(s: Seq<char>, c: char) -> int
    decreases s.len(),
{
    if s.len() == 0 {
        0
    } else if s[0] == c {
        0
    } else {
        1 + find_char(s.skip(1), c)
    }
}

pub proof fn lemma_find_char_at(s: Seq<char>, c: char, j: int)
    requires
        0 <= j <= s.len(),
        forall|k: int| 0 <= k < j ==> s[k] != c,
        j < s.len() ==> s[j] == c,
    ensures
        find_char(s, c) == j,
    decreases s.len(),
{
    if s.len() == 0 {
    } else if s[0] == c {
        assert(j == 0);
    } else {
        let rest = s.skip(1);
        assert(forall|k: int| 0 <= k < j - 1 ==> rest[k] != c);
        lemma_find_char_at(rest, c, j - 1);
    }
}

/// The line is a comment and is skipped whole.
pub open spec fn is_comment(l: Seq<char>) -> bool {
    l.len() > 0 && l[0] == '#'
}

/// The line splits on tabs into exactly two fields: it holds exactly one
/// tab character.
pub open spec fn two_fields(l: Seq<char>) -> bool {
    let t = find_char(l, '\t');
    t < l.len() && find_char(l.skip(t + 1), '\t') == l.skip(t + 1).len()
}

/// Digits of `t` once an optional leading `+` sign is dropped, exactly as
/// `u32` parsing treats it.
pub open spec fn sign_body(t: Seq<char>) -> Seq<char> {
    if t.len() > 0 && t[0] == '+' {
        t.skip(1)
    } else {
        t
    }
}

/// `c` is a decimal digit (`'0'` has code point 48).
pub open spec fn is_digit(c: char) -> bool {
    48 <= c as int <= 57
}

pub open spec fn digits_only(s: Seq<char>) -> bool {
    forall|i: int| 0 <= i < s.len() ==> is_digit(#[trigger] s[i])
}

/// The number a digit string denotes, most significant digit first.
pub open spec fn digits_val(s: Seq<char>) -> int
    decreases s.len(),
{
    if s.len() == 0 {
        0
    } else {
        digits_val(s.drop_last()) * 10 + (s.last() as int - 48)
    }
}

/// `t` parses as a `u32`: an optional `+`, then at least one digit, and
/// the value fits.
pub open spec fn is_u32_token(t: Seq<char>) -> bool {
    let b = sign_body(t);
    b.len() > 0 && digits_only(b) && digits_val(b) <= u32::MAX
}

pub open spec fn token_val(t: Seq<char>) -> int {
    digits_val(sign_body(t))
}

proof fn lemma_digits_val_nonneg(s: Seq<char>)
    requires
        digits_only(s),
    ensures
        digits_val(s) >= 0,
    decreases s.len(),
{
    if s.len() > 0 {
        assert(digits_only(s.drop_last()));
        lemma_digits_val_nonneg(s.drop_last());
    }
}

/// Extending a digit string never shrinks its value.
proof fn lemma_digits_val_prefix(s: Seq<char>, k: int)
    requires
        digits_only(s),
        0 <= k <= s.len(),
    ensures
        digits_val(s.take(k)) <= digits_val(s),
    decreases s.len() - k,
{
    if k == s.len() {
        assert(s.take(k) =~= s);
    } else {
        lemma_digits_val_prefix(s, k + 1);
        let p = s.take(k + 1);
        assert(p.drop_last() =~= s.take(k));
        assert(digits_only(s.take(k)));
        lemma_digits_val_nonneg(s.take(k));
        assert(is_digit(s[k]));
        assert(p.last() == s[k]);
        assert(digits_val(p) == digits_val(s.take(k)) * 10 + (s[k] as int - 48));
        assert(digits_val(s.take(k)) <= digits_val(p)) by {
            assert(digits_val(s.take(k)) * 10 >= digits_val(s.take(k))) by {
                lemma_digits_val_nonneg(s.take(k));
            }
        }
    }
}

/// Parses `v[from..to]` as a `u32`, exactly as `u32::from_str` would:
/// an optional leading `+`, then decimal digits, rejecting overflow.
fn parse_u32_range(v: &Vec<char>, from: usize, to: usize) -> (r: Option<u32>)
    requires
        from <= to <= v@.len(),
    ensures
        ({
            let t = v@.subrange(from as int, to as int);
            match r {
                Some(x) => is_u32_token(t) && x as int == token_val(t),
                None => !is_u32_token(t),
            }
        }),
{
    let ghost t = v@.subrange(from as int, to as int);
    let mut start: usize = from;
    if from < to && v[from] == '+' {
        start = from + 1;
    }
    let ghost b = v@.subrange(start as int, to as int);
    proof {
        assert(b =~= sign_body(t));
    }
    if start == to {
        return None;
    }
    let mut acc: u64 = 0;
    let mut j: usize = start;
    while j < to
        invariant
            start <= j <= to <= v@.len(),
            start < to,
            b == v@.subrange(start as int, to as int),
            b == sign_body(t),
            t == v@.subrange(from as int, to as int),
            digits_only(b.take(j - start)),
            acc == digits_val(b.take(j - start)),
            acc <= u32::MAX,
        decreases to - j,
    {
        let c = v[j];
        if c < '0' || c > '9' {
            proof {
                assert(!(48 <= c as int <= 57));
                assert(b[j - start] == c);
                assert(!is_digit(c));
            }
            return None;
        }
        proof {
            assert('0' <= c <= '9');
            assert(48 <= c as int <= 57);
            assert(is_digit(c));
            assert(b.take(j + 1 - start).drop_last() =~= b.take(j - start));
            assert(b.take(j + 1 - start).last() == c);
        }
        let d = c as u32;
        proof {
            assert(d as int == c as int);
        }
        acc = acc * 10 + (d - 48) as u64;
        if acc > u32::MAX as u64 {
            proof {
                assert(digits_only(b.take(j + 1 - start)));
                assert(digits_val(b.take(j + 1 - start)) == acc);
                if is_u32_token(t) {
                    lemma_digits_val_prefix(b, j + 1 - start);
                    assert(false);
                }
            }
            return None;
        }
        j = j + 1;
    }
    proof {
        assert(b.take(to - start) =~= b);
        assert(is_u32_token(t));
    }
    Some(acc as u32)
}

/// One trailing carriage return is dropped, as reading lines drops it.
pub open spec fn strip_cr(l: Seq<char>) -> Seq<char> {
    if l.len() > 0 && l.last() == '\r' {
        l.drop_last()
    } else {
        l
    }
}

/// The lines of a text: split at every newline, drop one trailing `'\r'`
/// per line, and do not count a final empty segment after a last newline.
pub open spec fn split_lines(s: Seq<char>) -> Seq<Seq<char>>
    decreases s.len(),
{
    if s.len() == 0 {
        Seq::empty()
    } else {
        let t = find_char(s, '\n');
        if 0 <= t && t < s.len() {
            seq![strip_cr(s.take(t))] + split_lines(s.skip(t + 1))
        } else {
            seq![strip_cr(s)]
        }
    }
}

/// The identifier table after one identifier is seen: already-known
/// identifiers change nothing, a new one is appended.
pub open spec fn add_id(ids: Seq<u32>, x: u32) -> Seq<u32> {
    if ids.contains(x) {
        ids
    } else {
        ids.push(x)
    }
}

/// The meaning of loading `lines[i..]` starting from the given identifier
/// table and edge list: the first bad line fails the whole load.
pub open spec fn load_lines(
    lines: Seq<Seq<char>>,
    i: int,
    ids: Seq<u32>,
    links: Seq<(usize, usize)>,
) -> LoadOutcome
    decreases lines.len() - i,
{
    if i < 0 || i >= lines.len() {
        LoadOutcome::Loaded { ids, links }
    } else {
        let l = lines[i];
        if is_comment(l) {
            load_lines(lines, i + 1, ids, links)
        } else if !two_fields(l) {
            LoadOutcome::Failed { failure: (LoadFailure::Format { line: l }) }
        } else {
            let t = find_char(l, '\t');
            let left = l.take(t);
            let right = l.skip(t + 1);
            if !is_u32_token(left) {
                LoadOutcome::Failed { failure: (LoadFailure::Parse { token: left }) }
            } else if !is_u32_token(right) {
                LoadOutcome::Failed { failure: (LoadFailure::Parse { token: right }) }
            } else {
                let a = token_val(left) as u32;
                let b = token_val(right) as u32;
                let ids2 = add_id(add_id(ids, a), b);
                let ia = id_index(ids2, a);
                let ib = id_index(ids2, b);
                load_lines(lines, i + 1, ids2, links.push((ia as usize, ib as usize)))
            }
        }
    }
}

/// The meaning of loading a whole text from nothing.
pub open spec fn load_outcome(s: Seq<char>) -> LoadOutcome {
    load_lines(split_lines(s), 0, Seq::empty(), Seq::empty())
}

/// The characters of `s`, in order.
fn chars_of(s: &str) -> (v: Vec<char>)
    ensures
        v@ == s@,
{
    let n = s.unicode_len();
    let mut v: Vec<char> = Vec::new();
    for i in 0..n
        invariant
            n == s@.len(),
            v@ == s@.take(i as int),
    {
        v.push(s.get_char(i));
        proof {
            assert(v@ =~= s@.take(i + 1));
        }
    }
    proof {
        assert(v@ =~= s@);
    }
    v
}

/// Parses an edge-list text into a graph.
///
/// The result is exactly what [`load_outcome`] assigns to the text: on
/// success a well-formed graph whose identifier table and edge list are
/// the fold of the lines, otherwise the failure of the first bad line,
/// carrying that line (`FormatError`) or the offending field
/// (`ParseError`). An empty text loads an empty graph. This function
/// never returns `IoError`: read failures belong to the caller doing the
/// reading.
#[verifier::rlimit(100)]
pub fn load_graph(input: &str) -> (r: Result<Graph, MyError>)
    ensures
        ({
            let outcome = load_outcome(input@);
            match r {
                Ok(g) => g.wf() && outcome == (LoadOutcome::Loaded {
                    ids: g@.ids,
                    links: g@.links,
                }),
                Err(MyError::FormatError(line)) => outcome == (LoadOutcome::Failed {
                    failure: (LoadFailure::Format { line: line@ }),
                }),
                Err(MyError::ParseError(token)) => outcome == (LoadOutcome::Failed {
                    failure: (LoadFailure::Parse { token: token@ }),
                }),
                Err(MyError::IoError(_)) => false,
            }
        }),
{
    let v = chars_of(input);
    let n = v.len();
    let mut g = Graph::new();
    let ghost full_lines = split_lines(input@);
    let ghost mut processed: int = 0;
    let mut pos: usize = 0;
    proof {
        assert(v@.skip(0) =~= input@);
        assert(full_lines.take(0) + split_lines(input@) =~= full_lines);
    }
    while pos < n
        invariant
            n == v@.len(),
            v@ == input@,
            pos <= n,
            g.wf(),
            0 <= processed <= full_lines.len(),
            full_lines == split_lines(input@),
            full_lines =~= full_lines.take(processed) + split_lines(v@.skip(pos as int)),
            load_lines(full_lines, processed, g@.ids, g@.links) == load_outcome(input@),
        decreases n - pos,
    {
        let ghost rest = v@.skip(pos as int);
        // find the end of the current line
        let mut j: usize = pos;
        while j < n && v[j] != '\n'
            invariant
                pos <= j <= n,
                n == v@.len(),
                forall|k: int| pos <= k < j ==> v@[k] != '\n',
            decreases n - j,
        {
            j = j + 1;
        }
        proof {
            assert forall|k: int| 0 <= k < j - pos implies rest[k] != '\n' by {
                assert(rest[k] == v@[pos + k]);
            }
            lemma_find_char_at(rest, '\n', j - pos);
        }
        let mut line_end: usize = j;
        if line_end > pos && v[line_end - 1] == '\r' {
            line_end = line_end - 1;
        }
        let ghost line = v@.subrange(pos as int, line_end as int);
        proof {
            // the current line is the next line of the text
            if j < n {
                assert(rest.take(j - pos) =~= v@.subrange(pos as int, j as int));
                assert(line =~= strip_cr(rest.take(j - pos)));
                assert(rest.skip(j - pos + 1) =~= v@.skip(j + 1));
                assert(split_lines(rest) =~= seq![line] + split_lines(v@.skip(j + 1)));
            } else {
                assert(rest =~= v@.subrange(pos as int, n as int));
                assert(line =~= strip_cr(rest));
                assert(split_lines(rest) =~= seq![line]);
                assert(v@.skip(n as int) =~= Seq::<char>::empty());
                assert(split_lines(rest) =~= seq![line] + split_lines(v@.skip(n as int)));
            }
            assert(full_lines[processed] == line);
            assert(full_lines.take(processed + 1) =~= full_lines.take(processed) + seq![line]);
        }
        if line_end > pos && v[pos] == '#' {
            proof {
                assert(line[0] == v@[pos as int]);
                assert(is_comment(line));
                processed = processed + 1;
            }
        } else {
            proof {
                assert(!is_comment(line));
            }
            // split the line at its single tab
            let mut t: usize = pos;
            while t < line_end && v[t] != '\t'
                invariant
                    pos <= t <= line_end,
                    line_end <= n == v@.len(),
                    forall|k: int| pos <= k < t ==> v@[k] != '\t',
                decreases line_end - t,
            {
                t = t + 1;
            }
            proof {
                assert forall|k: int| 0 <= k < t - pos implies line[k] != '\t' by {
                    assert(line[k] == v@[pos + k]);
                }
                lemma_find_char_at(line, '\t', t - pos);
            }
            if t == line_end {
                proof {
                    assert(!two_fields(line));
                }
                let msg = input.substring_char(pos, line_end).to_owned();
                proof {
                    assert(msg@ == line);
                }
                return Err(MyError::FormatError(msg));
            }
            let ghost right = line.skip(t - pos + 1);
            let mut t2: usize = t + 1;
            while t2 < line_end && v[t2] != '\t'
                invariant
                    t + 1 <= t2 <= line_end,
                    t < line_end,
                    line_end <= n == v@.len(),
                    forall|k: int| t + 1 <= k < t2 ==> v@[k] != '\t',
                decreases line_end - t2,
            {
                t2 = t2 + 1;
            }
            proof {
                assert(right =~= v@.subrange(t + 1, line_end as int));
                assert forall|k: int| 0 <= k < t2 - t - 1 implies right[k] != '\t' by {
                    assert(right[k] == v@[t + 1 + k]);
                }
                lemma_find_char_at(right, '\t', t2 - t - 1);
            }
            if t2 < line_end {
                proof {
                    assert(right[t2 - t - 1] == '\t');
                    assert(!two_fields(line));
                }
                let msg = input.substring_char(pos, line_end).to_owned();
                proof {
                    assert(msg@ == line);
                }
                return Err(MyError::FormatError(msg));
            }
            proof {
                assert(two_fields(line));
            }
            let ghost left = line.take(t - pos);
            proof {
                assert(left =~= v@.subrange(pos as int, t as int));
            }
            let a = match parse_u32_range(&v, pos, t) {
                Some(x) => x,
                None => {
                    let msg = input.substring_char(pos, t).to_owned();
                    proof {
                        assert(msg@ == left);
                    }
                    return Err(MyError::ParseError(msg));
                },
            };
            let b = match parse_u32_range(&v, t + 1, line_end) {
                Some(x) => x,
                None => {
                    let msg = input.substring_char(t + 1, line_end).to_owned();
                    proof {
                        assert(msg@ == right);
                    }
                    return Err(MyError::ParseError(msg));
                },
            };
            let ghost ids0 = g@.ids;
            let ghost links0 = g@.links;
            let ia = g.resolve(a);
            let ghost ids1 = g@.ids;
            let ib = g.resolve(b);
            let ghost ids2 = g@.ids;
            g.add_edge(ia, ib);
            proof {
                assert(a as int == token_val(left));
                assert(b as int == token_val(right));
                assert(ids1 == add_id(ids0, a));
                assert(ids2 == add_id(ids1, b));
                // the resolved indices are the indices the model speaks of
                assert(ids2[ia as int] == a);
                assert(ids2[ib as int] == b);
                let ca = id_index(ids2, a);
                assert(0 <= ca < ids2.len() && ids2[ca] == a) by {
                    assert(0 <= (ia as int) < ids2.len() && ids2[ia as int] == a);
                }
                assert(ca == ia as int);
                let cb = id_index(ids2, b);
                assert(0 <= cb < ids2.len() && ids2[cb] == b) by {
                    assert(0 <= (ib as int) < ids2.len() && ids2[ib as int] == b);
                }
                assert(cb == ib as int);
                assert(g@.links == links0.push((ia, ib)));
                processed = processed + 1;
            }
        }
        if j < n {
            pos = j + 1;
        } else {
            pos = n;
        }
    }
    proof {
        assert(v@.skip(pos as int) =~= Seq::<char>::empty());
        assert(full_lines =~= full_lines.take(processed));
        assert(processed == full_lines.len());
    }
    Ok(g)
}


/// The line is a comment, or a data line that loads without error: two
/// tab-separated fields, each a `u32`.
pub open spec fn line_well_formed(l: Seq<char>) -> bool {
    is_comment(l) || {
        let t = find_char(l, '\t');
        two_fields(l) && is_u32_token(l.take(t)) && is_u32_token(l.skip(t + 1))
    }
}

/// Number of data (non-comment) lines among `lines[i..]`.
pub open spec fn data_line_count(lines: Seq<Seq<char>>, i: int) -> int
    decreases lines.len() - i,
{
    if i < 0 || i >= lines.len() {
        0
    } else {
        (if is_comment(lines[i]) {
            0int
        } else {
            1int
        }) + data_line_count(lines, i + 1)
    }
}

/// All identifier tokens of the data lines among `lines[i..]`, in order.
pub open spec fn token_seq(lines: Seq<Seq<char>>, i: int) -> Seq<u32>
    decreases lines.len() - i,
{
    if i < 0 || i >= lines.len() {
        Seq::empty()
    } else if is_comment(lines[i]) {
        token_seq(lines, i + 1)
    } else {
        let t = find_char(lines[i], '\t');
        seq![
            token_val(lines[i].take(t)) as u32,
            token_val(lines[i].skip(t + 1)) as u32,
        ] + token_seq(lines, i + 1)
    }
}

proof fn lemma_add_id_no_dup(ids: Seq<u32>, x: u32)
    requires
        ids.no_duplicates(),
    ensures
        add_id(ids, x).no_duplicates(),
        add_id(ids, x).to_set() == ids.to_set().insert(x),
{
    let r = add_id(ids, x);
    if ids.contains(x) {
        assert(r.to_set() =~= ids.to_set().insert(x));
    } else {
        assert forall|i: int, j: int|
            0 <= i < r.len() && 0 <= j < r.len() && i != j implies r[i] != r[j] by {
            if i < ids.len() && j < ids.len() {
                assert(ids[i] != ids[j]);
            } else if j == ids.len() {
                assert(ids[i] != x);
            } else {
                assert(ids[j] != x);
            }
        }
        assert forall|y: u32| #[trigger] r.to_set().contains(y) implies ids.to_set().insert(
            x,
        ).contains(y) by {
            let i = choose|i: int| 0 <= i < r.len() && r[i] == y;
            if i < ids.len() {
                assert(ids.contains(y));
            }
        }
        assert forall|y: u32| ids.to_set().insert(x).contains(y) implies #[trigger] r.to_set()
            .contains(y) by {
            if y == x {
                assert(r[ids.len() as int] == x);
            } else {
                let i = choose|i: int| 0 <= i < ids.len() && ids[i] == y;
                assert(r[i] == y);
            }
        }
        assert(r.to_set() =~= ids.to_set().insert(x));
    }
}

proof fn lemma_load_lines_well_formed(
    lines: Seq<Seq<char>>,
    i: int,
    ids: Seq<u32>,
    links: Seq<(usize, usize)>,
)
    requires
        0 <= i <= lines.len(),
        forall|p: int| i <= p < lines.len() ==> line_well_formed(#[trigger] lines[p]),
        ids.no_duplicates(),
    ensures
        load_lines(lines, i, ids, links) matches LoadOutcome::Loaded { ids: ids2, links: links2 }
            && ids2.no_duplicates() && ids2.to_set() == ids.to_set().union(
            token_seq(lines, i).to_set(),
        ) && links2.len() == links.len() + data_line_count(lines, i),
    decreases lines.len() - i,
{
    if i >= lines.len() {
        assert(Seq::<u32>::empty().to_set() =~= Set::<u32>::empty());
        assert(ids.to_set() =~= ids.to_set().union(Seq::<u32>::empty().to_set()));
    } else {
        let l = lines[i];
        assert(line_well_formed(l));
        if is_comment(l) {
            lemma_load_lines_well_formed(lines, i + 1, ids, links);
        } else {
            let t = find_char(l, '\t');
            let left = l.take(t);
            let right = l.skip(t + 1);
            let a = token_val(left) as u32;
            let b = token_val(right) as u32;
            let ids1 = add_id(ids, a);
            let ids2 = add_id(ids1, b);
            lemma_add_id_no_dup(ids, a);
            lemma_add_id_no_dup(ids1, b);
            let ia = id_index(ids2, a);
            let ib = id_index(ids2, b);
            lemma_load_lines_well_formed(
                lines,
                i + 1,
                ids2,
                links.push((ia as usize, ib as usize)),
            );
            assert(token_seq(lines, i) == seq![a, b] + token_seq(lines, i + 1));
            assert forall|y: u32| #[trigger] token_seq(lines, i).to_set().contains(y) implies
                ids2.to_set().union(token_seq(lines, i + 1).to_set()).contains(y) by {
                let q = choose|q: int|
                    0 <= q < token_seq(lines, i).len() && (#[trigger] token_seq(lines, i)[q]) == y;
                if q >= 2 {
                    assert(token_seq(lines, i + 1)[q - 2] == y);
                    assert(token_seq(lines, i + 1).contains(y));
                }
            }
            assert forall|y: u32| #[trigger] token_seq(lines, i + 1).to_set().contains(y) implies
                token_seq(lines, i).to_set().contains(y) by {
                let q = choose|q: int|
                    0 <= q < token_seq(lines, i + 1).len() && (#[trigger] token_seq(
                        lines,
                        i + 1,
                    )[q]) == y;
                assert(token_seq(lines, i)[q + 2] == y);
            }
            assert(token_seq(lines, i).to_set().contains(a)) by {
                assert(token_seq(lines, i)[0] == a);
            }
            assert(token_seq(lines, i).to_set().contains(b)) by {
                assert(token_seq(lines, i)[1] == b);
            }
            assert(ids.to_set().union(token_seq(lines, i).to_set()) =~= ids2.to_set().union(
                token_seq(lines, i + 1).to_set(),
            ));
        }
    }
}

/// Loading a well-formed edge list succeeds, registers one node per
/// distinct identifier token, and adds one edge per data line (parallel
/// edges counted individually).
pub proof fn lemma_load_counts(s: Seq<char>)
    requires
        forall|p: int|
            0 <= p < split_lines(s).len() ==> line_well_formed(#[trigger] split_lines(s)[p]),
    ensures
        load_outcome(s) matches LoadOutcome::Loaded { ids, links } && ids.len() == token_seq(
            split_lines(s),
            0,
        ).to_set().len() && links.len() == data_line_count(split_lines(s), 0),
{
    lemma_load_lines_well_formed(split_lines(s), 0, Seq::empty(), Seq::empty());
    if let LoadOutcome::Loaded { ids, links } = load_outcome(s) {
        ids.unique_seq_to_set();
        assert(Seq::<u32>::empty().to_set() =~= Set::<u32>::empty());
        assert(ids.to_set() =~= token_seq(split_lines(s), 0).to_set());
    }
}

} // verus!
