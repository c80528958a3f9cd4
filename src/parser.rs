//! The tag grammar: literal text, `<% code %>` and `<%= expr %>`, with `-`
//! trim markers next to the delimiters.
use vstd::prelude::*;
use vstd::string::{StringExecFns, StringSliceAdditionalSpecFns};

verus! {

/// What a parsed span of the template is.
#[derive(Clone, Copy, Debug, PartialEq, Eq, Structural)]
pub enum Kind {
    Text,
    Code,
    Expr,
}

/// One segment of the raw parse, as byte positions into the template.
///
/// `start..end` is the whole span (the tag with its delimiters for `Code` and
/// `Expr`); `body_start..body_end` is the literal text or the tag's fragment.
/// `trim_open` records `<%-`, `trim_close` records `-%>`.
#[derive(Clone, Copy, Debug, PartialEq, Eq, Structural)]
pub struct Span {
    pub kind: Kind,
    pub start: usize,
    pub end: usize,
    pub body_start: usize,
    pub body_end: usize,
    pub trim_open: bool,
    pub trim_close: bool,
}

/// An unterminated tag: `<%` at byte `position` (on line `line`, from 1) has no `%>`.
#[derive(Clone, Copy, Debug, PartialEq, Eq, Structural)]
pub struct ParseError {
    pub position: usize,
    pub line: usize,
}

impl ParseError {
    /// What went wrong, in words.
    pub fn message(&self) -> (r: String)
        ensures
            r@ == "unterminated tag: `<%` has no matching `%>`"@,
    {
        String::from_str("unterminated tag: `<%` has no matching `%>`")
    }
}

pub open spec fn is_open_at(s: Seq<u8>, i: int) -> bool {
    0 <= i && i + 1 < s.len() && s[i] == 60u8 && s[i + 1] == 37u8
}

pub open spec fn is_close_at(s: Seq<u8>, i: int) -> bool {
    0 <= i && i + 1 < s.len() && s[i] == 37u8 && s[i + 1] == 62u8
}

/// The first `<%` at or after `i`, or `s.len()` when there is none.
pub open spec fn next_open(s: Seq<u8>, i: int) -> int
    decreases s.len() - i,
{
    if i < 0 || i >= s.len() {
        s.len() as int
    } else if is_open_at(s, i) {
        i
    } else {
        next_open(s, i + 1)
    }
}

/// The first `%>` at or after `i`, or `-1` when there is none.
pub open spec fn next_close(s: Seq<u8>, i: int) -> int
    decreases s.len() - i,
{
    if i < 0 || i >= s.len() {
        -1
    } else if is_close_at(s, i) {
        i
    } else {
        next_close(s, i + 1)
    }
}

/// The tag that opens at `pos`, whose `%>` starts at `close`.
pub open spec fn tag_span(s: Seq<u8>, pos: int, close: int) -> Span {
    let trim_open = pos + 2 < s.len() && s[pos + 2] == 45u8;
    let body_start = fragment_start(s, pos);
    let is_expr = body_start > pos + 2 + if trim_open { 1int } else { 0int };
    let trim_close = close > body_start && s[close - 1] == 45u8;
    Span {
        kind: if is_expr { Kind::Expr } else { Kind::Code },
        start: pos as usize,
        end: (close + 2) as usize,
        body_start: body_start as usize,
        body_end: (close - if trim_close { 1int } else { 0int }) as usize,
        trim_open,
        trim_close,
    }
}

/// Where the fragment of a tag opening at `pos` begins (after `<%`, `-` and `=`).
pub open spec fn fragment_start(s: Seq<u8>, pos: int) -> int {
    let trim_open = pos + 2 < s.len() && s[pos + 2] == 45u8;
    let after_dash = pos + 2 + if trim_open { 1int } else { 0int };
    let is_expr = after_dash < s.len() && s[after_dash] == 61u8;
    after_dash + if is_expr { 1int } else { 0int }
}

/// The segments of `s` from byte `pos` on, or `None` when a tag is unterminated.
pub open spec fn parse_from(s: Seq<u8>, pos: int) -> Option<Seq<Span>>
    decreases s.len() - pos,
{
    if pos < 0 || pos >= s.len() {
        Some(Seq::empty())
    } else if !is_open_at(s, pos) {
        let e = next_open(s, pos + 1);
        let text = Span {
            kind: Kind::Text,
            start: pos as usize,
            end: e as usize,
            body_start: pos as usize,
            body_end: e as usize,
            trim_open: false,
            trim_close: false,
        };
        if e <= pos || e > s.len() {
            None
        } else {
            match parse_from(s, e) {
                Some(rest) => Some(seq![text] + rest),
                None => None,
            }
        }
    } else {
        let close = next_close(s, fragment_start(s, pos));
        if close < pos || close + 2 > s.len() {
            None
        } else {
            match parse_from(s, close + 2) {
                Some(rest) => Some(seq![tag_span(s, pos, close)] + rest),
                None => None,
            }
        }
    }
}

/// The segments of a whole template.
pub open spec fn parse_spec(s: Seq<u8>) -> Option<Seq<Span>> {
    parse_from(s, 0)
}

/// The position of the first unterminated tag from `pos` on.
pub open spec fn error_at(s: Seq<u8>, pos: int) -> int
    decreases s.len() - pos,
{
    if pos < 0 || pos >= s.len() {
        -1
    } else if !is_open_at(s, pos) {
        let e = next_open(s, pos + 1);
        if e <= pos || e > s.len() { -1 } else { error_at(s, e) }
    } else {
        let close = next_close(s, fragment_start(s, pos));
        if close < pos || close + 2 > s.len() { pos } else { error_at(s, close + 2) }
    }
}

/// Number of newlines in `s[0..i]`.
pub open spec fn newlines_before(s: Seq<u8>, i: int) -> nat
    decreases i,
{
    if i <= 0 || s.len() == 0 {
        0
    } else {
        let i1 = if i > s.len() { s.len() as int } else { i };
        newlines_before(s, i1 - 1) + if s[i1 - 1] == 10u8 { 1nat } else { 0nat }
    }
}

pub open spec fn prepend(head: Seq<Span>, rest: Option<Seq<Span>>) -> Option<Seq<Span>> {
    match rest {
        Some(r) => Some(head + r),
        None => None,
    }
}

/// The bytes that spans `v` cover in `s`, one after the other.
pub open spec fn covered(s: Seq<u8>, v: Seq<Span>) -> Seq<u8>
    decreases v.len(),
{
    if v.len() == 0 {
        Seq::empty()
    } else {
        s.subrange(v[0].start as int, v[0].end as int) + covered(s, v.drop_first())
    }
}

/// Each span lies within `s`, its body within its span.
pub open spec fn span_wf(s: Seq<u8>, sp: Span) -> bool {
    sp.start <= sp.body_start <= sp.body_end <= sp.end <= s.len()
}

/// The parse from `pos` covers `s[pos..]` exactly, with well-formed spans.
pub proof fn lemma_parse_wf(s: Seq<u8>, pos: int)
    requires
        0 <= pos <= s.len() <= usize::MAX,
    ensures
        parse_from(s, pos) matches Some(v) ==> covered(s, v) == s.subrange(pos, s.len() as int)
            && (forall|i: int| 0 <= i < v.len() ==> span_wf(s, #[trigger] v[i])),
    decreases s.len() - pos,
{
    if pos < s.len() {
        if !is_open_at(s, pos) {
            let e = next_open(s, pos + 1);
            if pos < e <= s.len() {
                lemma_parse_wf(s, e);
                if let Some(v) = parse_from(s, pos) {
                    let rest = parse_from(s, e)->Some_0;
                    assert(v.drop_first() =~= rest);
                    assert(s.subrange(pos, e) + s.subrange(e, s.len() as int) =~= s.subrange(pos, s.len() as int));
                    assert forall|i: int| 0 <= i < v.len() implies span_wf(s, #[trigger] v[i]) by {
                        if i > 0 {
                            assert(v[i] == rest[i - 1]);
                        }
                    }
                }
            }
        } else {
            let close = next_close(s, fragment_start(s, pos));
            if pos <= close && close + 2 <= s.len() {
                lemma_next_close_bound(s, fragment_start(s, pos));
                lemma_parse_wf(s, close + 2);
                if let Some(v) = parse_from(s, pos) {
                    let rest = parse_from(s, close + 2)->Some_0;
                    assert(v.drop_first() =~= rest);
                    assert(s.subrange(pos, close + 2) + s.subrange(close + 2, s.len() as int) =~= s.subrange(pos, s.len() as int));
                    assert forall|i: int| 0 <= i < v.len() implies span_wf(s, #[trigger] v[i]) by {
                        if i > 0 {
                            assert(v[i] == rest[i - 1]);
                        }
                    }
                }
            }
        }
    } else {
        assert(s.subrange(pos, s.len() as int) =~= Seq::<u8>::empty());
    }
}

proof fn lemma_next_close_bound(s: Seq<u8>, i: int)
    ensures
        next_close(s, i) == -1 || (i <= next_close(s, i) && next_close(s, i) + 1 < s.len()),
    decreases s.len() - i,
{
    if 0 <= i < s.len() && !is_close_at(s, i) {
        lemma_next_close_bound(s, i + 1);
    }
}

/// The grammar's parser.
pub struct ErstParser;

impl ErstParser {
    /// Splits `template` into text and tag segments, in source order.
    #[verifier::rlimit(40)]
    pub fn parse(template: &str) -> (r: Result<Vec<Span>, ParseError>)
        ensures
            template.spec_bytes().len() <= usize::MAX,
            match r {
                Ok(v) => parse_spec(template.spec_bytes()) == Some(v@),
                Err(e) => parse_spec(template.spec_bytes()) is None
                    && e.position == error_at(template.spec_bytes(), 0)
                    && e.line == newlines_before(template.spec_bytes(), e.position as int) + 1,
            },
    {
        let s = template.as_bytes();
        let n = s.len();
        let mut out: Vec<Span> = Vec::new();
        let mut pos: usize = 0;
        while pos < n
            invariant
                s@ == template.spec_bytes(),
                n == s@.len(),
                pos <= n,
                parse_spec(s@) == prepend(out@, parse_from(s@, pos as int)),
                error_at(s@, 0) == error_at(s@, pos as int),
            decreases n - pos,
        {
            if !(pos + 1 < n && s[pos] == 60u8 && s[pos + 1] == 37u8) {
                let j = find_open(s, pos + 1);
                let text = Span {
                    kind: Kind::Text,
                    start: pos,
                    end: j,
                    body_start: pos,
                    body_end: j,
                    trim_open: false,
                    trim_close: false,
                };
                assert(parse_from(s@, pos as int) == prepend(seq![text], parse_from(s@, j as int)));
                let ghost before = out@;
                out.push(text);
                proof {
                    if let Some(rest) = parse_from(s@, j as int) {
                        assert(before + (seq![text] + rest) =~= out@ + rest);
                    }
                }
                pos = j;
            } else {
                let trim_open = pos + 2 < n && s[pos + 2] == 45u8;
                let after_dash: usize = if trim_open { pos + 3 } else { pos + 2 };
                let is_expr = after_dash < n && s[after_dash] == 61u8;
                let body_start: usize = if is_expr { after_dash + 1 } else { after_dash };
                assert(body_start == fragment_start(s@, pos as int));
                let j = find_close(s, body_start);
                if j >= n {
                    let line = count_newlines(s, pos);
                    return Err(ParseError { position: pos, line: line + 1 });
                }
                let trim_close = j > body_start && s[j - 1] == 45u8;
                let span = Span {
                    kind: if is_expr { Kind::Expr } else { Kind::Code },
                    start: pos,
                    end: j + 2,
                    body_start,
                    body_end: if trim_close { j - 1 } else { j },
                    trim_open,
                    trim_close,
                };
                assert(span == tag_span(s@, pos as int, j as int));
                let ghost before = out@;
                out.push(span);
                proof {
                    if let Some(rest) = parse_from(s@, j + 2) {
                        assert(before + (seq![span] + rest) =~= out@ + rest);
                    }
                }
                pos = j + 2;
            }
        }
        Ok(out)
    }
}

/// The first `<%` at or after `from`, or `s.len()`.
fn find_open(s: &[u8], from: usize) -> (j: usize)
    requires
        from <= s@.len(),
    ensures
        from <= j <= s@.len(),
        j == next_open(s@, from as int),
{
    let n = s.len();
    let mut j: usize = from;
    while j < n && !(j + 1 < n && s[j] == 60u8 && s[j + 1] == 37u8)
        invariant
            from <= j <= n,
            n == s@.len(),
            next_open(s@, from as int) == next_open(s@, j as int),
        decreases n - j,
    {
        j = j + 1;
    }
    j
}

/// The first `%>` at or after `from`, or `s.len()` when there is none.
fn find_close(s: &[u8], from: usize) -> (j: usize)
    requires
        from <= s@.len(),
    ensures
        from <= j <= s@.len(),
        j < s@.len() ==> j == next_close(s@, from as int) && j + 1 < s@.len(),
        j == s@.len() ==> next_close(s@, from as int) == -1,
{
    let n = s.len();
    let mut j: usize = from;
    while j < n && !(j + 1 < n && s[j] == 37u8 && s[j + 1] == 62u8)
        invariant
            from <= j <= n,
            n == s@.len(),
            next_close(s@, from as int) == next_close(s@, j as int),
        decreases n - j,
    {
        j = j + 1;
    }
    j
}

/// Counts the newlines in `s[0..i]`.
fn count_newlines(s: &[u8], i: usize) -> (r: usize)
    requires
        i <= s@.len(),
    ensures
        r <= i,
        r == newlines_before(s@, i as int),
{
    let mut count: usize = 0;
    let mut k: usize = 0;
    while k < i
        invariant
            k <= i <= s@.len(),
            count <= k,
            count == newlines_before(s@, k as int),
        decreases i - k,
    {
        if s[k] == 10u8 {
            count = count + 1;
        }
        k = k + 1;
    }
    count
}

} // verus!
