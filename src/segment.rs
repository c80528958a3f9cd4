//! The segment model and the whitespace-trim pass.
use vstd::prelude::*;
use vstd::string::StringSliceAdditionalSpecFns;
use crate::parser::{ErstParser, Kind, ParseError, Span, parse_spec, lemma_parse_wf, span_wf, covered, is_open_at, next_open, parse_from};

verus! {

/// A parsed and trimmed unit of a template.
///
/// `Text` holds the literal bytes left after trimming; `trim_left` is set when
/// the tag before it ends in `-%>`, `trim_right` when the tag after it starts
/// with `<%-`. `Code` and `Expr` hold the tag's fragment verbatim.
#[derive(Clone, Debug)]
pub enum Segment {
    Text { text: Vec<u8>, trim_left: bool, trim_right: bool },
    Code(Vec<u8>),
    Expr(Vec<u8>),
}

/// The mathematical value of a [`Segment`].
pub enum SegmentView {
    Text { text: Seq<u8>, trim_left: bool, trim_right: bool },
    Code(Seq<u8>),
    Expr(Seq<u8>),
}

impl View for Segment {
    type V = SegmentView;

    open spec fn view(&self) -> SegmentView {
        match self {
            Segment::Text { text, trim_left, trim_right } => SegmentView::Text {
                text: text@,
                trim_left: *trim_left,
                trim_right: *trim_right,
            },
            Segment::Code(c) => SegmentView::Code(c@),
            Segment::Expr(e) => SegmentView::Expr(e@),
        }
    }
}

pub open spec fn views(v: Seq<Segment>) -> Seq<SegmentView> {
    Seq::new(v.len(), |i: int| v[i]@)
}

/// Space, tab and newline.
pub open spec fn is_ws(b: u8) -> bool {
    b == 32u8 || b == 9u8 || b == 10u8
}

/// The first position in `i..end` that is not whitespace, or `end`.
pub open spec fn skip_ws(s: Seq<u8>, i: int, end: int) -> int
    decreases end - i,
{
    if 0 <= i < end && i < s.len() && is_ws(s[i]) {
        skip_ws(s, i + 1, end)
    } else {
        i
    }
}

/// The end of `lo..j` once its trailing whitespace is dropped.
pub open spec fn back_ws(s: Seq<u8>, lo: int, j: int) -> int
    decreases j - lo,
{
    if lo < j && 0 < j <= s.len() && is_ws(s[j - 1]) {
        back_ws(s, lo, j - 1)
    } else {
        j
    }
}

/// Segment `i` of the raw parse `v` of `s`, after trimming.
pub open spec fn trimmed_at(s: Seq<u8>, v: Seq<Span>, i: int) -> SegmentView {
    let sp = v[i];
    match sp.kind {
        Kind::Text => {
            let tl = i > 0 && v[i - 1].trim_close;
            let tr = i + 1 < v.len() && v[i + 1].trim_open;
            let lo = if tl { skip_ws(s, sp.body_start as int, sp.body_end as int) } else { sp.body_start as int };
            let hi = if tr { back_ws(s, lo, sp.body_end as int) } else { sp.body_end as int };
            SegmentView::Text { text: s.subrange(lo, hi), trim_left: tl, trim_right: tr }
        },
        Kind::Code => SegmentView::Code(s.subrange(sp.body_start as int, sp.body_end as int)),
        Kind::Expr => SegmentView::Expr(s.subrange(sp.body_start as int, sp.body_end as int)),
    }
}

/// The whole raw parse `v` of `s`, after trimming.
pub open spec fn trimmed(s: Seq<u8>, v: Seq<Span>) -> Seq<SegmentView> {
    Seq::new(v.len(), |i: int| trimmed_at(s, v, i))
}

/// Each span lies within `s`.
pub open spec fn spans_wf(s: Seq<u8>, v: Seq<Span>) -> bool {
    forall|i: int| 0 <= i < v.len() ==> span_wf(s, #[trigger] v[i])
}

/// The segments of a template, or its parse error.
pub open spec fn segments_spec(s: Seq<u8>) -> Option<Seq<SegmentView>> {
    match parse_spec(s) {
        Some(v) => Some(trimmed(s, v)),
        None => None,
    }
}

/// Parsing is lossless: the spans of a successful parse, laid end to end,
/// give back the template byte for byte.
pub proof fn law_spans_round_trip(s: Seq<u8>)
    requires
        s.len() <= usize::MAX,
    ensures
        parse_spec(s) matches Some(v) ==> covered(s, v) == s,
{
    lemma_parse_wf(s, 0);
    assert(s.subrange(0, s.len() as int) =~= s);
}

proof fn lemma_no_open(s: Seq<u8>, i: int)
    requires
        0 <= i <= s.len(),
        forall|k: int| 0 <= k < s.len() ==> !is_open_at(s, k),
    ensures
        next_open(s, i) == s.len(),
    decreases s.len() - i,
{
    if i < s.len() {
        lemma_no_open(s, i + 1);
    }
}

/// A non-empty template without `<%` is one text segment holding all of it,
/// untouched by trimming.
pub proof fn law_plain_text(s: Seq<u8>)
    requires
        0 < s.len() <= usize::MAX,
        forall|k: int| 0 <= k < s.len() ==> !is_open_at(s, k),
    ensures
        segments_spec(s) == Some(seq![SegmentView::Text { text: s, trim_left: false, trim_right: false }]),
{
    lemma_no_open(s, 1);
    assert(!is_open_at(s, 0));
    let text = Span {
        kind: Kind::Text,
        start: 0,
        end: s.len() as usize,
        body_start: 0,
        body_end: s.len() as usize,
        trim_open: false,
        trim_close: false,
    };
    assert(parse_from(s, s.len() as int) == Some(Seq::<Span>::empty()));
    assert(parse_from(s, 0) == Some(seq![text] + Seq::<Span>::empty()));
    assert(seq![text] + Seq::<Span>::empty() =~= seq![text]);
    let v = parse_spec(s)->Some_0;
    assert(v == seq![text]);
    assert(s.subrange(0, s.len() as int) =~= s);
    assert(trimmed(s, v) =~= seq![SegmentView::Text { text: s, trim_left: false, trim_right: false }]);
}

proof fn lemma_skip_ws(s: Seq<u8>, i: int, end: int)
    requires
        0 <= i <= end <= s.len(),
    ensures
        i <= skip_ws(s, i, end) <= end,
        forall|k: int| i <= k < skip_ws(s, i, end) ==> is_ws(#[trigger] s[k]),
        skip_ws(s, i, end) == end || !is_ws(s[skip_ws(s, i, end)]),
    decreases end - i,
{
    if i < end && is_ws(s[i]) {
        lemma_skip_ws(s, i + 1, end);
    }
}

proof fn lemma_back_ws(s: Seq<u8>, lo: int, j: int)
    requires
        0 <= lo <= j <= s.len(),
    ensures
        lo <= back_ws(s, lo, j) <= j,
        forall|k: int| back_ws(s, lo, j) <= k < j ==> is_ws(#[trigger] s[k]),
        back_ws(s, lo, j) == lo || !is_ws(s[back_ws(s, lo, j) - 1]),
    decreases j - lo,
{
    if lo < j && is_ws(s[j - 1]) {
        lemma_back_ws(s, lo, j - 1);
    }
}

/// Trimming drops only whitespace, and only at a marked edge: a text segment
/// is a stretch of its source from which whitespace alone was cut; with a
/// `-%>` before it, it starts at the first byte that is not whitespace (so
/// nothing past that byte is cut), with `<%-` after it, it ends after the last
/// such byte; with no marker beside it, it is its source unchanged.
pub proof fn law_trim(s: Seq<u8>, v: Seq<Span>, i: int)
    requires
        spans_wf(s, v),
        0 <= i < v.len(),
        v[i].kind == Kind::Text,
    ensures
        ({
            let sp = v[i];
            let t = trimmed_at(s, v, i);
            exists|lo: int, hi: int|
                sp.body_start <= lo <= hi <= sp.body_end
                && t == (SegmentView::Text {
                    text: s.subrange(lo, hi),
                    trim_left: i > 0 && v[i - 1].trim_close,
                    trim_right: i + 1 < v.len() && v[i + 1].trim_open,
                })
                && (forall|k: int| sp.body_start <= k < lo ==> is_ws(#[trigger] s[k]))
                && (forall|k: int| hi <= k < sp.body_end ==> is_ws(#[trigger] s[k]))
                && (i > 0 && v[i - 1].trim_close && lo < hi ==> !is_ws(s[lo]))
                && (i + 1 < v.len() && v[i + 1].trim_open && lo < hi ==> !is_ws(s[hi - 1]))
                && (!(i > 0 && v[i - 1].trim_close) ==> lo == sp.body_start)
                && (!(i + 1 < v.len() && v[i + 1].trim_open) ==> hi == sp.body_end)
        }),
{
    let sp = v[i];
    assert(span_wf(s, v[i]));
    let tl = i > 0 && v[i - 1].trim_close;
    let tr = i + 1 < v.len() && v[i + 1].trim_open;
    let lo = if tl { skip_ws(s, sp.body_start as int, sp.body_end as int) } else { sp.body_start as int };
    lemma_skip_ws(s, sp.body_start as int, sp.body_end as int);
    let hi = if tr { back_ws(s, lo, sp.body_end as int) } else { sp.body_end as int };
    lemma_back_ws(s, lo, sp.body_end as int);
    assert(trimmed_at(s, v, i) == (SegmentView::Text { text: s.subrange(lo, hi), trim_left: tl, trim_right: tr }));
    assert(forall|k: int| sp.body_start <= k < lo ==> is_ws(#[trigger] s[k]));
    assert(forall|k: int| hi <= k < sp.body_end ==> is_ws(#[trigger] s[k]));
    assert(sp.body_start <= lo <= hi <= sp.body_end);
}

/// A copy of `s[lo..hi]`.
pub fn copy_range(s: &[u8], lo: usize, hi: usize) -> (r: Vec<u8>)
    requires
        lo <= hi <= s@.len(),
    ensures
        r@ == s@.subrange(lo as int, hi as int),
{
    let mut r: Vec<u8> = Vec::new();
    let mut k: usize = lo;
    while k < hi
        invariant
            lo <= k <= hi <= s@.len(),
            r@ == s@.subrange(lo as int, k as int),
        decreases hi - k,
    {
        r.push(s[k]);
        assert(r@ =~= s@.subrange(lo as int, k + 1));
        k = k + 1;
    }
    r
}

fn skip_ws_exec(s: &[u8], i: usize, end: usize) -> (r: usize)
    requires
        i <= end <= s@.len(),
    ensures
        i <= r <= end,
        r == skip_ws(s@, i as int, end as int),
{
    let mut k: usize = i;
    while k < end && (s[k] == 32u8 || s[k] == 9u8 || s[k] == 10u8)
        invariant
            i <= k <= end <= s@.len(),
            skip_ws(s@, i as int, end as int) == skip_ws(s@, k as int, end as int),
        decreases end - k,
    {
        k = k + 1;
    }
    k
}

fn back_ws_exec(s: &[u8], lo: usize, j: usize) -> (r: usize)
    requires
        lo <= j <= s@.len(),
    ensures
        lo <= r <= j,
        r == back_ws(s@, lo as int, j as int),
{
    let mut k: usize = j;
    while k > lo && (s[k - 1] == 32u8 || s[k - 1] == 9u8 || s[k - 1] == 10u8)
        invariant
            lo <= k <= j <= s@.len(),
            back_ws(s@, lo as int, j as int) == back_ws(s@, lo as int, k as int),
        decreases k - lo,
    {
        k = k - 1;
    }
    k
}

/// The trim pass: strips whitespace from the edges of each text segment that
/// a neighbouring tag marks with `-`, and copies out each tag's fragment.
pub fn trim(template: &str, spans: &Vec<Span>) -> (r: Vec<Segment>)
    requires
        spans_wf(template.spec_bytes(), spans@),
    ensures
        views(r@) == trimmed(template.spec_bytes(), spans@),
{
    let s = template.as_bytes();
    let n = spans.len();
    let mut out: Vec<Segment> = Vec::new();
    let mut i: usize = 0;
    while i < n
        invariant
            s@ == template.spec_bytes(),
            n == spans@.len(),
            i <= n,
            spans_wf(s@, spans@),
            out@.len() == i,
            forall|k: int| 0 <= k < i ==> out@[k]@ == trimmed_at(s@, spans@, k),
        decreases n - i,
    {
        let sp = spans[i];
        let seg = match sp.kind {
            Kind::Text => {
                let tl = i > 0 && spans[i - 1].trim_close;
                let tr = i + 1 < n && spans[i + 1].trim_open;
                let lo = if tl { skip_ws_exec(s, sp.body_start, sp.body_end) } else { sp.body_start };
                let hi = if tr { back_ws_exec(s, lo, sp.body_end) } else { sp.body_end };
                Segment::Text { text: copy_range(s, lo, hi), trim_left: tl, trim_right: tr }
            },
            Kind::Code => Segment::Code(copy_range(s, sp.body_start, sp.body_end)),
            Kind::Expr => Segment::Expr(copy_range(s, sp.body_start, sp.body_end)),
        };
        assert(seg@ == trimmed_at(s@, spans@, i as int));
        out.push(seg);
        i = i + 1;
    }
    assert(views(out@) =~= trimmed(s@, spans@));
    out
}

/// Parses `template` and applies the trim pass.
pub fn segments(template: &str) -> (r: Result<Vec<Segment>, ParseError>)
    ensures
        match r {
            Ok(v) => segments_spec(template.spec_bytes()) == Some(views(v@)),
            Err(e) => segments_spec(template.spec_bytes()) is None,
        },
{
    match ErstParser::parse(template) {
        Ok(spans) => {
            proof {
                lemma_parse_wf(template.spec_bytes(), 0);
            }
            Ok(trim(template, &spans))
        },
        Err(e) => Err(e),
    }
}

} // verus!
