//! The write-plan: what the code generator makes of a segment sequence, and
//! how a plan renders once its expressions have been evaluated.
use vstd::prelude::*;
use vstd::string::{StringExecFns, StringSliceAdditionalSpecFns};
use crate::segment::{Segment, SegmentView, views};
use crate::escape::{HtmlWriter, decoded, escape_html};

verus! {

/// How expression output is written.
#[derive(Clone, Copy, Debug, PartialEq, Eq, Structural)]
pub enum ContentType {
    /// Unescaped (the tag `""`, and any tag but `"html"`).
    Plain,
    /// Through the HTML-escaping writer (the tag `"html"`).
    Html,
}

pub open spec fn is_html_tag(tag: Seq<u8>) -> bool {
    tag == seq![104u8, 116u8, 109u8, 108u8]
}

/// Reads a template's declared content-type tag.
pub fn content_type(tag: &str) -> (r: ContentType)
    ensures
        r == (if is_html_tag(tag.spec_bytes()) { ContentType::Html } else { ContentType::Plain }),
{
    let b = tag.as_bytes();
    if b.len() == 4 && b[0] == 104u8 && b[1] == 116u8 && b[2] == 109u8 && b[3] == 108u8 {
        assert(b@ =~= seq![104u8, 116u8, 109u8, 108u8]);
        ContentType::Html
    } else {
        ContentType::Plain
    }
}

/// One emit-instruction.
#[derive(Clone, Debug)]
pub enum Instruction {
    /// Write literal bytes.
    Text(Vec<u8>),
    /// Write the cached text of the segment at this index (dynamic mode).
    Cached(usize),
    /// Evaluate the expression and write its text, escaped when `escape` is set.
    Expr { source: Vec<u8>, escape: bool },
    /// Splice the fragment verbatim as control flow.
    Code(Vec<u8>),
}

pub enum InstructionView {
    Text(Seq<u8>),
    Cached(usize),
    Expr { source: Seq<u8>, escape: bool },
    Code(Seq<u8>),
}

impl View for Instruction {
    type V = InstructionView;

    open spec fn view(&self) -> InstructionView {
        match self {
            Instruction::Text(t) => InstructionView::Text(t@),
            Instruction::Cached(i) => InstructionView::Cached(*i),
            Instruction::Expr { source, escape } => InstructionView::Expr { source: source@, escape: *escape },
            Instruction::Code(c) => InstructionView::Code(c@),
        }
    }
}

pub open spec fn plan_views(v: Seq<Instruction>) -> Seq<InstructionView> {
    Seq::new(v.len(), |i: int| v[i]@)
}

/// The instruction for segment `i`.
pub open spec fn instruction_for(segs: Seq<SegmentView>, ct: ContentType, dynamic: bool, i: int) -> InstructionView {
    match segs[i] {
        SegmentView::Text { text, .. } => if dynamic {
            InstructionView::Cached(i as usize)
        } else {
            InstructionView::Text(text)
        },
        SegmentView::Code(c) => InstructionView::Code(c),
        SegmentView::Expr(e) => InstructionView::Expr { source: e, escape: ct == ContentType::Html },
    }
}

/// The plan for a segment sequence: one instruction per segment, in order.
pub open spec fn plan_spec(segs: Seq<SegmentView>, ct: ContentType, dynamic: bool) -> Seq<InstructionView> {
    Seq::new(segs.len(), |i: int| instruction_for(segs, ct, dynamic, i))
}

pub(crate) fn copy_bytes(b: &Vec<u8>) -> (r: Vec<u8>)
    ensures
        r@ == b@,
{
    let mut r: Vec<u8> = Vec::new();
    let mut k: usize = 0;
    while k < b.len()
        invariant
            k <= b@.len(),
            r@ == b@.subrange(0, k as int),
        decreases b@.len() - k,
    {
        r.push(b[k]);
        assert(r@ =~= b@.subrange(0, k + 1));
        k = k + 1;
    }
    assert(r@ =~= b@);
    r
}

/// The code generator: turns segments into a write-plan. In dynamic mode each
/// text segment is served from the text cache by its index instead.
pub fn compile(segments: &Vec<Segment>, ct: ContentType, dynamic: bool) -> (r: Vec<Instruction>)
    ensures
        plan_views(r@) == plan_spec(views(segments@), ct, dynamic),
{
    let mut out: Vec<Instruction> = Vec::new();
    let mut i: usize = 0;
    while i < segments.len()
        invariant
            i <= segments@.len(),
            out@.len() == i,
            forall|k: int| 0 <= k < i ==> out@[k]@ == instruction_for(views(segments@), ct, dynamic, k),
        decreases segments@.len() - i,
    {
        let ins = match &segments[i] {
            Segment::Text { text, .. } => if dynamic {
                Instruction::Cached(i)
            } else {
                Instruction::Text(copy_bytes(text))
            },
            Segment::Code(c) => Instruction::Code(copy_bytes(c)),
            Segment::Expr(e) => Instruction::Expr {
                source: copy_bytes(e),
                escape: match ct {
                    ContentType::Html => true,
                    ContentType::Plain => false,
                },
            },
        };
        assert(ins@ == instruction_for(views(segments@), ct, dynamic, i as int));
        out.push(ins);
        i = i + 1;
    }
    assert(plan_views(out@) =~= plan_spec(views(segments@), ct, dynamic));
    out
}

/// The textual form of an evaluated expression.
#[derive(Clone, Debug)]
pub enum Value {
    /// Escaped where the content type asks for it.
    Text(Vec<u8>),
    /// Wrapped in `Raw`: never escaped.
    Raw(Vec<u8>),
}

pub enum ValueView {
    Text(Seq<u8>),
    Raw(Seq<u8>),
}

impl View for Value {
    type V = ValueView;

    open spec fn view(&self) -> ValueView {
        match self {
            Value::Text(t) => ValueView::Text(t@),
            Value::Raw(t) => ValueView::Raw(t@),
        }
    }
}

pub open spec fn value_views(v: Seq<Value>) -> Seq<ValueView> {
    Seq::new(v.len(), |i: int| v[i]@)
}

/// What an expression instruction writes for value `v`.
pub open spec fn expr_output(v: ValueView, escape: bool) -> Seq<char> {
    match v {
        ValueView::Text(t) => if escape { escape_html(t) } else { decoded(t) },
        ValueView::Raw(t) => decoded(t),
    }
}

/// The cached text for index `i`, empty when there is none.
pub open spec fn cached_output(texts: Seq<Option<Seq<u8>>>, i: int) -> Seq<char> {
    if 0 <= i < texts.len() {
        match texts[i] {
            Some(t) => decoded(t),
            None => Seq::empty(),
        }
    } else {
        Seq::empty()
    }
}

/// The output of `plan[k..]`, with `values[j..]` the values of its expressions
/// in order (an expression past the last value writes nothing) and `texts`
/// the cached text of each segment index.
pub open spec fn render_from(
    plan: Seq<InstructionView>,
    values: Seq<ValueView>,
    texts: Seq<Option<Seq<u8>>>,
    k: int,
    j: int,
) -> Seq<char>
    decreases plan.len() - k,
{
    if k < 0 || k >= plan.len() {
        Seq::empty()
    } else {
        match plan[k] {
            InstructionView::Text(t) => decoded(t) + render_from(plan, values, texts, k + 1, j),
            InstructionView::Cached(i) => cached_output(texts, i as int) + render_from(plan, values, texts, k + 1, j),
            InstructionView::Code(_) => render_from(plan, values, texts, k + 1, j),
            InstructionView::Expr { escape, .. } => if 0 <= j < values.len() {
                expr_output(values[j], escape) + render_from(plan, values, texts, k + 1, j + 1)
            } else {
                render_from(plan, values, texts, k + 1, j + 1)
            },
        }
    }
}

/// The output of a whole plan.
pub open spec fn render_spec(plan: Seq<InstructionView>, values: Seq<ValueView>, texts: Seq<Option<Seq<u8>>>) -> Seq<char> {
    render_from(plan, values, texts, 0, 0)
}

fn write_value(w: &mut HtmlWriter, v: &Value, escape: bool)
    ensures
        final(w).out@ == old(w).out@ + expr_output(v@, escape),
{
    match v {
        Value::Text(t) => if escape {
            w.write(t.as_slice());
        } else {
            w.write_slice(t.as_slice());
        },
        Value::Raw(t) => w.write_slice(t.as_slice()),
    }
}

/// Runs a straight-line plan: writes its text, and the given values of its
/// expressions in order; control-flow fragments write nothing.
pub fn render_plan(
    plan: &Vec<Instruction>,
    values: &Vec<Value>,
    texts: &Vec<Option<Vec<u8>>>,
    out: &mut String,
)
    ensures
        final(out)@ == old(out)@ + render_spec(plan_views(plan@), value_views(values@), option_views(texts@)),
{
    let ghost p = plan_views(plan@);
    let ghost vs = value_views(values@);
    let ghost ts = option_views(texts@);
    let mut w = HtmlWriter { out: String::new() };
    let mut k: usize = 0;
    let mut j: usize = 0;
    while k < plan.len()
        invariant
            k <= plan@.len(),
            j <= k,
            p == plan_views(plan@),
            vs == value_views(values@),
            ts == option_views(texts@),
            render_spec(p, vs, ts) == w.out@ + render_from(p, vs, ts, k as int, j as int),
        decreases plan@.len() - k,
    {
        let ghost before = w.out@;
        let ghost jb = j;
        assert(p[k as int] == plan@[k as int]@);
        match &plan[k] {
            Instruction::Text(t) => {
                w.write_slice(t.as_slice());
            },
            Instruction::Cached(i) => {
                if *i < texts.len() {
                    match &texts[*i] {
                        Some(t) => w.write_slice(t.as_slice()),
                        None => {},
                    }
                }
                assert(w.out@ == before + cached_output(ts, *i as int));
            },
            Instruction::Code(_) => {},
            Instruction::Expr { escape, .. } => {
                if j < values.len() {
                    write_value(&mut w, &values[j], *escape);
                }
                j = j + 1;
            },
        }
        proof {
            assert(before + render_from(p, vs, ts, k as int, jb as int) =~= w.out@ + render_from(p, vs, ts, k + 1, j as int));
        }
        k = k + 1;
    }
    assert(w.out@ + Seq::<char>::empty() =~= w.out@);
    out.append(w.out.as_str());
}

/// Content-type routing: under `"html"` an expression's text is escaped,
/// once; under `""` it is written as it is.
pub proof fn law_expr_routing(e: Seq<u8>, v: Seq<u8>, texts: Seq<Option<Seq<u8>>>)
    ensures
        render_spec(plan_spec(seq![SegmentView::Expr(e)], ContentType::Html, false), seq![ValueView::Text(v)], texts)
            == escape_html(v),
        render_spec(plan_spec(seq![SegmentView::Expr(e)], ContentType::Plain, false), seq![ValueView::Text(v)], texts)
            == decoded(v),
{
    lemma_single_expr(e, v, ContentType::Html, texts);
    lemma_single_expr(e, v, ContentType::Plain, texts);
}

/// `Raw` bypasses escaping, under `"html"` too: the value's text is written
/// unchanged.
pub proof fn law_raw_bypass(e: Seq<u8>, v: Seq<u8>, texts: Seq<Option<Seq<u8>>>)
    ensures
        render_spec(plan_spec(seq![SegmentView::Expr(e)], ContentType::Html, false), seq![ValueView::Raw(v)], texts)
            == decoded(v),
{
    let p = plan_spec(seq![SegmentView::Expr(e)], ContentType::Html, false);
    let vs = seq![ValueView::Raw(v)];
    assert(p[0] == (InstructionView::Expr { source: e, escape: true }));
    assert(render_from(p, vs, texts, 1, 1) == Seq::<char>::empty());
    assert(decoded(v) + Seq::<char>::empty() =~= decoded(v));
}

proof fn lemma_single_expr(e: Seq<u8>, v: Seq<u8>, ct: ContentType, texts: Seq<Option<Seq<u8>>>)
    ensures
        render_spec(plan_spec(seq![SegmentView::Expr(e)], ct, false), seq![ValueView::Text(v)], texts)
            == expr_output(ValueView::Text(v), ct == ContentType::Html),
{
    let p = plan_spec(seq![SegmentView::Expr(e)], ct, false);
    let vs = seq![ValueView::Text(v)];
    assert(p[0] == (InstructionView::Expr { source: e, escape: ct == ContentType::Html }));
    assert(render_from(p, vs, texts, 1, 1) == Seq::<char>::empty());
    let o = expr_output(ValueView::Text(v), ct == ContentType::Html);
    assert(o + Seq::<char>::empty() =~= o);
}

pub open spec fn option_views(v: Seq<Option<Vec<u8>>>) -> Seq<Option<Seq<u8>>> {
    Seq::new(v.len(), |i: int| match v[i] {
        Some(t) => Some(t@),
        None => None,
    })
}

} // verus!
