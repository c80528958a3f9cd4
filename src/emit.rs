//! Emits a write-plan as the statements of a render body.
use vstd::prelude::*;
use vstd::string::StringSliceAdditionalSpecFns;
use crate::parser::{ParseError, Kind, Span, is_close_at, next_close, parse_from, tag_span};
use crate::segment::{SegmentView, trimmed};
use crate::error::Error;
use crate::escape::utf8_str;
use crate::tokens::statements_of_block;
use crate::segment::{segments, segments_spec};
use crate::plan::{Instruction, InstructionView, ContentType, compile, content_type, is_html_tag, plan_spec, plan_views};

verus! {

/// The decimal digits of `n`.
pub open spec fn decimal(n: nat) -> Seq<u8>
    decreases n,
{
    if n < 10 {
        seq![(48 + n) as u8]
    } else {
        decimal(n / 10).push((48 + n % 10) as u8)
    }
}

pub open spec fn text_open() -> Seq<u8> {
    "__erst_buffer.push_str(r####\"".spec_bytes()
}

pub open spec fn text_close() -> Seq<u8> {
    "\"####);".spec_bytes()
}

pub open spec fn cached_open() -> Seq<u8> {
    "__erst_buffer.push_str(&__erst_text(\"".spec_bytes()
}

pub open spec fn cached_middle() -> Seq<u8> {
    "\", ".spec_bytes()
}

pub open spec fn cached_close() -> Seq<u8> {
    "));".spec_bytes()
}

pub open spec fn html_open() -> Seq<u8> {
    "__erst_buffer.push_str(&erst::escape::Html(".spec_bytes()
}

pub open spec fn html_close() -> Seq<u8> {
    ").display_text());".spec_bytes()
}

pub open spec fn plain_open() -> Seq<u8> {
    "__erst_buffer.push_str(&::std::string::ToString::to_string(&(".spec_bytes()
}

pub open spec fn plain_close() -> Seq<u8> {
    ")));".spec_bytes()
}

/// The source text of one instruction; `path` names the template whose
/// cached text a `Cached` instruction reads.
pub open spec fn emit_instruction(ins: InstructionView, path: Seq<u8>) -> Seq<u8> {
    match ins {
        InstructionView::Text(t) => text_open() + t + text_close(),
        InstructionView::Cached(i) => cached_open() + path + cached_middle() + decimal(i as nat) + cached_close(),
        InstructionView::Expr { source, escape } => if escape {
            html_open() + source + html_close()
        } else {
            plain_open() + source + plain_close()
        },
        InstructionView::Code(c) => c,
    }
}

/// The source text of a plan: its instructions' texts, in order.
pub open spec fn emit_all(plan: Seq<InstructionView>, path: Seq<u8>) -> Seq<u8>
    decreases plan.len(),
{
    if plan.len() == 0 {
        Seq::empty()
    } else {
        emit_all(plan.drop_last(), path) + emit_instruction(plan.last(), path)
    }
}

pub(crate) fn push_bytes(out: &mut Vec<u8>, b: &[u8])
    ensures
        final(out)@ == old(out)@ + b@,
{
    let mut k: usize = 0;
    while k < b.len()
        invariant
            k <= b@.len(),
            out@ == old(out)@ + b@.subrange(0, k as int),
        decreases b@.len() - k,
    {
        out.push(b[k]);
        assert(out@ =~= old(out)@ + b@.subrange(0, k + 1));
        k = k + 1;
    }
    assert(b@.subrange(0, b@.len() as int) =~= b@);
}

fn push_decimal(out: &mut Vec<u8>, n: usize)
    ensures
        final(out)@ == old(out)@ + decimal(n as nat),
    decreases n,
{
    if n >= 10 {
        push_decimal(out, n / 10);
    }
    let d: u8 = (n % 10) as u8;
    out.push(48u8 + d);
    assert(out@ =~= old(out)@ + decimal(n as nat));
}

fn emit_one(out: &mut Vec<u8>, ins: &Instruction, path: &[u8])
    ensures
        final(out)@ == old(out)@ + emit_instruction(ins@, path@),
{
    match ins {
        Instruction::Text(t) => {
            push_bytes(out, "__erst_buffer.push_str(r####\"".as_bytes());
            push_bytes(out, t.as_slice());
            push_bytes(out, "\"####);".as_bytes());
        },
        Instruction::Cached(i) => {
            push_bytes(out, "__erst_buffer.push_str(&__erst_text(\"".as_bytes());
            push_bytes(out, path);
            push_bytes(out, "\", ".as_bytes());
            push_decimal(out, *i);
            push_bytes(out, "));".as_bytes());
        },
        Instruction::Expr { source, escape } => if *escape {
            push_bytes(out, "__erst_buffer.push_str(&erst::escape::Html(".as_bytes());
            push_bytes(out, source.as_slice());
            push_bytes(out, ").display_text());".as_bytes());
        } else {
            push_bytes(out, "__erst_buffer.push_str(&::std::string::ToString::to_string(&(".as_bytes());
            push_bytes(out, source.as_slice());
            push_bytes(out, ")));".as_bytes());
        },
        Instruction::Code(c) => push_bytes(out, c.as_slice()),
    }
    assert(final(out)@ =~= old(out)@ + emit_instruction(ins@, path@));
}

/// The render body for a plan.
pub fn emit(plan: &Vec<Instruction>, path: &[u8]) -> (r: Vec<u8>)
    ensures
        r@ == emit_all(plan_views(plan@), path@),
{
    let mut out: Vec<u8> = Vec::new();
    let mut k: usize = 0;
    while k < plan.len()
        invariant
            k <= plan@.len(),
            out@ == emit_all(plan_views(plan@).subrange(0, k as int), path@),
        decreases plan@.len() - k,
    {
        emit_one(&mut out, &plan[k], path);
        let ghost p = plan_views(plan@);
        assert(p.subrange(0, k + 1).drop_last() =~= p.subrange(0, k as int));
        k = k + 1;
    }
    assert(plan_views(plan@).subrange(0, plan@.len() as int) =~= plan_views(plan@));
    out
}

/// The body source of a template in static mode, where text is written
/// literally.
pub open spec fn static_body(s: Seq<u8>, tag: Seq<u8>) -> Option<Seq<u8>> {
    match segments_spec(s) {
        Some(segs) => Some(emit_all(
            plan_spec(segs, if is_html_tag(tag) { ContentType::Html } else { ContentType::Plain }, false),
            Seq::empty(),
        )),
        None => None,
    }
}

/// Generates the render body of `template` (static mode) for content-type
/// tag `type_`.
pub fn parse(template: &str, type_: &str) -> (r: Result<Vec<u8>, ParseError>)
    ensures
        match r {
            Ok(body) => static_body(template.spec_bytes(), type_.spec_bytes()) == Some(body@),
            Err(_) => static_body(template.spec_bytes(), type_.spec_bytes()) is None,
        },
{
    let segs = match segments(template) {
        Ok(v) => v,
        Err(e) => return Err(e),
    };
    let ct = content_type(type_);
    let plan = compile(&segs, ct, false);
    let no_path: Vec<u8> = Vec::new();
    Ok(emit(&plan, no_path.as_slice()))
}

proof fn lemma_no_close(s: Seq<u8>, i: int, end: int)
    requires
        0 <= i <= end,
        end + 1 < s.len(),
        s[end] == 37u8 && s[end + 1] == 62u8,
        forall|k: int| i <= k < end ==> !is_close_at(s, k),
    ensures
        next_close(s, i) == end,
    decreases end - i,
{
    if i < end {
        lemma_no_close(s, i + 1, end);
    }
}

/// A single expression tag `<%=e%>` (with no `%>` inside `e` and no `-`
/// ending it) generates exactly one write of `e`: through `Html(..)` under
/// `"html"`, unescaped under any other tag.
pub proof fn law_expression_body(e: Seq<u8>, tag: Seq<u8>)
    requires
        e.len() + 5 <= usize::MAX,
        forall|k: int| 0 <= k < e.len() - 1 ==> !(#[trigger] e[k] == 37u8 && e[k + 1] == 62u8),
        e.len() > 0 ==> e.last() != 45u8 && e.last() != 37u8,
    ensures
        static_body(seq![60u8, 37u8, 61u8] + e + seq![37u8, 62u8], tag) == Some(
            if is_html_tag(tag) {
                html_open() + e + html_close()
            } else {
                plain_open() + e + plain_close()
            },
        ),
{
    let s = seq![60u8, 37u8, 61u8] + e + seq![37u8, 62u8];
    let end: int = 3 + e.len() as int;
    assert(s[end] == 37u8 && s[end + 1] == 62u8);
    assert forall|k: int| 3 <= k < end implies !is_close_at(s, k) by {
        assert(s[k] == e[k - 3]);
        if k + 1 < end {
            assert(s[k + 1] == e[k - 2]);
        }
    }
    lemma_no_close(s, 3, end);
    assert(crate::parser::is_open_at(s, 0));
    assert(crate::parser::fragment_start(s, 0) == 3);
    let sp = tag_span(s, 0, end);
    if e.len() > 0 {
        assert(s[end - 1] == e.last());
    }
    assert(sp.kind == Kind::Expr && sp.body_start == 3 && sp.body_end == end);
    assert(parse_from(s, end + 2) == Some(Seq::<Span>::empty()));
    assert(parse_from(s, 0) == Some(seq![sp] + Seq::<Span>::empty()));
    assert(seq![sp] + Seq::<Span>::empty() =~= seq![sp]);
    assert(s.subrange(3, end) =~= e);
    let segs = trimmed(s, seq![sp]);
    assert(segs =~= seq![SegmentView::Expr(e)]);
    let ct = if is_html_tag(tag) { ContentType::Html } else { ContentType::Plain };
    let plan = plan_spec(segs, ct, false);
    assert(plan.drop_last() =~= Seq::<InstructionView>::empty());
    assert(emit_all(plan.drop_last(), Seq::empty()) == Seq::<u8>::empty());
    let out = emit_instruction(plan.last(), Seq::empty());
    assert(Seq::<u8>::empty() + out =~= out);
}

/// The body as a block: `{ ` .. ` }`.
pub open spec fn as_block(body: Seq<u8>) -> Seq<u8> {
    seq![123u8, 32u8] + body + seq![32u8, 125u8]
}

pub open spec fn body_spec(path: Seq<u8>, s: Seq<u8>, tag: Seq<u8>, dynamic: bool) -> Option<Seq<u8>> {
    if dynamic {
        crate::dynamic::dynamic_body(path, s, tag)
    } else {
        static_body(s, tag)
    }
}

/// The render body of `template` wrapped as a block, `{ ` .. ` }`: the text
/// that [`generate`] hands to the host-language parser.
pub fn block_source(path: &str, template: &str, type_: &str, dynamic: bool) -> (r: Result<Vec<u8>, ParseError>)
    ensures
        match body_spec(path.spec_bytes(), template.spec_bytes(), type_.spec_bytes(), dynamic) {
            Some(b) => r matches Ok(v) && v@ == as_block(b),
            None => r is Err,
        },
{
    let body = if dynamic {
        crate::dynamic::parse(path, template, type_)
    } else {
        parse(template, type_)
    };
    let body = match body {
        Ok(b) => b,
        Err(e) => return Err(e),
    };
    let mut block: Vec<u8> = Vec::new();
    block.push(123u8);
    block.push(32u8);
    push_bytes(&mut block, body.as_slice());
    block.push(32u8);
    block.push(125u8);
    assert(block@ =~= as_block(body@));
    Ok(block)
}

/// Compiles `template` to the statements of its render body: the text of
/// [`block_source`], read as a block by the host-language parser and printed
/// back. Fails with `Parse` exactly when the template does not parse, and
/// otherwise with `Generation` when its fragments do not make a block.
pub fn generate(path: &str, template: &str, type_: &str, dynamic: bool) -> (r: Result<String, Error>)
    ensures
        body_spec(path.spec_bytes(), template.spec_bytes(), type_.spec_bytes(), dynamic) is None
            <==> r matches Err(Error::Parse(_)),
        r is Ok || r matches Err(Error::Parse(_)) || r matches Err(Error::Generation(_)),
        r matches Err(Error::Generation(src)) ==> body_spec(
            path.spec_bytes(),
            template.spec_bytes(),
            type_.spec_bytes(),
            dynamic,
        ) matches Some(b) && src@ == as_block(b),
{
    let block = match block_source(path, template, type_, dynamic) {
        Ok(b) => b,
        Err(e) => return Err(Error::Parse(e)),
    };
    let text = match utf8_str(block.as_slice()) {
        Some(t) => t,
        None => return Err(Error::Generation(block)),
    };
    match statements_of_block(text) {
        Some(t) => Ok(t),
        None => Err(Error::Generation(block)),
    }
}

} // verus!
