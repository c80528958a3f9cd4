use erst::dynamic::{get_template_code, needs_write, rerun_if_templates_changed, skeleton_source, text_table, Lookup, TextCache};
use erst::emit::{generate, parse};
use erst::error::Error;
use erst::escape::{Html, HtmlWriter, Raw};
use erst::parser::{ErstParser, Kind, ParseError};
use erst::plan::{compile, content_type, render_plan, ContentType, Instruction, Value};
use erst::segment::{segments, Segment};
use erst::{Template, WriteError};

fn text(seg: &Segment) -> Option<&[u8]> {
    match seg {
        Segment::Text { text, .. } => Some(text.as_slice()),
        _ => None,
    }
}

fn render(template: &str, ty: &str, values: Vec<Value>) -> String {
    let segs = segments(template).unwrap();
    let plan = compile(&segs, content_type(ty), false);
    let mut out = String::new();
    render_plan(&plan, &values, &Vec::new(), &mut out);
    out
}

#[test]
fn plain_template_is_one_text_segment() {
    let segs = segments("hello <b>world</b>\n").unwrap();
    assert_eq!(segs.len(), 1);
    assert_eq!(text(&segs[0]), Some(&b"hello <b>world</b>\n"[..]));
}

#[test]
fn spans_give_back_the_template() {
    let src = "a <% x -%>\n  b<%= y %>\tc<%- z %> d";
    let spans = ErstParser::parse(src).unwrap();
    let mut joined = Vec::new();
    for sp in &spans {
        joined.extend_from_slice(&src.as_bytes()[sp.start..sp.end]);
    }
    assert_eq!(joined, src.as_bytes());
    let kinds: Vec<Kind> = spans.iter().map(|s| s.kind).collect();
    assert_eq!(kinds, vec![Kind::Text, Kind::Code, Kind::Text, Kind::Expr, Kind::Text, Kind::Code, Kind::Text]);
}

#[test]
fn trim_stops_at_first_non_whitespace() {
    let segs = segments("<% -%>\n  X  ").unwrap();
    assert_eq!(segs.len(), 2);
    match &segs[0] {
        Segment::Code(c) => assert_eq!(c.as_slice(), b" "),
        _ => panic!("expected code"),
    }
    match &segs[1] {
        Segment::Text { text, trim_left, trim_right } => {
            assert_eq!(text.as_slice(), b"X  ");
            assert!(*trim_left);
            assert!(!*trim_right);
        }
        _ => panic!("expected text"),
    }
}

#[test]
fn trim_left_marker_strips_preceding_whitespace() {
    let segs = segments("<ul>\n  <%- x %>").unwrap();
    assert_eq!(text(&segs[0]), Some(&b"<ul>"[..]));
}

#[test]
fn text_without_marker_is_untouched() {
    let segs = segments(" a <% x %> b ").unwrap();
    assert_eq!(text(&segs[0]), Some(&b" a "[..]));
    assert_eq!(text(&segs[2]), Some(&b" b "[..]));
}

#[test]
fn unterminated_tag_is_a_parse_error() {
    assert_eq!(
        ErstParser::parse("abc <% x").unwrap_err(),
        ParseError { position: 4, line: 1 }
    );
    assert_eq!(
        ErstParser::parse("a\nb\n<%= ok %>\n<% oops").unwrap_err(),
        ParseError { position: 14, line: 4 }
    );
    assert!(segments("<%").is_err());
    assert_eq!(
        ParseError { position: 0, line: 1 }.message(),
        "unterminated tag: `<%` has no matching `%>`"
    );
}

#[test]
fn escaping_is_applied_once() {
    assert_eq!(Html("&lt;").render_text(), "&amp;lt;");
    assert_eq!(render("<%= x %>", "html", vec![Value::Text(b"&lt;".to_vec())]), "&amp;lt;");
}

#[test]
fn every_reserved_character_is_escaped() {
    let mut w = HtmlWriter::new();
    let n = w.write(b"a<b>&\"c'/d");
    assert_eq!(n, 10);
    assert_eq!(w.out, "a&lt;b&gt;&amp;&quot;c&#x27;&#x2f;d");
    for c in ['<', '>', '&', '"', '\'', '/'] {
        let without_entities = w
            .out
            .replace("&lt;", "")
            .replace("&gt;", "")
            .replace("&amp;", "")
            .replace("&quot;", "")
            .replace("&#x27;", "")
            .replace("&#x2f;", "");
        assert!(!without_entities.contains(c));
    }
}

#[test]
fn text_without_reserved_characters_is_unchanged() {
    let mut w = HtmlWriter::new();
    w.write("plain text, é ☃".as_bytes());
    w.flush();
    assert_eq!(w.out, "plain text, é ☃");
}

#[test]
fn invalid_utf8_is_decoded_lossily() {
    let mut w = HtmlWriter::new();
    w.write(b"a\xff<b");
    assert_eq!(w.out, "a\u{FFFD}&lt;b");
    let mut w = HtmlWriter::new();
    w.write_slice(b"x\xe2\x98\x83y");
    assert_eq!(w.out, "x\u{2603}y");
}

#[test]
fn expression_routing_follows_content_type() {
    assert_eq!(render("<%= x %>", "html", vec![Value::Text(b"<b>".to_vec())]), "&lt;b&gt;");
    assert_eq!(render("<%= x %>", "", vec![Value::Text(b"<b>".to_vec())]), "<b>");
    assert_eq!(content_type("html"), ContentType::Html);
    assert_eq!(content_type(""), ContentType::Plain);
    assert_eq!(content_type("HTML"), ContentType::Plain);
}

#[test]
fn raw_bypasses_escaping() {
    assert_eq!(render("<%= x %>", "html", vec![Value::Raw(b"<b>".to_vec())]), "<b>");
    assert_eq!(Html(Raw("<p>Hello</p>")).render_text(), "<p>Hello</p>");
    assert_eq!(Html(Raw(42)).display_text(), "42");
    assert_eq!(Html("<i>").display_text(), "&lt;i&gt;");
    assert_eq!(Html(7u8).display_text(), "7");
    assert_eq!(Html("<p>").render_text(), "&lt;p&gt;");
}

#[test]
fn end_to_end_render() {
    let out = render(
        "<div><% let n = 2; -%><p><%= n %></p></div>",
        "html",
        vec![Value::Text(b"2".to_vec())],
    );
    assert_eq!(out, "<div><p>2</p></div>");
}

#[test]
fn plan_is_one_instruction_per_segment() {
    let segs = segments("a<% if x { %>b<%= y %><% } %>").unwrap();
    let plan = compile(&segs, ContentType::Html, false);
    assert_eq!(plan.len(), 5);
    assert!(matches!(&plan[3], Instruction::Expr { escape: true, .. }));
    let plan = compile(&segs, ContentType::Plain, true);
    assert!(matches!(plan[0], Instruction::Cached(0)));
    assert!(matches!(plan[2], Instruction::Cached(2)));
    assert!(matches!(&plan[3], Instruction::Expr { escape: false, .. }));
}

#[test]
fn static_body_source() {
    let body = parse("a<% let x = 1; %><%= x %>", "html").unwrap();
    assert_eq!(
        String::from_utf8(body).unwrap(),
        "__erst_buffer.push_str(r####\"a\"####); let x = 1; __erst_buffer.push_str(&erst::escape::Html( x ).display_text());"
    );
    let body = parse("<%= x %>", "").unwrap();
    assert_eq!(
        String::from_utf8(body).unwrap(),
        "__erst_buffer.push_str(&::std::string::ToString::to_string(&( x )));"
    );
}

#[test]
fn dynamic_body_source() {
    let mut src = String::new();
    for _ in 0..11 {
        src.push_str("t<% %>");
    }
    let body = erst::dynamic::parse("p.erst", &src, "").unwrap();
    let body = String::from_utf8(body).unwrap();
    assert!(body.starts_with("__erst_buffer.push_str(&__erst_text(\"p.erst\", 0)); "));
    assert!(body.ends_with("__erst_buffer.push_str(&__erst_text(\"p.erst\", 20)); "));
}

#[test]
fn generation_rejects_invalid_fragments() {
    match generate("", "<% let = ; %>", "", false) {
        Err(Error::Generation(src)) => assert_eq!(src, b"{  let = ;  }".to_vec()),
        _ => panic!("expected a generation error"),
    }
    match erst::dynamic::get_template_code("<% let = ; %>") {
        Err(Error::Generation(src)) => assert_eq!(src, b"{ let = ; }".to_vec()),
        _ => panic!("expected a generation error"),
    }
    assert!(matches!(generate("", "<% x", "", false), Err(Error::Parse(_))));
    let stmts = generate("", "<% let y = 3; %><%= y %>", "", false).unwrap();
    assert!(stmts.contains("let y = 3"));
    assert!(stmts.contains("push_str"));
    assert_eq!(
        erst::emit::block_source("", "<%= y %>", "", false).unwrap(),
        b"{ __erst_buffer.push_str(&::std::string::ToString::to_string(&( y ))); }".to_vec()
    );
}

#[test]
fn text_table_holds_text_by_index() {
    let t = text_table("a<% x %>b<%= y -%>  c").unwrap();
    assert_eq!(t, vec![Some(b"a".to_vec()), None, Some(b"b".to_vec()), None, Some(b"c".to_vec())]);
}

#[test]
fn plain_template_table_has_one_entry() {
    assert_eq!(text_table("no tags here").unwrap(), vec![Some(b"no tags here".to_vec())]);
}

#[test]
fn cache_answers_repeated_lookups_without_reading() {
    let mut reads = 0;
    let mut cache = TextCache::new();
    let mut get = |cache: &mut TextCache, path: &str, idx: usize| -> Option<Vec<u8>> {
        match cache.lookup(path.as_bytes(), idx) {
            Lookup::Hit(v) => v,
            Lookup::Miss => {
                reads += 1;
                cache.populate(path.as_bytes(), Some("x<% a %>y"), idx)
            }
        }
    };
    let first = get(&mut cache, "t.erst", 2);
    let second = get(&mut cache, "t.erst", 2);
    let third = get(&mut cache, "t.erst", 2);
    assert_eq!(first, Some(b"y".to_vec()));
    assert_eq!(second, first);
    assert_eq!(third, first);
    assert_eq!(get(&mut cache, "t.erst", 1), None);
    assert_eq!(get(&mut cache, "t.erst", 9), None);
    assert_eq!(reads, 1);
}

#[test]
fn cache_degrades_to_nothing_on_failure() {
    let mut cache = TextCache::new();
    assert_eq!(cache.populate(b"gone.erst", None, 0), None);
    assert!(matches!(cache.lookup(b"gone.erst", 0), Lookup::Miss));
    assert_eq!(cache.populate(b"bad.erst", Some("<% x"), 0), None);
    assert!(matches!(cache.lookup(b"bad.erst", 0), Lookup::Miss));
}

#[test]
fn skeleton_is_stable_and_tracks_code() {
    let a = get_template_code("<p><% let x = 1; %><%= x %></p>").unwrap();
    let again = get_template_code("<p><% let x = 1; %><%= x %></p>").unwrap();
    let text_changed = get_template_code("<div>hi<% let x = 1; %><%= x %>there</div>").unwrap();
    let code_changed = get_template_code("<p><% let x = 2; %><%= x %></p>").unwrap();
    assert_eq!(a, again);
    assert_eq!(a, text_changed);
    assert_ne!(a, code_changed);
    assert_eq!(skeleton_source("a<% f(); %>b<%= x %>").unwrap(), b"{ f();  x ;}".to_vec());
}

#[test]
fn skeleton_write_only_when_changed() {
    assert!(!needs_write(Some("x"), "x"));
    assert!(needs_write(Some("x"), "y"));
    assert!(needs_write(None, "x"));
}

#[test]
fn rerun_lines_name_each_file() {
    let lines = rerun_if_templates_changed(&vec!["/c/a.erst".to_string(), "/c/b.erst".to_string()]);
    assert_eq!(lines, vec!["cargo:rerun-if-changed=/c/a.erst", "cargo:rerun-if-changed=/c/b.erst"]);
    assert!(erst::rerun_if_templates_changed().is_ok());
}

#[test]
fn error_msg_holds_text() {
    match Error::msg("No file name") {
        Error::Msg(m) => assert_eq!(m.0, "No file name"),
        _ => panic!("expected a message"),
    }
}

struct Greeting;

impl Template for Greeting {
    fn rendered(&self) -> vstd::seq::Seq<char> {
        vstd::seq::Seq::empty()
    }

    fn renders_ok(&self) -> bool {
        true
    }

    fn render_into(&self, out: &mut String) -> Result<(), WriteError> {
        out.push_str(&Html("<hi>").render_text());
        Ok(())
    }

    fn size_hint() -> usize {
        16
    }
}

struct Failing;

impl Template for Failing {
    fn rendered(&self) -> vstd::seq::Seq<char> {
        vstd::seq::Seq::empty()
    }

    fn renders_ok(&self) -> bool {
        false
    }

    fn render_into(&self, out: &mut String) -> Result<(), WriteError> {
        out.push_str("partial");
        Err(WriteError)
    }

    fn size_hint() -> usize {
        0
    }
}

#[test]
fn template_render_uses_render_into() {
    assert_eq!(Greeting.render().unwrap(), "&lt;hi&gt;");
    assert_eq!(Greeting::size_hint(), 16);
    assert_eq!(Failing.render(), Err(WriteError));
}

struct Numbered;

impl Template for Numbered {
    fn render_into(&self, writer: &mut String) -> Result<(), WriteError> {
        let __erst_buffer = writer;
        __erst_buffer.push_str(r####"<div>"####); let n = 2; __erst_buffer.push_str(r####"<p>"####);__erst_buffer.push_str(&erst::escape::Html( n ).display_text());__erst_buffer.push_str(r####"</p></div>"####);
        Ok(())
    }

    fn size_hint() -> usize {
        1024
    }
}

#[test]
fn emitted_body_compiles_and_renders() {
    let body = parse("<div><% let n = 2; -%><p><%= n %></p></div>", "html").unwrap();
    assert_eq!(
        String::from_utf8(body).unwrap(),
        "__erst_buffer.push_str(r####\"<div>\"####); let n = 2; __erst_buffer.push_str(r####\"<p>\"####);__erst_buffer.push_str(&erst::escape::Html( n ).display_text());__erst_buffer.push_str(r####\"</p></div>\"####);"
    );
    assert_eq!(Numbered.render().unwrap(), "<div><p>2</p></div>");
}

#[test]
fn single_expression_tag_routes_by_content_type() {
    assert_eq!(
        String::from_utf8(parse("<%=x%>", "html").unwrap()).unwrap(),
        "__erst_buffer.push_str(&erst::escape::Html(x).display_text());"
    );
    assert_eq!(
        String::from_utf8(parse("<%=x%>", "").unwrap()).unwrap(),
        "__erst_buffer.push_str(&::std::string::ToString::to_string(&(x)));"
    );
}
