//! Dynamic mode: text served from a cache keyed by template path and segment
//! index, and the code skeleton used to tell when recompiling is needed.
use vstd::prelude::*;
use vstd::string::StringSliceAdditionalSpecFns;
use crate::parser::ParseError;
use crate::segment::{Segment, SegmentView, segments, segments_spec, views};
use crate::plan::{option_views, copy_bytes, compile, content_type, is_html_tag, plan_spec, ContentType};
use crate::emit::{emit, emit_all, push_bytes};
use crate::error::Error;
use crate::escape::utf8_str;
use crate::tokens::statements_of_block;
use vstd::string::StringExecFns;

verus! {

/// The body source of a template in dynamic mode, where each text segment is
/// read from the cache for `path` by its index.
pub open spec fn dynamic_body(path: Seq<u8>, s: Seq<u8>, tag: Seq<u8>) -> Option<Seq<u8>> {
    match segments_spec(s) {
        Some(segs) => Some(emit_all(
            plan_spec(segs, if is_html_tag(tag) { ContentType::Html } else { ContentType::Plain }, true),
            path,
        )),
        None => None,
    }
}

/// Generates the render body of `template` (dynamic mode), reading its text
/// from the cache under `path`.
pub fn parse(path: &str, template: &str, type_: &str) -> (r: Result<Vec<u8>, ParseError>)
    ensures
        match r {
            Ok(body) => dynamic_body(path.spec_bytes(), template.spec_bytes(), type_.spec_bytes()) == Some(body@),
            Err(_) => dynamic_body(path.spec_bytes(), template.spec_bytes(), type_.spec_bytes()) is None,
        },
{
    let segs = match segments(template) {
        Ok(v) => v,
        Err(e) => return Err(e),
    };
    let ct = content_type(type_);
    let plan = compile(&segs, ct, true);
    Ok(emit(&plan, path.as_bytes()))
}

/// The text payload of a segment sequence: each text segment's bytes at its
/// index, `None` at the others.
pub open spec fn table_spec(segs: Seq<SegmentView>) -> Seq<Option<Seq<u8>>> {
    Seq::new(segs.len(), |i: int| match segs[i] {
        SegmentView::Text { text, .. } => Some(text),
        _ => None,
    })
}

/// A non-empty template without `<%` has one text entry, at index 0, holding
/// all of it.
pub proof fn law_plain_text_table(s: Seq<u8>)
    requires
        0 < s.len() <= usize::MAX,
        forall|k: int| 0 <= k < s.len() ==> !crate::parser::is_open_at(s, k),
    ensures
        segments_spec(s) matches Some(segs) && table_spec(segs) == seq![Some(s)],
{
    crate::segment::law_plain_text(s);
    let segs = segments_spec(s)->Some_0;
    assert(table_spec(segs) =~= seq![Some(s)]);
}

/// The text payload of `template`.
pub fn text_table(template: &str) -> (r: Result<Vec<Option<Vec<u8>>>, ParseError>)
    ensures
        match r {
            Ok(t) => segments_spec(template.spec_bytes()) matches Some(segs) && option_views(t@) == table_spec(segs),
            Err(_) => segments_spec(template.spec_bytes()) is None,
        },
{
    let segs = match segments(template) {
        Ok(v) => v,
        Err(e) => return Err(e),
    };
    let mut out: Vec<Option<Vec<u8>>> = Vec::new();
    let mut i: usize = 0;
    while i < segs.len()
        invariant
            i <= segs@.len(),
            out@.len() == i,
            forall|k: int| 0 <= k < i ==> option_views(out@)[k] == table_spec(views(segs@))[k],
        decreases segs@.len() - i,
    {
        let entry = match &segs[i] {
            Segment::Text { text, .. } => Some(copy_bytes(text)),
            _ => None,
        };
        assert(views(segs@)[i as int] == segs@[i as int]@);
        let ghost before = out@;
        out.push(entry);
        assert forall|k: int| 0 <= k <= i implies option_views(out@)[k] == table_spec(views(segs@))[k] by {
            if k < i {
                assert(out@[k] == before[k]);
                assert(option_views(before)[k] == table_spec(views(segs@))[k]);
            }
        }
        i = i + 1;
    }
    assert(option_views(out@) =~= table_spec(views(segs@)));
    Ok(out)
}

/// The cached texts of one template.
pub struct CacheEntry {
    pub path: Vec<u8>,
    pub texts: Vec<Option<Vec<u8>>>,
}

/// What the cache holds: for each template path, its text payload.
pub type CacheView = Seq<(Seq<u8>, Seq<Option<Seq<u8>>>)>;

/// Each path occurs at most once.
pub open spec fn keys_unique(c: CacheView) -> bool {
    forall|i: int, j: int| 0 <= i < c.len() && 0 <= j < c.len() && i != j ==> c[i].0 != c[j].0
}

/// The payload cached for `path`, if any.
pub open spec fn cache_get(c: CacheView, path: Seq<u8>) -> Option<Seq<Option<Seq<u8>>>> {
    if exists|i: int| 0 <= i < c.len() && c[i].0 == path {
        let i = choose|i: int| 0 <= i < c.len() && c[i].0 == path;
        Some(c[i].1)
    } else {
        None
    }
}

/// The text at segment index `idx` of a payload; `None` past its end and at
/// segments that are not text.
pub open spec fn answer(t: Seq<Option<Seq<u8>>>, idx: int) -> Option<Seq<u8>> {
    if 0 <= idx < t.len() {
        t[idx]
    } else {
        None
    }
}

/// The cache after a miss on `path` is handled with `source`, the template
/// as read (`None` when it could not be read): a path already present is kept
/// as it is; otherwise a source that parses adds its payload, and anything else
/// leaves the cache unchanged.
pub open spec fn populate_spec(c: CacheView, path: Seq<u8>, source: Option<Seq<u8>>) -> CacheView {
    if cache_get(c, path) is Some {
        c
    } else {
        match source {
            Some(s) => match segments_spec(s) {
                Some(segs) => c.push((path, table_spec(segs))),
                None => c,
            },
            None => c,
        }
    }
}

/// What a lookup of (`path`, `idx`) answers from cache `c`.
pub open spec fn answer_in(c: CacheView, path: Seq<u8>, idx: int) -> Option<Seq<u8>> {
    match cache_get(c, path) {
        Some(t) => answer(t, idx),
        None => None,
    }
}

pub open spec fn source_view(source: Option<&str>) -> Option<Seq<u8>> {
    match source {
        Some(s) => Some(s.spec_bytes()),
        None => None,
    }
}

pub open spec fn opt_bytes_view(r: Option<Vec<u8>>) -> Option<Seq<u8>> {
    match r {
        Some(t) => Some(t@),
        None => None,
    }
}

/// A lookup that found the path (with the text, or `None` for an index that
/// holds none) or did not.
pub enum Lookup {
    Hit(Option<Vec<u8>>),
    Miss,
}

/// The process-wide text cache of dynamic mode: template path to segment
/// index to text, filled one path at a time and never invalidated.
pub struct TextCache {
    entries: Vec<CacheEntry>,
}

fn bytes_eq(a: &[u8], b: &[u8]) -> (r: bool)
    ensures
        r == (a@ == b@),
{
    if a.len() != b.len() {
        return false;
    }
    let mut k: usize = 0;
    while k < a.len()
        invariant
            a@.len() == b@.len(),
            k <= a@.len(),
            forall|m: int| 0 <= m < k ==> a@[m] == b@[m],
        decreases a@.len() - k,
    {
        if a[k] != b[k] {
            return false;
        }
        k = k + 1;
    }
    assert(a@ =~= b@);
    true
}

fn copy_table(t: &Vec<Option<Vec<u8>>>) -> (r: Vec<Option<Vec<u8>>>)
    ensures
        option_views(r@) == option_views(t@),
{
    let mut out: Vec<Option<Vec<u8>>> = Vec::new();
    let mut i: usize = 0;
    while i < t.len()
        invariant
            i <= t@.len(),
            out@.len() == i,
            forall|k: int| 0 <= k < i ==> option_views(out@)[k] == option_views(t@)[k],
        decreases t@.len() - i,
    {
        let e = match &t[i] {
            Some(b) => Some(copy_bytes(b)),
            None => None,
        };
        let ghost before = out@;
        out.push(e);
        assert forall|k: int| 0 <= k <= i implies option_views(out@)[k] == option_views(t@)[k] by {
            if k < i {
                assert(out@[k] == before[k]);
                assert(option_views(before)[k] == option_views(t@)[k]);
            }
        }
        i = i + 1;
    }
    assert(option_views(out@) =~= option_views(t@));
    out
}

fn table_answer(t: &Vec<Option<Vec<u8>>>, idx: usize) -> (r: Option<Vec<u8>>)
    ensures
        opt_bytes_view(r) == answer(option_views(t@), idx as int),
{
    if idx < t.len() {
        match &t[idx] {
            Some(b) => Some(copy_bytes(b)),
            None => None,
        }
    } else {
        None
    }
}

impl View for TextCache {
    type V = CacheView;

    closed spec fn view(&self) -> CacheView {
        Seq::new(self.entries@.len(), |i: int| (self.entries@[i].path@, option_views(self.entries@[i].texts@)))
    }
}

impl TextCache {
    pub open spec fn wf(&self) -> bool {
        keys_unique(self@)
    }

    pub fn new() -> (r: TextCache)
        ensures
            r.wf(),
            r@ == Seq::<(Seq<u8>, Seq<Option<Seq<u8>>>)>::empty(),
    {
        let r = TextCache { entries: Vec::new() };
        assert(r@ =~= Seq::<(Seq<u8>, Seq<Option<Seq<u8>>>)>::empty());
        r
    }

    /// The position of `path` among the entries.
    fn find(&self, path: &[u8]) -> (r: Option<usize>)
        requires
            self.wf(),
        ensures
            match r {
                Some(i) => i < self@.len() && self@[i as int].0 == path@
                    && cache_get(self@, path@) == Some(self@[i as int].1),
                None => cache_get(self@, path@) is None,
            },
    {
        let mut k: usize = 0;
        while k < self.entries.len()
            invariant
                self.wf(),
                k <= self.entries@.len(),
                self@.len() == self.entries@.len(),
                forall|m: int| 0 <= m < k ==> self@[m].0 != path@,
            decreases self.entries@.len() - k,
        {
            if bytes_eq(self.entries[k].path.as_slice(), path) {
                assert(self@[k as int].0 == path@);
                let ghost j = choose|j: int| 0 <= j < self@.len() && self@[j].0 == path@;
                assert(j == k);
                return Some(k);
            }
            k = k + 1;
        }
        None
    }

    /// Looks up the text of segment `idx` of the template at `path`.
    pub fn lookup(&self, path: &[u8], idx: usize) -> (r: Lookup)
        requires
            self.wf(),
        ensures
            match cache_get(self@, path@) {
                Some(t) => r matches Lookup::Hit(v) && opt_bytes_view(v) == answer(t, idx as int),
                None => r is Miss,
            },
    {
        match self.find(path) {
            Some(i) => Lookup::Hit(table_answer(&self.entries[i].texts, idx)),
            None => Lookup::Miss,
        }
    }

    /// Handles a miss on `path`: checks again, then parses `source` (the
    /// template as read, `None` when it could not be read), stores its text
    /// payload, and answers the lookup of `idx`. A source that cannot be read
    /// or parsed yields `None` and stores nothing.
    pub fn populate(&mut self, path: &[u8], source: Option<&str>, idx: usize) -> (r: Option<Vec<u8>>)
        requires
            old(self).wf(),
        ensures
            final(self).wf(),
            final(self)@ == populate_spec(old(self)@, path@, source_view(source)),
            opt_bytes_view(r) == answer_in(final(self)@, path@, idx as int),
    {
        if let Some(i) = self.find(path) {
            return table_answer(&self.entries[i].texts, idx);
        }
        let s = match source {
            Some(s) => s,
            None => return None,
        };
        match text_table(s) {
            Ok(texts) => {
                let r = table_answer(&texts, idx);
                let ghost before = self@;
                let ghost tv = option_views(texts@);
                let p = crate::segment::copy_range(path, 0, path.len());
                assert(path@.subrange(0, path@.len() as int) =~= path@);
                self.entries.push(CacheEntry { path: p, texts });
                assert(self@ =~= before.push((path@, tv)));
                let ghost n = before.len() as int;
                assert(self@[n].0 == path@);
                assert forall|i: int, j: int| 0 <= i < self@.len() && 0 <= j < self@.len() && i != j
                    implies self@[i].0 != self@[j].0 by {
                    if i < n && j < n {
                        assert(before[i] == self@[i] && before[j] == self@[j]);
                    } else if i < n {
                        assert(before[i] == self@[i]);
                    } else if j < n {
                        assert(before[j] == self@[j]);
                    }
                }
                let ghost j = choose|j: int| 0 <= j < self@.len() && self@[j].0 == path@;
                assert(j == n);
                r
            },
            Err(_) => None,
        }
    }
}

/// The code fragments of a segment sequence, each expression followed by `;`.
pub open spec fn skeleton_parts(segs: Seq<SegmentView>) -> Seq<u8>
    decreases segs.len(),
{
    if segs.len() == 0 {
        Seq::empty()
    } else {
        skeleton_parts(segs.drop_last()) + skeleton_piece(segs.last())
    }
}

/// What a segment adds to the skeleton: a code fragment as it is, an
/// expression followed by `;`, text nothing.
pub open spec fn skeleton_piece(x: SegmentView) -> Seq<u8> {
    match x {
        SegmentView::Code(c) => c,
        SegmentView::Expr(e) => e.push(59u8),
        SegmentView::Text { .. } => Seq::empty(),
    }
}


/// The skeleton of a template before normalisation: its code fragments in a
/// block, `{` .. `}`.
pub open spec fn skeleton_spec(s: Seq<u8>) -> Option<Seq<u8>> {
    match segments_spec(s) {
        Some(segs) => Some(seq![123u8] + skeleton_parts(segs) + seq![125u8]),
        None => None,
    }
}

/// The skeleton source of `template`.
pub fn skeleton_source(template: &str) -> (r: Result<Vec<u8>, ParseError>)
    ensures
        match r {
            Ok(b) => skeleton_spec(template.spec_bytes()) == Some(b@),
            Err(_) => skeleton_spec(template.spec_bytes()) is None,
        },
{
    let segs = match segments(template) {
        Ok(v) => v,
        Err(e) => return Err(e),
    };
    let mut out: Vec<u8> = Vec::new();
    out.push(123u8);
    let mut i: usize = 0;
    while i < segs.len()
        invariant
            i <= segs@.len(),
            out@ == seq![123u8] + skeleton_parts(views(segs@).subrange(0, i as int)),
        decreases segs@.len() - i,
    {
        match &segs[i] {
            Segment::Code(c) => push_bytes(&mut out, c.as_slice()),
            Segment::Expr(e) => {
                push_bytes(&mut out, e.as_slice());
                out.push(59u8);
            },
            Segment::Text { .. } => {},
        }
        let ghost v = views(segs@);
        assert(v.subrange(0, i + 1).drop_last() =~= v.subrange(0, i as int));
        assert(v[i as int] == segs@[i as int]@);
        proof {
            let sub = v.subrange(0, i + 1);
            assert(sub.last() == v[i as int]);
        }
        assert(out@ =~= seq![123u8] + skeleton_parts(v.subrange(0, i + 1)));
        i = i + 1;
    }
    out.push(125u8);
    assert(views(segs@).subrange(0, segs@.len() as int) =~= views(segs@));
    assert(out@ =~= seq![123u8] + skeleton_parts(views(segs@)) + seq![125u8]);
    Ok(out)
}

/// The normalised skeleton of `template`: the text of [`skeleton_source`]
/// read as a block by the host-language parser and printed back as
/// statements. Fails with `Parse` exactly when the template does not parse,
/// and otherwise with `Generation` when its fragments do not make a block.
pub fn get_template_code(template: &str) -> (r: Result<String, Error>)
    ensures
        skeleton_spec(template.spec_bytes()) is None <==> r matches Err(Error::Parse(_)),
        r is Ok || r matches Err(Error::Parse(_)) || r matches Err(Error::Generation(_)),
        r matches Err(Error::Generation(src)) ==> skeleton_spec(template.spec_bytes()) == Some(src@),
{
    let src = match skeleton_source(template) {
        Ok(b) => b,
        Err(e) => return Err(Error::Parse(e)),
    };
    let text = match utf8_str(src.as_slice()) {
        Some(t) => t,
        None => return Err(Error::Generation(src)),
    };
    match statements_of_block(text) {
        Some(t) => Ok(t),
        None => Err(Error::Generation(src)),
    }
}

/// Whether a skeleton file must be written: only when what it holds
/// (`None` when it could not be read) differs from the fresh skeleton.
pub fn needs_write(existing: Option<&str>, fresh: &str) -> (r: bool)
    ensures
        r == !(existing matches Some(e) && e@ == fresh@),
{
    match existing {
        Some(e) => {
            let same = bytes_eq(e.as_bytes(), fresh.as_bytes());
            proof {
                vstd::utf8::encode_utf8_decode_utf8(e@);
                vstd::utf8::encode_utf8_decode_utf8(fresh@);
            }
            !same
        },
        None => true,
    }
}

/// The lines that ask the build to re-run when one of `cache_files`, the
/// skeleton files, changes.
pub fn rerun_if_templates_changed(cache_files: &Vec<String>) -> (r: Vec<String>)
    ensures
        r@.len() == cache_files@.len(),
        forall|i: int| 0 <= i < r@.len() ==> #[trigger] r@[i]@ == "cargo:rerun-if-changed="@ + cache_files@[i]@,
{
    let mut out: Vec<String> = Vec::new();
    let mut i: usize = 0;
    while i < cache_files.len()
        invariant
            i <= cache_files@.len(),
            out@.len() == i,
            forall|k: int| 0 <= k < i ==> #[trigger] out@[k]@ == "cargo:rerun-if-changed="@ + cache_files@[k]@,
        decreases cache_files@.len() - i,
    {
        let mut line = String::from_str("cargo:rerun-if-changed=");
        line.append(cache_files[i].as_str());
        out.push(line);
        i = i + 1;
    }
    out
}

/// Two segment sequences that differ in their text only.
pub open spec fn same_code(a: Seq<SegmentView>, b: Seq<SegmentView>) -> bool {
    a.len() == b.len() && forall|i: int| 0 <= i < a.len() ==> #[trigger] same_code_at(a[i], b[i])
}

pub open spec fn same_code_at(x: SegmentView, y: SegmentView) -> bool {
    (x is Text && y is Text) || x == y
}

proof fn lemma_parts_same(a: Seq<SegmentView>, b: Seq<SegmentView>)
    requires
        same_code(a, b),
    ensures
        skeleton_parts(a) == skeleton_parts(b),
    decreases a.len(),
{
    if a.len() > 0 {
        assert(same_code_at(a[a.len() - 1], b[b.len() - 1]));
        assert(same_code(a.drop_last(), b.drop_last())) by {
            assert forall|i: int| 0 <= i < a.len() - 1 implies #[trigger] same_code_at(a.drop_last()[i], b.drop_last()[i]) by {
                assert(same_code_at(a[i], b[i]));
            }
        }
        lemma_parts_same(a.drop_last(), b.drop_last());
    }
}

proof fn lemma_parts_concat(x: Seq<SegmentView>, y: Seq<SegmentView>)
    ensures
        skeleton_parts(x + y) == skeleton_parts(x) + skeleton_parts(y),
    decreases y.len(),
{
    if y.len() == 0 {
        assert(x + y =~= x);
        assert(skeleton_parts(x) + Seq::<u8>::empty() =~= skeleton_parts(x));
    } else {
        assert((x + y).drop_last() =~= x + y.drop_last());
        lemma_parts_concat(x, y.drop_last());
        assert((x + y).last() == y.last());
        assert(skeleton_parts(x) + skeleton_parts(y.drop_last()) + skeleton_piece(y.last())
            =~= skeleton_parts(x) + (skeleton_parts(y.drop_last()) + skeleton_piece(y.last())));
    }
}

proof fn lemma_parts_split(a: Seq<SegmentView>, k: int)
    requires
        0 <= k < a.len(),
    ensures
        skeleton_parts(a) == skeleton_parts(a.subrange(0, k)) + skeleton_piece(a[k])
            + skeleton_parts(a.subrange(k + 1, a.len() as int)),
{
    let p = a.subrange(0, k);
    let q = a.subrange(k + 1, a.len() as int);
    assert(a =~= (p + seq![a[k]]) + q);
    lemma_parts_concat(p + seq![a[k]], q);
    lemma_parts_concat(p, seq![a[k]]);
    assert(seq![a[k]].drop_last() =~= Seq::<SegmentView>::empty());
    assert(skeleton_parts(Seq::<SegmentView>::empty()) == Seq::<u8>::empty());
    assert(skeleton_parts(seq![a[k]]) =~= skeleton_piece(a[k]));
}

/// The code and expression fragments of a segment sequence, in order.
pub open spec fn fragments(segs: Seq<SegmentView>) -> Seq<SegmentView> {
    segs.filter(|x: SegmentView| !(x is Text))
}

proof fn lemma_parts_fragments(segs: Seq<SegmentView>)
    ensures
        skeleton_parts(segs) == skeleton_parts(fragments(segs)),
    decreases segs.len(),
{
    reveal_with_fuel(Seq::filter, 1);
    if segs.len() > 0 {
        lemma_parts_fragments(segs.drop_last());
        let sub = fragments(segs.drop_last());
        assert(fragments(segs) == if !(segs.last() is Text) { sub.push(segs.last()) } else { sub });
        if !(segs.last() is Text) {
            assert(sub.push(segs.last()).drop_last() =~= sub);
        } else {
            assert(skeleton_parts(segs.drop_last()) + Seq::<u8>::empty() =~= skeleton_parts(segs.drop_last()));
        }
    }
}

/// The skeleton ignores literal text: two templates with the same code and
/// expression fragments, in the same order, have the same skeleton, however
/// their text segments differ, are added or are removed.
pub proof fn law_skeleton_ignores_text(s1: Seq<u8>, s2: Seq<u8>)
    requires
        segments_spec(s1) matches Some(a) && segments_spec(s2) matches Some(b)
            && fragments(a) == fragments(b),
    ensures
        skeleton_spec(s1) == skeleton_spec(s2),
{
    lemma_parts_fragments(segments_spec(s1)->Some_0);
    lemma_parts_fragments(segments_spec(s2)->Some_0);
}

/// The skeleton follows the code: two templates whose segments agree but for
/// one code fragment, which differs, have different skeletons.
pub proof fn law_skeleton_tracks_code(s1: Seq<u8>, s2: Seq<u8>, k: int)
    requires
        segments_spec(s1) matches Some(a) && segments_spec(s2) matches Some(b)
            && a.len() == b.len() && 0 <= k < a.len()
            && (forall|i: int| 0 <= i < a.len() && i != k ==> #[trigger] same_code_at(a[i], b[i]))
            && a[k] is Code && b[k] is Code && a[k] != b[k],
    ensures
        skeleton_spec(s1) != skeleton_spec(s2),
{
    let a = segments_spec(s1)->Some_0;
    let b = segments_spec(s2)->Some_0;
    lemma_parts_split(a, k);
    lemma_parts_split(b, k);
    let pa = a.subrange(0, k);
    let pb = b.subrange(0, k);
    assert(same_code(pa, pb)) by {
        assert forall|i: int| 0 <= i < pa.len() implies #[trigger] same_code_at(pa[i], pb[i]) by {
            assert(same_code_at(a[i], b[i]));
        }
    }
    let qa = a.subrange(k + 1, a.len() as int);
    let qb = b.subrange(k + 1, b.len() as int);
    assert(same_code(qa, qb)) by {
        assert forall|i: int| 0 <= i < qa.len() implies #[trigger] same_code_at(qa[i], qb[i]) by {
            assert(same_code_at(a[i + k + 1], b[i + k + 1]));
        }
    }
    lemma_parts_same(pa, pb);
    lemma_parts_same(qa, qb);
    let p = skeleton_parts(pa);
    let q = skeleton_parts(qa);
    let c1 = skeleton_piece(a[k]);
    let c2 = skeleton_piece(b[k]);
    let x = seq![123u8] + (p + c1 + q) + seq![125u8];
    let y = seq![123u8] + (p + c2 + q) + seq![125u8];
    assert(c1 != c2) by {
        if c1 == c2 {
            assert(a[k] == SegmentView::Code(c1));
            assert(b[k] == SegmentView::Code(c2));
        }
    }
    if x == y {
        if c1.len() == c2.len() {
            assert(exists|m: int| 0 <= m < c1.len() && c1[m] != c2[m]) by {
                if !(exists|m: int| 0 <= m < c1.len() && c1[m] != c2[m]) {
                    assert(c1 =~= c2);
                }
            }
            let m = choose|m: int| 0 <= m < c1.len() && c1[m] != c2[m];
            assert(x[1 + p.len() + m] == c1[m]);
            assert(y[1 + p.len() + m] == c2[m]);
        } else {
            assert(x.len() != y.len());
        }
    }
}

/// A cache that has handled a miss on `path` with a template that parses
/// answers every later lookup of that path from memory (no further read is
/// needed), and the same value each time: what the populating call answered.
pub proof fn law_cache_stable(c: CacheView, path: Seq<u8>, s: Seq<u8>, idx: int)
    requires
        keys_unique(c),
        segments_spec(s) is Some,
    ensures
        cache_get(populate_spec(c, path, Some(s)), path) is Some,
        populate_spec(populate_spec(c, path, Some(s)), path, None) == populate_spec(c, path, Some(s)),
        answer_in(populate_spec(c, path, Some(s)), path, idx)
            == answer_in(populate_spec(populate_spec(c, path, Some(s)), path, None), path, idx),
{
    let c2 = populate_spec(c, path, Some(s));
    if cache_get(c, path) is None {
        let n = c.len() as int;
        assert(c2[n].0 == path);
    }
}

} // verus!
