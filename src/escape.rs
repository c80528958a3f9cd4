//! The HTML-escaping writer, and the `Html` / `Raw` markers.
use vstd::prelude::*;
use vstd::string::{StringExecFns, StringSliceAdditionalSpecFns};
use vstd::utf8::{valid_utf8, decode_utf8, is_char_boundary, pop_first_scalar, decode_first_scalar,
    length_of_first_scalar, is_leading_byte_width_1};

verus! {

/// The text that bstr's lossy decoding gives for `b`: its scalar values, with
/// U+FFFD in place of each invalid sequence.
pub uninterp spec fn lossy_chars(b: Seq<u8>) -> Seq<char>;

/// Relies on bstr's `ByteSlice::to_str`: `Ok` exactly when `b` is valid UTF-8,
/// and then the same bytes as text.
#[verifier::external_body]
pub(crate) fn utf8_str(b: &[u8]) -> (r: Option<&str>)
    ensures
        r is Some <==> valid_utf8(b@),
        r matches Some(t) ==> t.spec_bytes() == b@,
{
    bstr::ByteSlice::to_str(b).ok()
}

/// Relies on bstr's `ByteSlice::chars`: the scalar values of `b`, decoded
/// lossily.
#[verifier::external_body]
fn lossy_string(b: &[u8]) -> (r: String)
    ensures
        r@ == lossy_chars(b@),
{
    bstr::ByteSlice::chars(b).collect()
}

/// The text a byte run is written as: its decoding when it is valid UTF-8,
/// else its lossy decoding.
pub open spec fn decoded(b: Seq<u8>) -> Seq<char> {
    if valid_utf8(b) {
        decode_utf8(b)
    } else {
        lossy_chars(b)
    }
}

/// `< > & " ' /`, the bytes that the writer replaces.
pub open spec fn is_reserved(b: u8) -> bool {
    b == 60u8 || b == 62u8 || b == 38u8 || b == 34u8 || b == 39u8 || b == 47u8
}

/// The entity that stands for reserved byte `b`.
pub open spec fn entity(b: u8) -> Seq<char> {
    if b == 60u8 {
        seq!['&', 'l', 't', ';']
    } else if b == 62u8 {
        seq!['&', 'g', 't', ';']
    } else if b == 38u8 {
        seq!['&', 'a', 'm', 'p', ';']
    } else if b == 34u8 {
        seq!['&', 'q', 'u', 'o', 't', ';']
    } else if b == 39u8 {
        seq!['&', '#', 'x', '2', '7', ';']
    } else {
        seq!['&', '#', 'x', '2', 'f', ';']
    }
}

/// The first reserved byte at or after `i`, or `b.len()`.
pub open spec fn next_reserved(b: Seq<u8>, i: int) -> int
    decreases b.len() - i,
{
    if i < 0 || i >= b.len() {
        b.len() as int
    } else if is_reserved(b[i]) {
        i
    } else {
        next_reserved(b, i + 1)
    }
}

/// The escaped text of `b[from..]`: each run between reserved bytes decoded,
/// each reserved byte replaced by its entity.
pub open spec fn escape_from(b: Seq<u8>, from: int) -> Seq<char>
    decreases b.len() - from,
{
    if from < 0 || from > b.len() {
        Seq::empty()
    } else {
        let i = next_reserved(b, from);
        if i < from || i >= b.len() {
            decoded(b.subrange(from, b.len() as int))
        } else {
            decoded(b.subrange(from, i)) + entity(b[i]) + escape_from(b, i + 1)
        }
    }
}

/// What the writer writes for `b`.
pub open spec fn escape_html(b: Seq<u8>) -> Seq<char> {
    escape_from(b, 0)
}

fn entity_str(b: u8) -> (r: &'static str)
    requires
        is_reserved(b),
    ensures
        r@ == entity(b),
{
    proof {
        reveal_strlit("&lt;");
        reveal_strlit("&gt;");
        reveal_strlit("&amp;");
        reveal_strlit("&quot;");
        reveal_strlit("&#x27;");
        reveal_strlit("&#x2f;");
    }
    let r = if b == 60u8 {
        "&lt;"
    } else if b == 62u8 {
        "&gt;"
    } else if b == 38u8 {
        "&amp;"
    } else if b == 34u8 {
        "&quot;"
    } else if b == 39u8 {
        "&#x27;"
    } else {
        "&#x2f;"
    };
    assert(r@ =~= entity(b));
    r
}

/// A sink that escapes what it is given and appends it to `out`.
pub struct HtmlWriter {
    pub out: String,
}

impl HtmlWriter {
    pub fn new() -> (r: HtmlWriter)
        ensures
            r.out@ == Seq::<char>::empty(),
    {
        HtmlWriter { out: String::new() }
    }

    /// Writes a run of bytes unescaped: as text when it is valid UTF-8, else
    /// decoded character by character.
    pub fn write_slice(&mut self, bytes: &[u8])
        ensures
            final(self).out@ == old(self).out@ + decoded(bytes@),
    {
        match utf8_str(bytes) {
            Some(t) => {
                proof {
                    vstd::utf8::encode_utf8_decode_utf8(t@);
                }
                self.out.append(t);
            },
            None => {
                let t = lossy_string(bytes);
                self.out.append(t.as_str());
            },
        }
    }

    /// Writes `bytes` with each of `< > & " ' /` replaced by its entity;
    /// returns how many bytes were taken, all of them.
    pub fn write(&mut self, bytes: &[u8]) -> (r: usize)
        ensures
            r == bytes@.len(),
            final(self).out@ == old(self).out@ + escape_html(bytes@),
    {
        let n = bytes.len();
        let mut from: usize = 0;
        let mut idx: usize = 0;
        while idx < n
            invariant
                n == bytes@.len(),
                from <= idx <= n,
                next_reserved(bytes@, from as int) == next_reserved(bytes@, idx as int),
                old(self).out@ + escape_html(bytes@) == self.out@ + escape_from(bytes@, from as int),
            decreases n - idx,
        {
            let byte = bytes[idx];
            if byte == 60u8 || byte == 62u8 || byte == 38u8 || byte == 34u8 || byte == 39u8 || byte == 47u8 {
                let ghost before = self.out@;
                let run = slice_range(bytes, from, idx);
                self.write_slice(run);
                self.out.append(entity_str(byte));
                proof {
                    assert(before + escape_from(bytes@, from as int) =~= self.out@ + escape_from(bytes@, idx + 1));
                }
                from = idx + 1;
            }
            idx = idx + 1;
        }
        let ghost before = self.out@;
        let tail = slice_range(bytes, from, n);
        self.write_slice(tail);
        proof {
            assert(before + escape_from(bytes@, from as int) =~= self.out@);
        }
        n
    }

    /// Nothing is buffered: a no-op.
    pub fn flush(&mut self)
        ensures
            *final(self) == *old(self),
    {
    }
}

proof fn lemma_no_reserved(b: Seq<u8>, i: int)
    requires
        0 <= i <= b.len(),
        forall|k: int| 0 <= k < b.len() ==> !is_reserved(#[trigger] b[k]),
    ensures
        next_reserved(b, i) == b.len(),
    decreases b.len() - i,
{
    if i < b.len() {
        lemma_no_reserved(b, i + 1);
    }
}

/// Text without reserved bytes passes through unchanged: valid UTF-8 comes
/// out as the text it encodes.
pub proof fn law_escape_plain(b: Seq<u8>)
    requires
        forall|k: int| 0 <= k < b.len() ==> !is_reserved(#[trigger] b[k]),
    ensures
        escape_html(b) == decoded(b),
        valid_utf8(b) ==> escape_html(b) == decode_utf8(b),
{
    lemma_no_reserved(b, 0);
    assert(b.subrange(0, b.len() as int) =~= b);
}

/// Each reserved byte, followed by any bytes, comes out as its entity
/// followed by their escaped text.
pub proof fn law_escape_entity(c: u8, rest: Seq<u8>)
    requires
        is_reserved(c),
    ensures
        escape_html(seq![c] + rest) == entity(c) + escape_html(rest),
{
    let b = seq![c] + rest;
    assert(next_reserved(b, 0) == 0);
    assert(b.subrange(0, 0) =~= Seq::<u8>::empty());
    lemma_empty_decodes();
    lemma_escape_shift(c, rest, 0);
    assert(Seq::<char>::empty() + entity(c) =~= entity(c));
}

proof fn lemma_empty_decodes()
    ensures
        decoded(Seq::<u8>::empty()) == Seq::<char>::empty(),
{
    assert(valid_utf8(Seq::<u8>::empty()));
}

/// Escaping `[c] + rest` from byte `i + 1` is escaping `rest` from `i`.
proof fn lemma_escape_shift(c: u8, rest: Seq<u8>, i: int)
    requires
        0 <= i <= rest.len(),
    ensures
        escape_from(seq![c] + rest, i + 1) == escape_from(rest, i),
    decreases rest.len() - i,
{
    let b = seq![c] + rest;
    lemma_next_reserved_shift(c, rest, i);
    let j = next_reserved(rest, i);
    lemma_next_reserved_bound(rest, i);
    if j < rest.len() {
        lemma_escape_shift(c, rest, j + 1);
        assert(b.subrange(i + 1, j + 1) =~= rest.subrange(i, j));
    } else {
        assert(b.subrange(i + 1, b.len() as int) =~= rest.subrange(i, rest.len() as int));
    }
}

proof fn lemma_next_reserved_shift(c: u8, rest: Seq<u8>, i: int)
    requires
        0 <= i <= rest.len(),
    ensures
        next_reserved(seq![c] + rest, i + 1) == next_reserved(rest, i) + 1,
    decreases rest.len() - i,
{
    if i < rest.len() {
        assert((seq![c] + rest)[i + 1] == rest[i]);
        lemma_next_reserved_shift(c, rest, i + 1);
    }
}

proof fn lemma_next_reserved_bound(b: Seq<u8>, i: int)
    requires
        0 <= i <= b.len(),
    ensures
        i <= next_reserved(b, i) <= b.len(),
    decreases b.len() - i,
{
    if i < b.len() {
        lemma_next_reserved_bound(b, i + 1);
    }
}

/// `< > & " ' /` as characters.
pub open spec fn is_reserved_char(c: char) -> bool {
    c == '<' || c == '>' || c == '&' || c == '"' || c == '\'' || c == '/'
}

/// A character as the writer writes it: its entity when reserved, else itself.
pub open spec fn escape_char(c: char) -> Seq<char> {
    if is_reserved_char(c) {
        entity(c as u8)
    } else {
        seq![c]
    }
}

/// Text with each reserved character replaced by its entity.
pub open spec fn escape_chars(cs: Seq<char>) -> Seq<char>
    decreases cs.len(),
{
    if cs.len() == 0 {
        Seq::empty()
    } else {
        escape_char(cs[0]) + escape_chars(cs.drop_first())
    }
}

proof fn lemma_escape_chars_concat(x: Seq<char>, y: Seq<char>)
    ensures
        escape_chars(x + y) == escape_chars(x) + escape_chars(y),
    decreases x.len(),
{
    if x.len() == 0 {
        assert(x + y =~= y);
    } else {
        assert((x + y).drop_first() =~= x.drop_first() + y);
        lemma_escape_chars_concat(x.drop_first(), y);
        assert((x + y)[0] == x[0]);
        assert(escape_char(x[0]) + (escape_chars(x.drop_first()) + escape_chars(y))
            =~= escape_char(x[0]) + escape_chars(x.drop_first()) + escape_chars(y));
    }
}

proof fn lemma_escape_chars_plain(cs: Seq<char>)
    requires
        forall|k: int| 0 <= k < cs.len() ==> !is_reserved_char(#[trigger] cs[k]),
    ensures
        escape_chars(cs) == cs,
    decreases cs.len(),
{
    if cs.len() > 0 {
        assert(!is_reserved_char(cs[0]));
        assert forall|k: int| 0 <= k < cs.drop_first().len() implies !is_reserved_char(#[trigger] cs.drop_first()[k]) by {
            assert(cs.drop_first()[k] == cs[k + 1]);
        }
        lemma_escape_chars_plain(cs.drop_first());
        assert(seq![cs[0]] + cs.drop_first() =~= cs);
    }
}

proof fn lemma_decode_no_reserved(b: Seq<u8>)
    requires
        valid_utf8(b),
        forall|k: int| 0 <= k < b.len() ==> !is_reserved(#[trigger] b[k]),
    ensures
        forall|k: int| 0 <= k < decode_utf8(b).len() ==> !is_reserved_char(#[trigger] decode_utf8(b)[k]),
    decreases b.len(),
{
    if b.len() > 0 {
        let rest = pop_first_scalar(b);
        assert forall|k: int| 0 <= k < rest.len() implies !is_reserved(#[trigger] rest[k]) by {
            assert(rest[k] == b[k + length_of_first_scalar(b)]);
        }
        lemma_decode_no_reserved(rest);
        let cp = decode_first_scalar(b);
        let b0 = b[0];
        assert(!is_reserved(b0));
        assert(vstd::utf8::valid_first_scalar(b));
        if is_leading_byte_width_1(b0) {
            assert(b0 & 0x7f == b0) by (bit_vector) requires b0 < 0x80;
            assert(cp == b0 as u32);
        } else if vstd::utf8::is_leading_byte_width_2(b0) {
            let b1 = b[1];
            assert(((((b0 & 0x1f) as u32) << 6) | ((b1 & 0x3f) as u32)) <= 0x7ff) by (bit_vector);
            assert(0x80 <= cp <= 0x10ffff);
        } else if vstd::utf8::is_leading_byte_width_3(b0) {
            let b1 = b[1];
            let b2 = b[2];
            assert(((((b0 & 0x0f) as u32) << 12) | (((b1 & 0x3f) as u32) << 6) | ((b2 & 0x3f) as u32)) <= 0xffff)
                by (bit_vector);
            assert(0x800 <= cp <= 0x10ffff);
        } else {
            assert(0x10000 <= cp <= 0x10ffff);
        }
        assert(!is_reserved_char(cp as char));
        let d = decode_utf8(b);
        assert(d == seq![cp as char] + decode_utf8(rest));
        assert forall|k: int| 0 <= k < d.len() implies !is_reserved_char(#[trigger] d[k]) by {
            if k > 0 {
                assert(d[k] == decode_utf8(rest)[k - 1]);
            } else {
                assert(d[0] == cp as char);
            }
        }
    }
}

proof fn lemma_next_reserved_suffix(b: Seq<u8>, k: int, i: int)
    requires
        0 <= k <= i <= b.len(),
    ensures
        next_reserved(b, i) == next_reserved(b.subrange(k, b.len() as int), i - k) + k,
    decreases b.len() - i,
{
    if i < b.len() {
        assert(b.subrange(k, b.len() as int)[i - k] == b[i]);
        lemma_next_reserved_suffix(b, k, i + 1);
    }
}

proof fn lemma_escape_from_suffix(b: Seq<u8>, k: int, i: int)
    requires
        0 <= k <= i <= b.len(),
    ensures
        escape_from(b, i) == escape_from(b.subrange(k, b.len() as int), i - k),
    decreases b.len() - i,
{
    let t = b.subrange(k, b.len() as int);
    lemma_next_reserved_suffix(b, k, i);
    lemma_next_reserved_bound(b, i);
    let j = next_reserved(b, i);
    if j < b.len() {
        lemma_escape_from_suffix(b, k, j + 1);
        assert(b.subrange(i, j) =~= t.subrange(i - k, j - k));
        assert(t[j - k] == b[j]);
    } else {
        assert(b.subrange(i, b.len() as int) =~= t.subrange(i - k, t.len() as int));
    }
}

/// No reserved character survives escaping: on valid UTF-8 the writer
/// writes the encoded text with each of `< > & " ' /` replaced by its entity
/// and every other character unchanged.
pub proof fn law_escape_text(b: Seq<u8>)
    requires
        valid_utf8(b),
    ensures
        escape_html(b) == escape_chars(decode_utf8(b)),
    decreases b.len(),
{
    lemma_next_reserved_bound(b, 0);
    let j = next_reserved(b, 0);
    let pre = b.subrange(0, j);
    if j >= b.len() {
        assert(pre =~= b);
        assert forall|k: int| 0 <= k < b.len() implies !is_reserved(#[trigger] b[k]) by {
            lemma_next_reserved_before(b, 0, k);
        }
        lemma_decode_no_reserved(b);
        lemma_escape_chars_plain(decode_utf8(b));
    } else {
        let post = b.subrange(j, b.len() as int);
        let c = b[j];
        lemma_next_reserved_hit(b, 0);
        assert(is_reserved(c));
        assert(!vstd::utf8::is_continuation_byte(c));
        vstd::utf8::is_char_boundary_iff_not_is_continuation_byte(b, j);
        assert(is_char_boundary(b, j));
        vstd::utf8::valid_utf8_split(b, j);
        vstd::utf8::decode_utf8_split(b, j);
        let rest = b.subrange(j + 1, b.len() as int);
        assert(post[0] == c);
        assert(pop_first_scalar(post) =~= rest);
        assert(valid_utf8(rest));
        assert(c & 0x7f == c) by (bit_vector) requires c < 0x80;
        assert(decode_utf8(post) == seq![c as char] + decode_utf8(rest));
        assert forall|k: int| 0 <= k < pre.len() implies !is_reserved(#[trigger] pre[k]) by {
            lemma_next_reserved_before(b, 0, k);
        }
        lemma_decode_no_reserved(pre);
        lemma_escape_chars_plain(decode_utf8(pre));
        lemma_escape_chars_concat(decode_utf8(pre), decode_utf8(post));
        lemma_escape_chars_concat(seq![c as char], decode_utf8(rest));
        assert(seq![c as char].drop_first() =~= Seq::<char>::empty());
        assert(escape_chars(Seq::<char>::empty()) == Seq::<char>::empty());
        assert(is_reserved_char(c as char));
        assert((c as char) as u8 == c);
        assert(escape_chars(seq![c as char]) == escape_char(c as char) + Seq::<char>::empty());
        assert(escape_chars(seq![c as char]) =~= entity(c));
        law_escape_text(rest);
        lemma_escape_from_suffix(b, j + 1, j + 1);
        assert(rest.subrange(0, rest.len() as int) =~= rest);
        lemma_escape_from_zero(rest);
        assert(escape_html(b) == decoded(pre) + entity(c) + escape_from(b, j + 1));
        assert(decoded(pre) + entity(c) + escape_chars(decode_utf8(rest))
            =~= escape_chars(decode_utf8(pre)) + (escape_chars(seq![c as char]) + escape_chars(decode_utf8(rest))));
    }
}

proof fn lemma_next_reserved_hit(b: Seq<u8>, i: int)
    requires
        0 <= i <= b.len(),
        next_reserved(b, i) < b.len(),
    ensures
        is_reserved(b[next_reserved(b, i)]),
    decreases b.len() - i,
{
    if i < b.len() && !is_reserved(b[i]) {
        lemma_next_reserved_hit(b, i + 1);
    }
}

/// The reserved characters other than `&`, which entities themselves use.
pub open spec fn is_markup_char(c: char) -> bool {
    c == '<' || c == '>' || c == '"' || c == '\'' || c == '/'
}

proof fn lemma_escape_chars_safe(cs: Seq<char>)
    ensures
        forall|k: int| 0 <= k < escape_chars(cs).len() ==> !is_markup_char(#[trigger] escape_chars(cs)[k]),
    decreases cs.len(),
{
    if cs.len() > 0 {
        lemma_escape_chars_safe(cs.drop_first());
        let head = escape_char(cs[0]);
        let tail = escape_chars(cs.drop_first());
        assert forall|k: int| 0 <= k < head.len() implies !is_markup_char(#[trigger] head[k]) by {
            if is_reserved_char(cs[0]) {
                let b = cs[0] as u8;
                assert(head == entity(b));
            }
        }
        assert forall|k: int| 0 <= k < escape_chars(cs).len() implies !is_markup_char(#[trigger] escape_chars(cs)[k]) by {
            assert(escape_chars(cs) == head + tail);
            if k < head.len() {
                assert(escape_chars(cs)[k] == head[k]);
            } else {
                assert(escape_chars(cs)[k] == tail[k - head.len()]);
            }
        }
    }
}

/// Escaped valid UTF-8 holds none of `< > " ' /`: each such character of the
/// input, and each `&`, has become an entity.
pub proof fn law_escape_safe(b: Seq<u8>)
    requires
        valid_utf8(b),
    ensures
        forall|k: int| 0 <= k < escape_html(b).len() ==> !is_markup_char(#[trigger] escape_html(b)[k]),
{
    law_escape_text(b);
    lemma_escape_chars_safe(decode_utf8(b));
}

proof fn lemma_escape_from_zero(b: Seq<u8>)
    ensures
        escape_from(b.subrange(0, b.len() as int), 0) == escape_html(b),
{
    assert(b.subrange(0, b.len() as int) =~= b);
}

proof fn lemma_next_reserved_before(b: Seq<u8>, i: int, k: int)
    requires
        0 <= i <= k < next_reserved(b, i),
        next_reserved(b, i) <= b.len(),
    ensures
        !is_reserved(b[k]),
    decreases k - i,
{
    if i < k {
        assert(!is_reserved(b[i]));
        lemma_next_reserved_before(b, i + 1, k);
    } else {
        assert(i < b.len());
    }
}

/// Marks a value whose text is to be escaped.
pub struct Html<T>(pub T);

/// Marks a value whose text is written as it is, even where escaping applies.
pub struct Raw<T>(pub T);

impl<'a> Html<&'a str> {
    /// The value's text, escaped.
    pub fn render_text(&self) -> (r: String)
        ensures
            r@ == escape_html(self.0.spec_bytes()),
    {
        let mut w = HtmlWriter::new();
        w.write(self.0.as_bytes());
        w.out
    }
}

impl<'a> Html<Raw<&'a str>> {
    /// The value's text, unchanged.
    pub fn render_text(&self) -> (r: String)
        ensures
            r@ == self.0.0@,
    {
        self.0.0.to_owned()
    }
}

impl<T: core::fmt::Display> Html<T> {
    /// The value's textual form, escaped: what a render body writes for an
    /// expression under `"html"`.
    pub fn display_text(&self) -> (r: String)
        ensures
            exists|t: String| vstd::string::to_string_from_display_ensures::<T>(&self.0, t)
                && r@ == escape_html(vstd::utf8::encode_utf8(t@)),
    {
        let t = self.0.to_string();
        let mut w = HtmlWriter::new();
        w.write(t.as_str().as_bytes());
        w.out
    }
}

impl<T: core::fmt::Display> Html<Raw<T>> {
    /// The wrapped value's textual form, unchanged: `Raw` bypasses escaping.
    pub fn display_text(&self) -> (r: String)
        ensures
            vstd::string::to_string_from_display_ensures::<T>(&self.0.0, r),
    {
        self.0.0.to_string()
    }
}

/// `b[lo..hi]` as a slice.
fn slice_range(b: &[u8], lo: usize, hi: usize) -> (r: &[u8])
    requires
        lo <= hi <= b@.len(),
    ensures
        r@ == b@.subrange(lo as int, hi as int),
{
    vstd::slice::slice_subrange(b, lo, hi)
}

} // verus!
