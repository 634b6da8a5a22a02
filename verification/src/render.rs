use vstd::prelude::*;

use crate::parser::block::{blocks_view, lemma_blocks_view, Block};
use crate::parser::grammar::{BlockModel, HeaderModel, SpanModel, TargetModel};
use crate::parser::headers::Header;
use crate::parser::images::Image;
use crate::parser::paragraphs::Paragraph;
use crate::parser::util::{lemma_spans_view, spans_view, MarkdownText};
use crate::{AsHtml, AsText, Markdown};

verus! {

broadcast use vstd::seq::group_seq_axioms, vstd::std_specs::vec::group_vec_axioms;

// The text renderer: re-emits every node in the dialect's own surface
// syntax.  The `spec` functions define the exact text; the executable
// writers append it to a character buffer.

/// A run of `n` copies of one character.
pub open spec fn char_run(c: char, n: int) -> Seq<char> {
    Seq::new(
        if n < 0 {
            0
        } else {
            n as nat
        },
        |k: int| c,
    )
}

/// The view of an optional owned title.
pub open spec fn title_view(t: Option<String>) -> Option<Seq<char>> {
    match t {
        Some(x) => Some(x@),
        None => None,
    }
}

/// The text form of a link or image target: `[identifier]` for the
/// reference form; `(destination)` for the inline form, a stored quoted
/// title re-emitted after a space.  (The parser itself never yields a
/// title, since the destination balancer consumes everything up to the
/// closing parenthesis; the title matters for documents built by hand.)
pub open spec fn target_text(t: TargetModel, title: Option<Seq<char>>) -> Seq<char> {
    match t {
        TargetModel::Ref(r) => seq!['['] + r + seq![']'],
        TargetModel::Inline(d) => seq!['('] + d + (match title {
            Some(tt) => seq![' ', '"'] + tt + seq!['"'],
            None => Seq::<char>::empty(),
        }) + seq![')'],
    }
}

/// The text form of one inline span.
pub open spec fn span_text(m: SpanModel) -> Seq<char>
    decreases m,
{
    match m {
        SpanModel::Text(t) => t,
        SpanModel::SoftBreak => seq!['\n'],
        SpanModel::Code(c) => seq!['`'] + c + seq!['`'],
        SpanModel::AutoLink(t) => seq!['<'] + t + seq!['>'],
        SpanModel::Image { alt, target, title } => seq!['!', '['] + alt + seq![']'] + target_text(
            target,
            title,
        ),
        SpanModel::Link { text, target, title } => seq!['['] + spans_text(text) + seq![']']
            + target_text(target, title),
    }
}

/// The text form of a sequence of inline spans, concatenated.
pub open spec fn spans_text(ms: Seq<SpanModel>) -> Seq<char>
    decreases ms,
{
    if ms.len() == 0 {
        Seq::empty()
    } else {
        span_text(ms[0]) + spans_text(ms.drop_first())
    }
}

/// Splitting a span sequence splits its text.
pub proof fn lemma_spans_text_concat(a: Seq<SpanModel>, b: Seq<SpanModel>)
    ensures
        spans_text(a + b) == spans_text(a) + spans_text(b),
    decreases a.len(),
{
    if a.len() == 0 {
        assert(a + b =~= b);
        assert(spans_text(a) + spans_text(b) =~= spans_text(b));
    } else {
        lemma_spans_text_concat(a.drop_first(), b);
        assert((a + b).drop_first() =~= a.drop_first() + b);
        assert(spans_text(a + b) =~= spans_text(a) + spans_text(b));
    }
}

/// The text form of a heading: its `#` run and a space, or its text, a line
/// feed, and its underline at the recorded length.
pub open spec fn header_text(h: HeaderModel) -> Seq<char> {
    match h {
        HeaderModel::Atx { level, text } => char_run('#', level) + seq![' '] + spans_text(text),
        HeaderModel::Setext { level, level_len, text } => spans_text(text) + seq!['\n'] + char_run(
            if level == 1 {
                '='
            } else {
                '-'
            },
            level_len,
        ),
    }
}

/// The text form of one block.
pub open spec fn block_text(b: BlockModel) -> Seq<char> {
    match b {
        BlockModel::Separator(n) => char_run('\n', n),
        BlockModel::Heading(h) => header_text(h),
        BlockModel::Paragraph(sp) => spans_text(sp),
    }
}

/// The text form of a whole document: its blocks' text forms, concatenated.
pub open spec fn doc_text(bs: Seq<BlockModel>) -> Seq<char>
    decreases bs,
{
    if bs.len() == 0 {
        Seq::empty()
    } else {
        block_text(bs[0]) + doc_text(bs.drop_first())
    }
}

/// Splitting a document splits its text.
pub proof fn lemma_doc_text_concat(a: Seq<BlockModel>, b: Seq<BlockModel>)
    ensures
        doc_text(a + b) == doc_text(a) + doc_text(b),
    decreases a.len(),
{
    if a.len() == 0 {
        assert(a + b =~= b);
        assert(doc_text(a) + doc_text(b) =~= doc_text(b));
    } else {
        lemma_doc_text_concat(a.drop_first(), b);
        assert((a + b).drop_first() =~= a.drop_first() + b);
        assert(doc_text(a + b) =~= doc_text(a) + doc_text(b));
    }
}

/// Appends `n` copies of a character.
pub(crate) fn push_run(out: &mut Vec<char>, c: char, n: usize)
    ensures
        final(out)@ == old(out)@ + char_run(c, n as int),
{
    let mut k: usize = 0;
    proof {
        assert(out@ =~= out@ + char_run(c, 0));
    }
    while k < n
        invariant
            k <= n,
            out@ == old(out)@ + char_run(c, k as int),
        decreases n - k,
    {
        out.push(c);
        k = k + 1;
        proof {
            assert(out@ =~= old(out)@ + char_run(c, k as int));
        }
    }
}

/// Appends the characters of an owned string.
pub(crate) fn push_string(out: &mut Vec<char>, s: &String)
    ensures
        final(out)@ == old(out)@ + s@,
{
    let v = crate::str_chars(s.as_str());
    let n = v.len();
    let mut k: usize = 0;
    proof {
        assert(out@ =~= out@ + s@.take(0));
    }
    while k < n
        invariant
            k <= n,
            n == v@.len(),
            v@ == s@,
            out@ == old(out)@ + s@.take(k as int),
        decreases n - k,
    {
        out.push(v[k]);
        k = k + 1;
        proof {
            assert(out@ =~= old(out)@ + s@.take(k as int));
        }
    }
    proof {
        assert(s@.take(n as int) =~= s@);
    }
}

/// Appends the text form of one inline node.
pub fn write_span_text(t: &MarkdownText, out: &mut Vec<char>)
    ensures
        final(out)@ == old(out)@ + span_text(t@),
    decreases t, 0int,
{
    match t {
        MarkdownText::Text(s) => {
            push_string(out, s);
        },
        MarkdownText::SoftBreak => {
            out.push('\n');
            proof {
                assert(out@ =~= old(out)@ + seq!['\n']);
            }
        },
        MarkdownText::Code { code } => {
            out.push('`');
            push_string(out, code);
            out.push('`');
            proof {
                assert(out@ =~= old(out)@ + (seq!['`'] + code@ + seq!['`']));
            }
        },
        MarkdownText::AutoLink(a) => {
            out.push('<');
            push_string(out, &a.target);
            out.push('>');
            proof {
                assert(out@ =~= old(out)@ + (seq!['<'] + a.target@ + seq!['>']));
            }
        },
        MarkdownText::Image(im) => {
            out.push('!');
            out.push('[');
            push_string(out, &im.alt_text);
            out.push(']');
            write_target_text(&im.image_ref, &im.title, out);
            proof {
                assert(out@ =~= old(out)@ + span_text(t@));
            }
        },
        MarkdownText::Link(l) => {
            out.push('[');
            write_spans_text(&l.link_text, out);
            out.push(']');
            write_target_text(&l.link_ref, &l.title, out);
            proof {
                assert(out@ =~= old(out)@ + span_text(t@));
            }
        },
    }
}

/// Appends the text form of a link or image target, its stored title
/// included.
fn write_target_text(
    t: &crate::parser::links::RefOrInline,
    title: &Option<String>,
    out: &mut Vec<char>,
)
    ensures
        final(out)@ == old(out)@ + target_text(t@, title_view(*title)),
{
    match t {
        crate::parser::links::RefOrInline::Ref(r) => {
            out.push('[');
            push_string(out, r);
            out.push(']');
            proof {
                assert(out@ =~= old(out)@ + target_text(t@, title_view(*title)));
            }
        },
        crate::parser::links::RefOrInline::Inline(d) => {
            out.push('(');
            push_string(out, d);
            match title {
                Some(tt) => {
                    out.push(' ');
                    out.push('"');
                    push_string(out, tt);
                    out.push('"');
                },
                None => {},
            }
            out.push(')');
            proof {
                assert(out@ =~= old(out)@ + target_text(t@, title_view(*title)));
            }
        },
    }
}

/// Appends the text forms of a vector of inline nodes, in order.
pub fn write_spans_text(v: &Vec<MarkdownText>, out: &mut Vec<char>)
    ensures
        final(out)@ == old(out)@ + spans_text(spans_view(v@)),
    decreases v, 1int,
{
    let ghost m = spans_view(v@);
    proof {
        lemma_spans_view(v@);
    }
    let n = v.len();
    let mut k: usize = 0;
    proof {
        assert(m.take(0) =~= Seq::<SpanModel>::empty());
        assert(out@ =~= out@ + spans_text(m.take(0)));
    }
    while k < n
        invariant
            k <= n,
            n == v@.len(),
            m == spans_view(v@),
            m.len() == n,
            forall|q: int| 0 <= q < n ==> m[q] == crate::parser::util::span_view(v@[q]),
            out@ == old(out)@ + spans_text(m.take(k as int)),
        decreases n - k,
    {
        write_span_text(&v[k], out);
        proof {
            assert(m.take(k as int + 1) =~= m.take(k as int) + seq![m[k as int]]);
            lemma_spans_text_concat(m.take(k as int), seq![m[k as int]]);
            assert(spans_text(seq![m[k as int]]) =~= span_text(m[k as int])) by {
                assert(seq![m[k as int]].drop_first() =~= Seq::<SpanModel>::empty());
                assert(span_text(m[k as int]) + spans_text(Seq::<SpanModel>::empty())
                    =~= span_text(m[k as int]));
            }
            assert(out@ =~= old(out)@ + spans_text(m.take(k as int + 1)));
        }
        k = k + 1;
    }
    proof {
        assert(m.take(n as int) =~= m);
    }
}

impl AsText for MarkdownText {
    open spec fn text_repr(&self) -> Seq<char> {
        span_text(self@)
    }

    fn write_as_text(&self, output: &mut Vec<char>) {
        write_span_text(self, output);
    }
}

impl AsText for Image {
    open spec fn text_repr(&self) -> Seq<char> {
        span_text(self@)
    }

    fn write_as_text(&self, output: &mut Vec<char>) {
        out_image_text(self, output);
    }
}

fn out_image_text(im: &Image, out: &mut Vec<char>)
    ensures
        final(out)@ == old(out)@ + span_text(im@),
{
    out.push('!');
    out.push('[');
    push_string(out, &im.alt_text);
    out.push(']');
    write_target_text(&im.image_ref, &im.title, out);
    proof {
        assert(out@ =~= old(out)@ + span_text(im@));
    }
}

impl AsText for Paragraph {
    open spec fn text_repr(&self) -> Seq<char> {
        spans_text(self@)
    }

    fn write_as_text(&self, output: &mut Vec<char>) {
        write_spans_text(&self.text, output);
    }
}

impl AsText for Header {
    open spec fn text_repr(&self) -> Seq<char> {
        header_text(self@)
    }

    fn write_as_text(&self, output: &mut Vec<char>) {
        match self {
            Header::AtxHeader { level, text } => {
                let n = level.ordinal();
                push_run(output, '#', n);
                output.push(' ');
                write_spans_text(text, output);
                proof {
                    assert(output@ =~= old(output)@ + header_text(self@));
                }
            },
            Header::SetextHeader { level, level_len, text } => {
                write_spans_text(text, output);
                output.push('\n');
                let c = if level.ordinal() == 1 {
                    '='
                } else {
                    '-'
                };
                push_run(output, c, *level_len);
                proof {
                    assert(output@ =~= old(output)@ + header_text(self@));
                }
            },
        }
    }
}

impl AsText for Block {
    open spec fn text_repr(&self) -> Seq<char> {
        block_text(self@)
    }

    fn write_as_text(&self, output: &mut Vec<char>) {
        match self {
            Block::Paragraph(p) => {
                write_spans_text(&p.text, output);
            },
            Block::Heading(h) => {
                h.write_as_text(output);
            },
            Block::Separator(n) => {
                push_run(output, '\n', *n);
            },
        }
    }
}

impl AsText for Markdown {
    open spec fn text_repr(&self) -> Seq<char> {
        doc_text(self@)
    }

    fn write_as_text(&self, output: &mut Vec<char>) {
        let ghost m = blocks_view(self.blocks@);
        proof {
            lemma_blocks_view(self.blocks@);
        }
        let n = self.blocks.len();
        let mut k: usize = 0;
        proof {
            assert(m.take(0) =~= Seq::<BlockModel>::empty());
            assert(output@ =~= output@ + doc_text(m.take(0)));
        }
        while k < n
            invariant
                k <= n,
                n == self.blocks@.len(),
                m == blocks_view(self.blocks@),
                m.len() == n,
                forall|q: int| 0 <= q < n ==> m[q] == self.blocks@[q]@,
                output@ == old(output)@ + doc_text(m.take(k as int)),
            decreases n - k,
        {
            self.blocks[k].write_as_text(output);
            proof {
                assert(m.take(k as int + 1) =~= m.take(k as int) + seq![m[k as int]]);
                lemma_doc_text_concat(m.take(k as int), seq![m[k as int]]);
                assert(doc_text(seq![m[k as int]]) =~= block_text(m[k as int])) by {
                    assert(seq![m[k as int]].drop_first() =~= Seq::<BlockModel>::empty());
                    assert(block_text(m[k as int]) + doc_text(Seq::<BlockModel>::empty())
                        =~= block_text(m[k as int]));
                }
                assert(output@ =~= old(output)@ + doc_text(m.take(k as int + 1)));
            }
            k = k + 1;
        }
        proof {
            assert(m.take(n as int) =~= m);
        }
    }
}


// The HTML renderer: headings become `<h1>`..`<h6>`, paragraphs `<p>`,
// separators a single line feed; inline spans map to their natural HTML
// forms, with literal text and attribute values escaped.

/// The escaped form of one character.
pub open spec fn esc_char(c: char) -> Seq<char> {
    if c == '&' {
        seq!['&', 'a', 'm', 'p', ';']
    } else if c == '<' {
        seq!['&', 'l', 't', ';']
    } else if c == '>' {
        seq!['&', 'g', 't', ';']
    } else if c == '"' {
        seq!['&', 'q', 'u', 'o', 't', ';']
    } else {
        seq![c]
    }
}

/// The text with `&`, `<`, `>` and `"` escaped.
pub open spec fn html_escape(s: Seq<char>) -> Seq<char>
    decreases s.len(),
{
    if s.len() == 0 {
        Seq::empty()
    } else {
        esc_char(s[0]) + html_escape(s.skip(1))
    }
}

/// Splitting a text splits its escaped form.
pub proof fn lemma_html_escape_concat(a: Seq<char>, b: Seq<char>)
    ensures
        html_escape(a + b) == html_escape(a) + html_escape(b),
    decreases a.len(),
{
    if a.len() == 0 {
        assert(a + b =~= b);
        assert(html_escape(a) + html_escape(b) =~= html_escape(b));
    } else {
        lemma_html_escape_concat(a.skip(1), b);
        assert((a + b).skip(1) =~= a.skip(1) + b);
        assert((a + b)[0] == a[0]);
        assert(html_escape(a + b) =~= html_escape(a) + html_escape(b));
    }
}

/// Escaping one more character appends its escaped form.
pub proof fn lemma_html_escape_push(a: Seq<char>, c: char)
    ensures
        html_escape(a.push(c)) == html_escape(a) + esc_char(c),
{
    lemma_html_escape_concat(a, seq![c]);
    assert(a.push(c) =~= a + seq![c]);
    assert(html_escape(seq![c]) =~= esc_char(c)) by {
        assert(seq![c].skip(1) =~= Seq::<char>::empty());
        assert(esc_char(c) + html_escape(Seq::<char>::empty()) =~= esc_char(c));
    }
}

/// The address a link or image target points at.
pub open spec fn target_url(t: TargetModel) -> Seq<char> {
    match t {
        TargetModel::Ref(r) => r,
        TargetModel::Inline(d) => d,
    }
}

/// The digit character of a heading level.
pub open spec fn level_digit(level: int) -> char {
    if level == 1 {
        '1'
    } else if level == 2 {
        '2'
    } else if level == 3 {
        '3'
    } else if level == 4 {
        '4'
    } else if level == 5 {
        '5'
    } else {
        '6'
    }
}

/// The HTML form of one inline span.
pub open spec fn span_html(m: SpanModel) -> Seq<char>
    decreases m,
{
    match m {
        SpanModel::Text(t) => html_escape(t),
        SpanModel::SoftBreak => seq!['\n'],
        SpanModel::Code(c) => seq!['<', 'c', 'o', 'd', 'e', '>'] + html_escape(c) + seq![
            '<',
            '/',
            'c',
            'o',
            'd',
            'e',
            '>',
        ],
        SpanModel::AutoLink(t) => seq!['<', 'a', ' ', 'h', 'r', 'e', 'f', '=', '"'] + html_escape(
            t,
        ) + seq!['"', '>'] + html_escape(t) + seq!['<', '/', 'a', '>'],
        SpanModel::Link { text, target, title } => seq!['<', 'a', ' ', 'h', 'r', 'e', 'f', '=', '"']
            + html_escape(target_url(target)) + seq!['"', '>'] + spans_html(text) + seq![
            '<',
            '/',
            'a',
            '>',
        ],
        SpanModel::Image { alt, target, title } => seq![
            '<',
            'i',
            'm',
            'g',
            ' ',
            's',
            'r',
            'c',
            '=',
            '"',
        ] + html_escape(target_url(target)) + seq!['"', ' ', 'a', 'l', 't', '=', '"'] + html_escape(
            alt,
        ) + seq!['"', '>'],
    }
}

/// The HTML form of a sequence of inline spans, concatenated.
pub open spec fn spans_html(ms: Seq<SpanModel>) -> Seq<char>
    decreases ms,
{
    if ms.len() == 0 {
        Seq::empty()
    } else {
        span_html(ms[0]) + spans_html(ms.drop_first())
    }
}

/// Splitting a span sequence splits its HTML.
pub proof fn lemma_spans_html_concat(a: Seq<SpanModel>, b: Seq<SpanModel>)
    ensures
        spans_html(a + b) == spans_html(a) + spans_html(b),
    decreases a.len(),
{
    if a.len() == 0 {
        assert(a + b =~= b);
        assert(spans_html(a) + spans_html(b) =~= spans_html(b));
    } else {
        lemma_spans_html_concat(a.drop_first(), b);
        assert((a + b).drop_first() =~= a.drop_first() + b);
        assert(spans_html(a + b) =~= spans_html(a) + spans_html(b));
    }
}

/// The HTML form of a heading: its spans between numbered heading tags.
pub open spec fn header_html(h: HeaderModel) -> Seq<char> {
    match h {
        HeaderModel::Atx { level, text } => seq!['<', 'h', level_digit(level), '>'] + spans_html(
            text,
        ) + seq!['<', '/', 'h', level_digit(level), '>'],
        HeaderModel::Setext { level, level_len, text } => seq!['<', 'h', level_digit(level), '>']
            + spans_html(text) + seq!['<', '/', 'h', level_digit(level), '>'],
    }
}

/// The HTML form of one block.
pub open spec fn block_html(b: BlockModel) -> Seq<char> {
    match b {
        BlockModel::Separator(n) => seq!['\n'],
        BlockModel::Heading(h) => header_html(h),
        BlockModel::Paragraph(sp) => seq!['<', 'p', '>'] + spans_html(sp) + seq!['<', '/', 'p', '>'],
    }
}

/// The HTML form of a whole document: its blocks' forms, concatenated.
pub open spec fn doc_html(bs: Seq<BlockModel>) -> Seq<char>
    decreases bs,
{
    if bs.len() == 0 {
        Seq::empty()
    } else {
        block_html(bs[0]) + doc_html(bs.drop_first())
    }
}

/// Splitting a document splits its HTML.
pub proof fn lemma_doc_html_concat(a: Seq<BlockModel>, b: Seq<BlockModel>)
    ensures
        doc_html(a + b) == doc_html(a) + doc_html(b),
    decreases a.len(),
{
    if a.len() == 0 {
        assert(a + b =~= b);
        assert(doc_html(a) + doc_html(b) =~= doc_html(b));
    } else {
        lemma_doc_html_concat(a.drop_first(), b);
        assert((a + b).drop_first() =~= a.drop_first() + b);
        assert(doc_html(a + b) =~= doc_html(a) + doc_html(b));
    }
}

/// Appends a string with HTML escaping.
pub(crate) fn push_escaped(out: &mut Vec<char>, s: &String)
    ensures
        final(out)@ == old(out)@ + html_escape(s@),
{
    let v = crate::str_chars(s.as_str());
    let n = v.len();
    let mut k: usize = 0;
    proof {
        assert(s@.take(0) =~= Seq::<char>::empty());
        assert(out@ =~= out@ + html_escape(s@.take(0)));
    }
    while k < n
        invariant
            k <= n,
            n == v@.len(),
            v@ == s@,
            out@ == old(out)@ + html_escape(s@.take(k as int)),
        decreases n - k,
    {
        let c = v[k];
        let ghost mid = out@;
        if c == '&' {
            out.push('&');
            out.push('a');
            out.push('m');
            out.push('p');
            out.push(';');
        } else if c == '<' {
            out.push('&');
            out.push('l');
            out.push('t');
            out.push(';');
        } else if c == '>' {
            out.push('&');
            out.push('g');
            out.push('t');
            out.push(';');
        } else if c == '"' {
            out.push('&');
            out.push('q');
            out.push('u');
            out.push('o');
            out.push('t');
            out.push(';');
        } else {
            out.push(c);
        }
        proof {
            assert(out@ =~= mid + esc_char(c));
            lemma_html_escape_push(s@.take(k as int), c);
            assert(s@.take(k as int).push(c) =~= s@.take(k as int + 1));
            assert(out@ =~= old(out)@ + html_escape(s@.take(k as int + 1)));
        }
        k = k + 1;
    }
    proof {
        assert(s@.take(n as int) =~= s@);
    }
}

/// Appends the address of a link or image target, escaped.
fn write_target_url(t: &crate::parser::links::RefOrInline, out: &mut Vec<char>)
    ensures
        final(out)@ == old(out)@ + html_escape(target_url(t@)),
{
    match t {
        crate::parser::links::RefOrInline::Ref(r) => {
            push_escaped(out, r);
        },
        crate::parser::links::RefOrInline::Inline(d) => {
            push_escaped(out, d);
        },
    }
}

/// Appends the HTML form of one inline node.
#[verifier::rlimit(60)]
pub fn write_span_html(t: &MarkdownText, out: &mut Vec<char>)
    ensures
        final(out)@ == old(out)@ + span_html(t@),
    decreases t, 0int,
{
    match t {
        MarkdownText::Text(s) => {
            push_escaped(out, s);
        },
        MarkdownText::SoftBreak => {
            out.push('\n');
            proof {
                assert(out@ =~= old(out)@ + seq!['\n']);
            }
        },
        MarkdownText::Code { code } => {
            out.push('<');
            out.push('c');
            out.push('o');
            out.push('d');
            out.push('e');
            out.push('>');
            push_escaped(out, code);
            out.push('<');
            out.push('/');
            out.push('c');
            out.push('o');
            out.push('d');
            out.push('e');
            out.push('>');
            proof {
                assert(out@ =~= old(out)@ + span_html(t@));
            }
        },
        MarkdownText::AutoLink(a) => {
            out.push('<');
            out.push('a');
            out.push(' ');
            out.push('h');
            out.push('r');
            out.push('e');
            out.push('f');
            out.push('=');
            out.push('"');
            push_escaped(out, &a.target);
            out.push('"');
            out.push('>');
            push_escaped(out, &a.target);
            out.push('<');
            out.push('/');
            out.push('a');
            out.push('>');
            proof {
                assert(out@ =~= old(out)@ + span_html(t@));
            }
        },
        MarkdownText::Link(l) => {
            out.push('<');
            out.push('a');
            out.push(' ');
            out.push('h');
            out.push('r');
            out.push('e');
            out.push('f');
            out.push('=');
            out.push('"');
            write_target_url(&l.link_ref, out);
            out.push('"');
            out.push('>');
            write_spans_html(&l.link_text, out);
            out.push('<');
            out.push('/');
            out.push('a');
            out.push('>');
            proof {
                assert(out@ =~= old(out)@ + span_html(t@));
            }
        },
        MarkdownText::Image(im) => {
            out.push('<');
            out.push('i');
            out.push('m');
            out.push('g');
            out.push(' ');
            out.push('s');
            out.push('r');
            out.push('c');
            out.push('=');
            out.push('"');
            write_target_url(&im.image_ref, out);
            out.push('"');
            out.push(' ');
            out.push('a');
            out.push('l');
            out.push('t');
            out.push('=');
            out.push('"');
            push_escaped(out, &im.alt_text);
            out.push('"');
            out.push('>');
            proof {
                assert(out@ =~= old(out)@ + span_html(t@));
            }
        },
    }
}

/// Appends the HTML forms of a vector of inline nodes, in order.
pub fn write_spans_html(v: &Vec<MarkdownText>, out: &mut Vec<char>)
    ensures
        final(out)@ == old(out)@ + spans_html(spans_view(v@)),
    decreases v, 1int,
{
    let ghost m = spans_view(v@);
    proof {
        lemma_spans_view(v@);
    }
    let n = v.len();
    let mut k: usize = 0;
    proof {
        assert(m.take(0) =~= Seq::<SpanModel>::empty());
        assert(out@ =~= out@ + spans_html(m.take(0)));
    }
    while k < n
        invariant
            k <= n,
            n == v@.len(),
            m == spans_view(v@),
            m.len() == n,
            forall|q: int| 0 <= q < n ==> m[q] == crate::parser::util::span_view(v@[q]),
            out@ == old(out)@ + spans_html(m.take(k as int)),
        decreases n - k,
    {
        write_span_html(&v[k], out);
        proof {
            assert(m.take(k as int + 1) =~= m.take(k as int) + seq![m[k as int]]);
            lemma_spans_html_concat(m.take(k as int), seq![m[k as int]]);
            assert(spans_html(seq![m[k as int]]) =~= span_html(m[k as int])) by {
                assert(seq![m[k as int]].drop_first() =~= Seq::<SpanModel>::empty());
                assert(span_html(m[k as int]) + spans_html(Seq::<SpanModel>::empty())
                    =~= span_html(m[k as int]));
            }
            assert(out@ =~= old(out)@ + spans_html(m.take(k as int + 1)));
        }
        k = k + 1;
    }
    proof {
        assert(m.take(n as int) =~= m);
    }
}

impl AsHtml for MarkdownText {
    open spec fn html_repr(&self) -> Seq<char> {
        span_html(self@)
    }

    fn write_html(&self, output: &mut Vec<char>) {
        write_span_html(self, output);
    }
}

impl AsHtml for Paragraph {
    open spec fn html_repr(&self) -> Seq<char> {
        spans_html(self@)
    }

    fn write_html(&self, output: &mut Vec<char>) {
        write_spans_html(&self.text, output);
    }
}

impl AsHtml for Header {
    open spec fn html_repr(&self) -> Seq<char> {
        header_html(self@)
    }

    fn write_html(&self, output: &mut Vec<char>) {
        match self {
            Header::AtxHeader { level, text } => {
                let d = level.digit();
                output.push('<');
                output.push('h');
                output.push(d);
                output.push('>');
                write_spans_html(text, output);
                output.push('<');
                output.push('/');
                output.push('h');
                output.push(d);
                output.push('>');
                proof {
                    assert(output@ =~= old(output)@ + header_html(self@));
                }
            },
            Header::SetextHeader { level, level_len, text } => {
                let d = level.digit();
                output.push('<');
                output.push('h');
                output.push(d);
                output.push('>');
                write_spans_html(text, output);
                output.push('<');
                output.push('/');
                output.push('h');
                output.push(d);
                output.push('>');
                proof {
                    assert(output@ =~= old(output)@ + header_html(self@));
                }
            },
        }
    }
}

impl AsHtml for Block {
    open spec fn html_repr(&self) -> Seq<char> {
        block_html(self@)
    }

    fn write_html(&self, output: &mut Vec<char>) {
        match self {
            Block::Paragraph(p) => {
                output.push('<');
                output.push('p');
                output.push('>');
                write_spans_html(&p.text, output);
                output.push('<');
                output.push('/');
                output.push('p');
                output.push('>');
                proof {
                    assert(output@ =~= old(output)@ + block_html(self@));
                }
            },
            Block::Heading(h) => {
                h.write_html(output);
            },
            Block::Separator(_) => {
                output.push('\n');
                proof {
                    assert(output@ =~= old(output)@ + seq!['\n']);
                }
            },
        }
    }
}

impl AsHtml for Markdown {
    open spec fn html_repr(&self) -> Seq<char> {
        doc_html(self@)
    }

    fn write_html(&self, output: &mut Vec<char>) {
        let ghost m = blocks_view(self.blocks@);
        proof {
            lemma_blocks_view(self.blocks@);
        }
        let n = self.blocks.len();
        let mut k: usize = 0;
        proof {
            assert(m.take(0) =~= Seq::<BlockModel>::empty());
            assert(output@ =~= output@ + doc_html(m.take(0)));
        }
        while k < n
            invariant
                k <= n,
                n == self.blocks@.len(),
                m == blocks_view(self.blocks@),
                m.len() == n,
                forall|q: int| 0 <= q < n ==> m[q] == self.blocks@[q]@,
                output@ == old(output)@ + doc_html(m.take(k as int)),
            decreases n - k,
        {
            self.blocks[k].write_html(output);
            proof {
                assert(m.take(k as int + 1) =~= m.take(k as int) + seq![m[k as int]]);
                lemma_doc_html_concat(m.take(k as int), seq![m[k as int]]);
                assert(doc_html(seq![m[k as int]]) =~= block_html(m[k as int])) by {
                    assert(seq![m[k as int]].drop_first() =~= Seq::<BlockModel>::empty());
                    assert(block_html(m[k as int]) + doc_html(Seq::<BlockModel>::empty())
                        =~= block_html(m[k as int]));
                }
                assert(output@ =~= old(output)@ + doc_html(m.take(k as int + 1)));
            }
            k = k + 1;
        }
        proof {
            assert(m.take(n as int) =~= m);
        }
    }
}

impl crate::parser::headers::HeadingLevel {
    /// The level as a number, one to six.
    pub fn ordinal(&self) -> (r: usize)
        ensures
            r as int == self@,
    {
        match self {
            crate::parser::headers::HeadingLevel::H1 => 1,
            crate::parser::headers::HeadingLevel::H2 => 2,
            crate::parser::headers::HeadingLevel::H3 => 3,
            crate::parser::headers::HeadingLevel::H4 => 4,
            crate::parser::headers::HeadingLevel::H5 => 5,
            crate::parser::headers::HeadingLevel::H6 => 6,
        }
    }

    /// The level's digit character.
    pub fn digit(&self) -> (r: char)
        ensures
            r == level_digit(self@),
    {
        match self {
            crate::parser::headers::HeadingLevel::H1 => '1',
            crate::parser::headers::HeadingLevel::H2 => '2',
            crate::parser::headers::HeadingLevel::H3 => '3',
            crate::parser::headers::HeadingLevel::H4 => '4',
            crate::parser::headers::HeadingLevel::H5 => '5',
            crate::parser::headers::HeadingLevel::H6 => '6',
        }
    }
}

} // verus!
