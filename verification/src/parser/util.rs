use vstd::prelude::*;

use crate::parser::grammar::{
    bracket_scan, lemma_bracket_scan_range, lemma_md_text_progress, lemma_scan_not_in_unique,
    spec_md_text, spec_md_text_until, spec_nested_brackets, spec_nested_parens,
    spec_stream_spans, SpanModel,
};
use crate::parser::code::parse_inline_code;
use crate::parser::images::parse_image;
use crate::parser::links::{parse_auto_link, parse_link};
use crate::parser::scan::{copy_range, scan, Cls};
use crate::parser::images::Image;
use crate::parser::links::{AutoLink, Link};

verus! {

broadcast use vstd::seq::group_seq_axioms, vstd::std_specs::vec::group_vec_axioms;

/// The kinds of inline text the parser can produce.
#[derive(Debug, PartialEq, Eq)]
pub enum MarkdownText {
    Text(String),
    Image(Image),
    Link(Link),
    AutoLink(AutoLink),
    SoftBreak,
    Code { code: String },
}

/// The model of one inline node, nested link text included.
pub open spec fn span_view(t: MarkdownText) -> SpanModel
    decreases t,
{
    match t {
        MarkdownText::Text(s) => SpanModel::Text(s@),
        MarkdownText::SoftBreak => SpanModel::SoftBreak,
        MarkdownText::Code { code } => SpanModel::Code(code@),
        MarkdownText::AutoLink(a) => SpanModel::AutoLink(a.target@),
        MarkdownText::Image(im) => im@,
        MarkdownText::Link(l) => SpanModel::Link {
            text: spans_view(l.link_text@),
            target: l.link_ref@,
            title: match l.title {
                Some(t2) => Some(t2@),
                None => None,
            },
        },
    }
}

/// The models of a sequence of inline nodes, in order.
pub open spec fn spans_view(v: Seq<MarkdownText>) -> Seq<SpanModel>
    decreases v,
{
    if v.len() == 0 {
        Seq::empty()
    } else {
        seq![span_view(v[0])] + spans_view(v.drop_first())
    }
}

/// `spans_view` is the element-wise model map.
pub proof fn lemma_spans_view(v: Seq<MarkdownText>)
    ensures
        spans_view(v).len() == v.len(),
        forall|k: int| 0 <= k < v.len() ==> spans_view(v)[k] == span_view(v[k]),
    decreases v.len(),
{
    if v.len() > 0 {
        lemma_spans_view(v.drop_first());
    }
}

/// Appending one node appends its model.
pub proof fn lemma_spans_view_push(v: Seq<MarkdownText>, t: MarkdownText)
    ensures
        spans_view(v.push(t)) == spans_view(v) + seq![span_view(t)],
{
    lemma_spans_view(v);
    lemma_spans_view(v.push(t));
    assert(spans_view(v.push(t)) =~= spans_view(v) + seq![span_view(t)]);
}

impl View for MarkdownText {
    type V = SpanModel;

    open spec fn view(&self) -> SpanModel {
        span_view(*self)
    }
}

impl View for Link {
    type V = SpanModel;

    open spec fn view(&self) -> SpanModel {
        span_view(MarkdownText::Link(
            Link { link_text: self.link_text, link_ref: self.link_ref, title: self.title },
        ))
    }
}

/// How an executable inline result relates to the model the grammar gives.
pub open spec fn span_res_matches(
    r: Option<(usize, MarkdownText)>,
    m: Option<(int, SpanModel)>,
) -> bool {
    match (r, m) {
        (Some(x), Some(y)) => x.0 as int == y.0 && x.1@ == y.1,
        (None, None) => true,
        _ => false,
    }
}

/// Consumes the maximal prefix of the span made of non-bracket characters
/// and fully closed bracket groups.  On balanced text it stops exactly at
/// the closing bracket that matches the enclosing opener
/// (`lemma_balancer_finds_matching_close`); on unbalanced text it never
/// fails: it stops at the first unmatched closing bracket, or before the
/// first unclosed group, consuming at most the whole span.
pub fn nested_brackets(s: &Vec<char>, i: usize, end: usize) -> (r: usize)
    requires
        i <= end <= s@.len(),
    ensures
        r as int == spec_nested_brackets(s@, i as int, end as int),
        i <= r <= end,
{
    balance(s, i, end, '[', ']')
}

/// The same balancer over parentheses, for inline destinations.
pub fn nested_parenthesis(s: &Vec<char>, i: usize, end: usize) -> (r: usize)
    requires
        i <= end <= s@.len(),
    ensures
        r as int == spec_nested_parens(s@, i as int, end as int),
        i <= r <= end,
{
    balance(s, i, end, '(', ')')
}

fn balance(s: &Vec<char>, i: usize, end: usize, open: char, close: char) -> (r: usize)
    requires
        i <= end <= s@.len(),
    ensures
        r as int == bracket_scan(s@, i as int, end as int, open, close, 0, i as int),
        i <= r <= end,
{
    let mut j = i;
    let mut depth: usize = 0;
    let mut last = i;
    proof {
        lemma_bracket_scan_range(s@, i as int, end as int, open, close, 0, i as int);
    }
    while j < end
        invariant
            i <= j <= end <= s@.len(),
            i <= last <= j,
            bracket_scan(s@, j as int, end as int, open, close, depth as int, last as int)
                == bracket_scan(s@, i as int, end as int, open, close, 0, i as int),
            depth <= j,
        decreases end - j,
    {
        let c = s[j];
        if c == close {
            if depth == 0 {
                proof {
                    assert(bracket_scan(
                        s@,
                        j as int,
                        end as int,
                        open,
                        close,
                        depth as int,
                        last as int,
                    ) == j as int);
                }
                return j;
            } else {
                depth = depth - 1;
                if depth == 0 {
                    last = j + 1;
                }
            }
        } else if c == open {
            depth = depth + 1;
        } else {
            if depth == 0 {
                last = j + 1;
            }
        }
        j = j + 1;
    }
    proof {
        assert(bracket_scan(s@, j as int, end as int, open, close, depth as int, last as int)
            == last as int);
    }
    last
}

/// Whether the vector holds the character.
fn vec_contains_char(v: &Vec<char>, c: char) -> (r: bool)
    ensures
        r == v@.contains(c),
{
    let mut k: usize = 0;
    while k < v.len()
        invariant
            k <= v@.len(),
            forall|m: int| 0 <= m < k ==> v@[m] != c,
        decreases v@.len() - k,
    {
        if v[k] == c {
            return true;
        }
        k = k + 1;
    }
    proof {
        assert(!v@.contains(c));
    }
    false
}

impl MarkdownText {
    /// One literal character, the fallback of every failed inline attempt.
    fn take1(s: &Vec<char>, i: usize, end: usize) -> (r: Option<(usize, MarkdownText)>)
        requires
            i < end <= s@.len(),
        ensures
            r matches Some(x) && x.0 == i + 1 && x.1@ == SpanModel::Text(
                s@.subrange(i as int, i as int + 1),
            ),
    {
        Some((i + 1, MarkdownText::Text(copy_range(s, i, i + 1))))
    }

    /// One inline span, dispatched on the run of special characters ahead:
    /// `![` tries an image, `[` a link, a backtick a code span, `<` an
    /// automatic link, each falling back to one literal character; a single
    /// line feed begins a soft break; anything else is a plain text run or,
    /// failing that, the whole rest of the span.
    pub fn parse_markdown_text(s: &Vec<char>, i: usize, end: usize) -> (r: Option<
        (usize, MarkdownText),
    >)
        requires
            i <= end <= s@.len(),
        ensures
            span_res_matches(r, spec_md_text(s@, i as int, end as int)),
        decreases end - i, 2int,
    {
        if i >= end {
            return None;
        }
        let r0 = scan(s, i, end, Cls::Peek);
        if r0 - i == 2 && s[i] == '!' && s[i + 1] == '[' {
            match parse_image(s, i, end) {
                Some((j, im)) => Some((j, MarkdownText::Image(im))),
                None => MarkdownText::take1(s, i, end),
            }
        } else if r0 - i == 1 && s[i] == '[' {
            match parse_link(s, i, end) {
                Some((j, l)) => Some((j, MarkdownText::Link(l))),
                None => MarkdownText::take1(s, i, end),
            }
        } else if r0 - i == 1 && s[i] == '`' {
            match parse_inline_code(s, i, end) {
                Some(x) => Some(x),
                None => MarkdownText::take1(s, i, end),
            }
        } else if r0 - i == 1 && s[i] == '<' {
            match parse_auto_link(s, i, end) {
                Some((j, a)) => Some((j, MarkdownText::AutoLink(a))),
                None => MarkdownText::take1(s, i, end),
            }
        } else if r0 - i == 1 && s[i] == '\n' {
            let j = scan(s, i, end, Cls::Multispace);
            Some((j, MarkdownText::SoftBreak))
        } else {
            let j = scan(s, i, end, Cls::PlainText);
            if j > i {
                Some((j, MarkdownText::Text(copy_range(s, i, j))))
            } else {
                Some((end, MarkdownText::Text(copy_range(s, i, end))))
            }
        }
    }

    /// One or more inline spans covering the whole span; fails only on an
    /// empty span.
    pub fn parse_markdown_text_stream(s: &Vec<char>, i: usize, end: usize) -> (r: Option<
        (usize, Vec<MarkdownText>),
    >)
        requires
            i <= end <= s@.len(),
        ensures
            i < end ==> (r matches Some(x) && x.0 == end && spans_view(x.1@) == spec_stream_spans(
                s@,
                i as int,
                end as int,
            )),
            i >= end ==> r is None,
        decreases end - i, 3int,
    {
        if i >= end {
            return None;
        }
        let mut acc: Vec<MarkdownText> = Vec::new();
        let mut cur = i;
        proof {
            assert(spans_view(acc@) =~= Seq::<SpanModel>::empty());
            assert(spans_view(acc@) + spec_stream_spans(s@, i as int, end as int)
                =~= spec_stream_spans(s@, i as int, end as int));
        }
        while cur < end
            invariant
                i <= cur <= end <= s@.len(),
                spans_view(acc@) + spec_stream_spans(s@, cur as int, end as int)
                    == spec_stream_spans(s@, i as int, end as int),
            decreases end - cur,
        {
            proof {
                lemma_md_text_progress(s@, cur as int, end as int);
            }
            match MarkdownText::parse_markdown_text(s, cur, end) {
                Some((j, t)) => {
                    proof {
                        lemma_spans_view_push(acc@, t);
                        let (sj, sp) = spec_md_text(s@, cur as int, end as int)->Some_0;
                        assert(crate::parser::scan::clamped(sj, cur as int + 1, end as int) == sj);
                        assert(spec_stream_spans(s@, cur as int, end as int) == seq![sp] + if sj
                            == end as int {
                            Seq::<SpanModel>::empty()
                        } else {
                            spec_stream_spans(s@, sj, end as int)
                        });
                        assert((spans_view(acc@) + seq![span_view(t)]) + spec_stream_spans(
                            s@,
                            sj,
                            end as int,
                        ) =~= spans_view(acc@) + (seq![sp] + spec_stream_spans(s@, sj, end as int)));
                        if sj == end as int {
                            assert(spec_stream_spans(s@, sj, end as int)
                                =~= Seq::<SpanModel>::empty());
                            assert(seq![sp] + Seq::<SpanModel>::empty() =~= seq![sp]);
                            assert((spans_view(acc@) + seq![span_view(t)]) + spec_stream_spans(
                                s@,
                                sj,
                                end as int,
                            ) =~= spans_view(acc@) + seq![sp]);
                        }
                    }
                    acc.push(t);
                    cur = j;
                },
                None => {
                    return vstd::pervasive::unreached();
                },
            }
        }
        proof {
            assert(spec_stream_spans(s@, cur as int, end as int) =~= Seq::<SpanModel>::empty());
            assert(spans_view(acc@) + Seq::<SpanModel>::empty() =~= spans_view(acc@));
        }
        Some((end, acc))
    }

    /// One inline leaf for a caller that bounds text runs itself: an image,
    /// a link or an automatic link, and otherwise a (possibly empty) text
    /// run up to the first character among `stops`.
    pub fn parse_markdown_text_until(s: &Vec<char>, i: usize, end: usize, stops: &Vec<char>) -> (r:
        Option<(usize, MarkdownText)>)
        requires
            i <= end <= s@.len(),
        ensures
            span_res_matches(r, spec_md_text_until(s@, i as int, end as int, stops@)),
    {
        match parse_image(s, i, end) {
            Some((j, im)) => Some((j, MarkdownText::Image(im))),
            None => match parse_link(s, i, end) {
                Some((j, l)) => Some((j, MarkdownText::Link(l))),
                None => match parse_auto_link(s, i, end) {
                    Some((j, a)) => Some((j, MarkdownText::AutoLink(a))),
                    None => {
                        let mut j = i;
                        while j < end && !vec_contains_char(stops, s[j])
                            invariant
                                i <= j <= end <= s@.len(),
                                forall|k: int| i <= k < j ==> !stops@.contains(s@[k]),
                            decreases end - j,
                        {
                            j = j + 1;
                        }
                        proof {
                            lemma_scan_not_in_unique(
                                s@,
                                i as int,
                                end as int,
                                stops@,
                                j as int,
                            );
                        }
                        Some((j, MarkdownText::Text(copy_range(s, i, j))))
                    },
                },
            },
        }
    }
}

} // verus!
