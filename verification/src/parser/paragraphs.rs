use vstd::prelude::*;

use crate::parser::grammar::{
    lemma_find_term_props, spec_find_term, spec_paragraph, spec_setext_scan, spec_terminator_at,
    SpanModel,
};
use crate::parser::headers::underline_line;
use crate::parser::scan::{clamped, scan, Cls};
use crate::parser::util::{spans_view, MarkdownText};

verus! {

/// A paragraph: one or more lines of inline text, the fallback block kind.
#[derive(Debug, PartialEq, Eq)]
pub struct Paragraph {
    pub text: Vec<MarkdownText>,
}

impl View for Paragraph {
    type V = Seq<SpanModel>;

    open spec fn view(&self) -> Seq<SpanModel> {
        spans_view(self.text@)
    }
}

/// Finds the first paragraph terminator at or after `i`: a line feed
/// followed by another line feed or by a character that can begin a heading
/// block.
pub fn find_next(s: &Vec<char>, i: usize, end: usize) -> (r: Option<usize>)
    requires
        i <= end <= s@.len(),
    ensures
        match (r, spec_find_term(s@, i as int, end as int)) {
            (Some(x), Some(y)) => x as int == y,
            (None, None) => true,
            _ => false,
        },
{
    let mut j = i;
    while j < end
        invariant
            i <= j <= end <= s@.len(),
            forall|k: int| i <= k < j ==> !spec_terminator_at(s@, k, end as int),
        decreases end - j,
    {
        if s[j] == '\n' && j + 1 < end && (s[j + 1] == '\n' || s[j + 1] == '=' || s[j + 1] == '-'
            || s[j + 1] == '#') {
            proof {
                lemma_find_term_props(s@, i as int, end as int);
                assert(spec_terminator_at(s@, j as int, end as int));
            }
            return Some(j);
        }
        proof {
            assert(!spec_terminator_at(s@, j as int, end as int));
        }
        j = j + 1;
    }
    proof {
        lemma_find_term_props(s@, i as int, end as int);
        if spec_find_term(s@, i as int, end as int) is Some {
            let y = spec_find_term(s@, i as int, end as int)->Some_0;
            assert(!spec_terminator_at(s@, y, end as int));
        }
    }
    None
}

/// Takes text until the underline of an underlined heading matches: walks
/// the lines from `i` and yields the first line entirely of `=` or `-`,
/// with its start, its end, its level and the length of its run.  An empty
/// line is a hard stop; text separated from a later underline by a blank
/// line never matches.
pub fn take_until_match(s: &Vec<char>, i: usize, end: usize) -> (r: Option<
    (usize, usize, usize, usize),
>)
    requires
        i <= end <= s@.len(),
    ensures
        match (r, spec_setext_scan(s@, i as int, end as int)) {
            (Some(x), Some(y)) => x.0 as int == y.0 && x.1 as int == y.1 && x.2 as int == y.2
                && x.3 as int == y.3,
            (None, None) => true,
            _ => false,
        },
{
    let mut a = i;
    while a < end
        invariant
            i <= a <= end <= s@.len(),
            spec_setext_scan(s@, a as int, end as int) == spec_setext_scan(
                s@,
                i as int,
                end as int,
            ),
        decreases end - a,
    {
        let b = scan(s, a, end, Cls::Not('\n'));
        if b == a {
            return None;
        }
        match underline_line(s, a, b) {
            Some((lev, ln)) => {
                return Some((a, b, lev, ln));
            },
            None => {
                if b < end {
                    proof {
                        assert(clamped(b as int + 1, a as int + 1, end as int) == b as int + 1);
                    }
                    a = b + 1;
                } else {
                    return None;
                }
            },
        }
    }
    None
}

/// A paragraph: the nonempty inline stream up to the first terminator
/// (which is left for the block segmenter), or to the end of the span.
pub fn parse_paragraph(s: &Vec<char>, i: usize, end: usize) -> (r: Option<(usize, Paragraph)>)
    requires
        i <= end <= s@.len(),
    ensures
        match (r, spec_paragraph(s@, i as int, end as int)) {
            (Some(x), Some(y)) => x.0 as int == y.0 && x.1@ == y.1,
            (None, None) => true,
            _ => false,
        },
{
    if i >= end {
        return None;
    }
    proof {
        lemma_find_term_props(s@, i as int, end as int);
    }
    match find_next(s, i, end) {
        Some(j) => {
            if j > i {
                match MarkdownText::parse_markdown_text_stream(s, i, j) {
                    Some((_, texts)) => Some((j, Paragraph { text: texts })),
                    None => vstd::pervasive::unreached(),
                }
            } else {
                None
            }
        },
        None => {
            match MarkdownText::parse_markdown_text_stream(s, i, end) {
                Some((_, texts)) => Some((end, Paragraph { text: texts })),
                None => vstd::pervasive::unreached(),
            }
        },
    }
}

} // verus!
