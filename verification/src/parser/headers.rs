use vstd::prelude::*;

use crate::parser::grammar::{
    lemma_setext_scan_props, spec_atx, spec_setext, spec_underline_line, HeaderModel,
};
use crate::parser::paragraphs::take_until_match;
use crate::parser::scan::{scan, scan_back, Cls};
use crate::parser::util::{spans_view, MarkdownText};

verus! {

/// The level of a heading, one to six.
#[derive(Debug, PartialEq, Eq, Clone, Copy)]
pub enum HeadingLevel {
    H1,
    H2,
    H3,
    H4,
    H5,
    H6,
}

impl View for HeadingLevel {
    type V = int;

    open spec fn view(&self) -> int {
        match self {
            HeadingLevel::H1 => 1,
            HeadingLevel::H2 => 2,
            HeadingLevel::H3 => 3,
            HeadingLevel::H4 => 4,
            HeadingLevel::H5 => 5,
            HeadingLevel::H6 => 6,
        }
    }
}

/// A heading block: marked by a leading `#` run, or underlined by `=` or
/// `-`.  The underlined form keeps the exact length of its underline run so
/// the text renderer can re-emit it.
#[derive(Debug, PartialEq, Eq)]
pub enum Header {
    AtxHeader { level: HeadingLevel, text: Vec<MarkdownText> },
    SetextHeader { level: HeadingLevel, level_len: usize, text: Vec<MarkdownText> },
}

impl View for Header {
    type V = HeaderModel;

    open spec fn view(&self) -> HeaderModel {
        match self {
            Header::AtxHeader { level, text } => HeaderModel::Atx {
                level: level@,
                text: spans_view(text@),
            },
            Header::SetextHeader { level, level_len, text } => HeaderModel::Setext {
                level: level@,
                level_len: *level_len as int,
                text: spans_view(text@),
            },
        }
    }
}

/// How an executable heading result relates to the model the grammar gives.
pub open spec fn header_res_matches(
    r: Option<(usize, Header)>,
    m: Option<(int, HeaderModel)>,
) -> bool {
    match (r, m) {
        (Some(x), Some(y)) => x.0 as int == y.0 && x.1@ == y.1,
        (None, None) => true,
        _ => false,
    }
}

/// Whether the line `[a, b)` is entirely an underline: horizontal
/// whitespace, a nonempty run of `=` or `-`, horizontal whitespace.  Yields
/// the level it marks and the length of its run.
pub(crate) fn underline_line(s: &Vec<char>, a: usize, b: usize) -> (r: Option<(usize, usize)>)
    requires
        a <= b <= s@.len(),
    ensures
        match (r, spec_underline_line(s@, a as int, b as int)) {
            (Some(x), Some(y)) => x.0 as int == y.0 && x.1 as int == y.1,
            (None, None) => true,
            _ => false,
        },
{
    let u0 = scan(s, a, b, Cls::Hspace);
    if u0 < b && (s[u0] == '=' || s[u0] == '-') {
        let lev: usize = if s[u0] == '=' {
            1
        } else {
            2
        };
        let u1 = scan(s, u0, b, Cls::Is(s[u0]));
        let u2 = scan(s, u1, b, Cls::Hspace);
        if u2 == b {
            Some((lev, u1 - u0))
        } else {
            None
        }
    } else {
        None
    }
}

/// An underlined heading: at least one line of content, then the first line
/// entirely of `=` or `-`, with no blank line in between.  The underline
/// line is consumed; the line feed after it is not.
pub fn setext_header(s: &Vec<char>, i: usize, end: usize) -> (r: Option<(usize, Header)>)
    requires
        i <= end <= s@.len(),
    ensures
        header_res_matches(r, spec_setext(s@, i as int, end as int)),
{
    if i >= end {
        return None;
    }
    proof {
        lemma_setext_scan_props(s@, i as int, end as int);
    }
    match take_until_match(s, i, end) {
        Some((a, b, lev, ln)) => {
            if a >= 1 && a - 1 > i {
                match MarkdownText::parse_markdown_text_stream(s, i, a - 1) {
                    Some((_, texts)) => {
                        let level = if lev == 1 {
                            HeadingLevel::H1
                        } else {
                            HeadingLevel::H2
                        };
                        Some((b, Header::SetextHeader { level, level_len: ln, text: texts }))
                    },
                    None => vstd::pervasive::unreached(),
                }
            } else {
                None
            }
        },
        None => None,
    }
}

/// A `#`-marked heading: optional horizontal whitespace, one to six `#`,
/// optional whitespace, then the rest of the line with trailing whitespace,
/// a trailing `#` run and whitespace before it stripped.  The content must
/// still be nonempty; the line feed after the line is not consumed.
pub fn parse_header(s: &Vec<char>, i: usize, end: usize) -> (r: Option<(usize, Header)>)
    requires
        i <= end <= s@.len(),
    ensures
        header_res_matches(r, spec_atx(s@, i as int, end as int)),
{
    let h0 = scan(s, i, end, Cls::Hspace);
    let h1 = scan(s, h0, end, Cls::Is('#'));
    let n = h1 - h0;
    if 1 <= n && n <= 6 {
        let h2 = scan(s, h1, end, Cls::Hspace);
        let e = scan(s, h2, end, Cls::Not('\n'));
        let e1 = scan_back(s, h2, e, Cls::Hspace);
        let e2 = scan_back(s, h2, e1, Cls::Is('#'));
        let e3 = scan_back(s, h2, e2, Cls::Hspace);
        if e3 > h2 {
            match MarkdownText::parse_markdown_text_stream(s, h2, e3) {
                Some((_, texts)) => {
                    let level = if n == 1 {
                        HeadingLevel::H1
                    } else if n == 2 {
                        HeadingLevel::H2
                    } else if n == 3 {
                        HeadingLevel::H3
                    } else if n == 4 {
                        HeadingLevel::H4
                    } else if n == 5 {
                        HeadingLevel::H5
                    } else {
                        HeadingLevel::H6
                    };
                    Some((e, Header::AtxHeader { level, text: texts }))
                },
                None => vstd::pervasive::unreached(),
            }
        } else {
            None
        }
    } else {
        None
    }
}

} // verus!
