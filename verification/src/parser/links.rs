use vstd::prelude::*;

use crate::parser::grammar::{
    ci_matches, dict_word, ftp_word, http_word, https_word, mailto_word, match_word_ci,
    spec_autolink, spec_link_inline_tail, spec_nested_parens, spec_opt_title, spec_ref_tail,
    SpanModel, TargetModel,
};
use crate::parser::grammar::{spec_link, spec_nested_brackets, spec_stream_spans};
use crate::parser::scan::clamped;
use crate::parser::util::{nested_brackets, spans_view};
use crate::parser::scan::{copy_range, scan, Cls};
use crate::parser::util::MarkdownText;

verus! {

/// Where a link or an image points: a bracketed reference identifier
/// (resolved outside this engine) or an inline destination.
#[derive(Debug, PartialEq, Eq)]
pub enum RefOrInline {
    Ref(String),
    Inline(String),
}

impl View for RefOrInline {
    type V = TargetModel;

    open spec fn view(&self) -> TargetModel {
        match self {
            RefOrInline::Ref(s) => TargetModel::Ref(s@),
            RefOrInline::Inline(s) => TargetModel::Inline(s@),
        }
    }
}

/// A link: bracketed text (itself parsed for markup), a target, and an
/// optional quoted title.
#[derive(Debug, PartialEq, Eq)]
pub struct Link {
    pub link_text: Vec<MarkdownText>,
    pub link_ref: RefOrInline,
    pub title: Option<String>,
}

/// A link whose text is the same as its target, written `<target>`.
/// Bare mail addresses are normalized with a `mailto:` prefix.
#[derive(Debug, PartialEq, Eq)]
pub struct AutoLink {
    pub target: String,
}

impl View for AutoLink {
    type V = SpanModel;

    open spec fn view(&self) -> SpanModel {
        SpanModel::AutoLink(self.target@)
    }
}

/// Whether the lower-case word `w` stands at `i`, compared without regard to
/// ASCII case.
fn match_ci(s: &Vec<char>, i: usize, end: usize, w: &Vec<char>) -> (r: bool)
    requires
        i <= end <= s@.len(),
    ensures
        r == match_word_ci(s@, i as int, end as int, w@),
{
    let wl = w.len();
    if wl > end - i {
        return false;
    }
    let mut k: usize = 0;
    while k < wl
        invariant
            k <= wl,
            wl == w@.len(),
            i + wl <= end <= s@.len(),
            forall|m: int| 0 <= m < k ==> ci_matches(s@[i + m], w@[m]),
        decreases wl - k,
    {
        let c = s[i + k];
        let l = w[k];
        let ok: bool = if c == l {
            true
        } else {
            let cu = c as u32;
            let lu = l as u32;
            97 <= lu && lu <= 122 && lu >= 32 && cu == lu - 32
        };
        if !ok {
            proof {
                assert(!ci_matches(s@[i as int + k as int], w@[k as int]));
            }
            return false;
        }
        proof {
            assert(ci_matches(s@[i as int + k as int], w@[k as int]));
        }
        k = k + 1;
    }
    true
}

/// An automatic link.  A mail address (with or without a written `mailto:`
/// prefix) is normalized to a `mailto:` target; otherwise one of the schemes
/// `http`, `https`, `ftp` and `dict` (compared without regard to case) keeps
/// its target verbatim.
pub fn parse_auto_link(s: &Vec<char>, i: usize, end: usize) -> (r: Option<(usize, AutoLink)>)
    requires
        i <= end <= s@.len(),
    ensures
        match (r, spec_autolink(s@, i as int, end as int)) {
            (Some(x), Some(y)) => x.0 as int == y.0 && x.1@ == y.1,
            (None, None) => true,
            _ => false,
        },
{
    if !(i < end && s[i] == '<') {
        return None;
    }
    let mailto = vec!['m', 'a', 'i', 'l', 't', 'o', ':'];
    proof {
        assert(mailto@ =~= mailto_word());
    }
    let m = if match_ci(s, i + 1, end, &mailto) {
        i + 8
    } else {
        i + 1
    };
    let a = scan(s, m, end, Cls::Not('@'));
    if a < end && a > m {
        let g = scan(s, a + 1, end, Cls::Not('>'));
        if g < end && g > a + 1 {
            let mut tv: Vec<char> = Vec::new();
            tv.push('m');
            tv.push('a');
            tv.push('i');
            tv.push('l');
            tv.push('t');
            tv.push('o');
            tv.push(':');
            proof {
                assert(tv@ =~= mailto_word());
            }
            let ghost base = tv@;
            let mut k = m;
            while k < a
                invariant
                    m <= k <= a <= s@.len(),
                    tv@ == base + s@.subrange(m as int, k as int),
                decreases a - k,
            {
                tv.push(s[k]);
                k = k + 1;
                proof {
                    assert(tv@ =~= base + s@.subrange(m as int, k as int));
                }
            }
            tv.push('@');
            let ghost base2 = tv@;
            let mut k2 = a + 1;
            while k2 < g
                invariant
                    a + 1 <= k2 <= g <= s@.len(),
                    tv@ == base2 + s@.subrange(a as int + 1, k2 as int),
                decreases g - k2,
            {
                tv.push(s[k2]);
                k2 = k2 + 1;
                proof {
                    assert(tv@ =~= base2 + s@.subrange(a as int + 1, k2 as int));
                }
            }
            proof {
                assert(tv@ =~= mailto_word() + s@.subrange(m as int, a as int) + seq!['@']
                    + s@.subrange(a as int + 1, g as int));
            }
            let target = crate::chars_string(&tv);
            return Some((g + 1, AutoLink { target }));
        }
    }
    let https = vec!['h', 't', 't', 'p', 's'];
    let http = vec!['h', 't', 't', 'p'];
    let ftp = vec!['f', 't', 'p'];
    let dict = vec!['d', 'i', 'c', 't'];
    proof {
        assert(https@ =~= https_word());
        assert(http@ =~= http_word());
        assert(ftp@ =~= ftp_word());
        assert(dict@ =~= dict_word());
    }
    let sc: usize = if match_ci(s, i + 1, end, &https) {
        i + 6
    } else if match_ci(s, i + 1, end, &http) {
        i + 5
    } else if match_ci(s, i + 1, end, &ftp) {
        i + 4
    } else if match_ci(s, i + 1, end, &dict) {
        i + 5
    } else {
        return None;
    };
    if sc < end && s[sc] == ':' {
        let b = scan(s, sc + 1, end, Cls::AutolinkBody);
        if b > sc + 1 && b < end && s[b] == '>' {
            let target = copy_range(s, i + 1, b);
            return Some((b + 1, AutoLink { target }));
        }
    }
    None
}


/// The tail of a reference-style link or image, after the closing bracket of
/// its text: an optional space, an optional line break with leading
/// whitespace, then the bracketed identifier.
pub(crate) fn parse_ref_tail(s: &Vec<char>, p: usize, end: usize) -> (r: Option<(usize, String)>)
    requires
        p <= end <= s@.len(),
    ensures
        match (r, spec_ref_tail(s@, p as int, end as int)) {
            (Some(x), Some(y)) => x.0 as int == y.0 && x.1@ == y.1,
            (None, None) => true,
            _ => false,
        },
{
    let p2 = if p < end && s[p] == ' ' {
        p + 1
    } else {
        p
    };
    let p3 = if p2 < end && s[p2] == '\n' {
        scan(s, p2 + 1, end, Cls::Hspace)
    } else {
        p2
    };
    if p3 < end && s[p3] == '[' {
        let q = scan(s, p3 + 1, end, Cls::Not(']'));
        if q < end {
            Some((q + 1, copy_range(s, p3 + 1, q)))
        } else {
            None
        }
    } else {
        None
    }
}

/// An optional quoted title; the position is unchanged when none (or no
/// closing quote) is there.
pub(crate) fn parse_opt_title(s: &Vec<char>, t: usize, end: usize) -> (r: (usize, Option<String>))
    requires
        t <= end <= s@.len(),
    ensures
        ({
            let m = spec_opt_title(s@, t as int, end as int);
            r.0 as int == m.0 && match (r.1, m.1) {
                (Some(x), Some(y)) => x@ == y,
                (None, None) => true,
                _ => false,
            }
        }),
        t <= r.0 <= end,
{
    if t < end && (s[t] == '"' || s[t] == '\'') {
        let q = scan(s, t + 1, end, Cls::Not(s[t]));
        if q < end {
            (q + 1, Some(copy_range(s, t + 1, q)))
        } else {
            (t, None)
        }
    } else {
        (t, None)
    }
}

/// The tail of an inline-style link, after the closing bracket of its text:
/// an optional space, then parentheses around optional whitespace, a
/// balanced destination, optional whitespace and an optional quoted title.
pub(crate) fn parse_link_inline_tail(s: &Vec<char>, p: usize, end: usize) -> (r: Option<
    (usize, String, Option<String>),
>)
    requires
        p <= end <= s@.len(),
    ensures
        match (r, spec_link_inline_tail(s@, p as int, end as int)) {
            (Some(x), Some(y)) => x.0 as int == y.0 && x.1@ == y.1 && match (x.2, y.2) {
                (Some(xt), Some(yt)) => xt@ == yt,
                (None, None) => true,
                _ => false,
            },
            (None, None) => true,
            _ => false,
        },
{
    let p2 = if p < end && s[p] == ' ' {
        p + 1
    } else {
        p
    };
    if p2 < end && s[p2] == '(' {
        let m = scan(s, p2 + 1, end, Cls::Multispace);
        let j = crate::parser::util::nested_parenthesis(s, m, end);
        proof {
            assert(crate::parser::scan::clamped(
                spec_nested_parens(s@, m as int, end as int),
                m as int,
                end as int,
            ) == j as int);
        }
        let dest = copy_range(s, m, j);
        let t1 = scan(s, j, end, Cls::Multispace);
        let (t2, title) = parse_opt_title(s, t1, end);
        let t3 = scan(s, t2, end, Cls::Multispace);
        if t3 < end && s[t3] == ')' {
            Some((t3 + 1, dest, title))
        } else {
            None
        }
    } else {
        None
    }
}

/// The same tail for an image, whose quoted title carries its own trailing
/// whitespace.
pub(crate) fn parse_image_inline_tail(s: &Vec<char>, p: usize, end: usize) -> (r: Option<
    (usize, String, Option<String>),
>)
    requires
        p <= end <= s@.len(),
    ensures
        match (r, crate::parser::grammar::spec_image_inline_tail(s@, p as int, end as int)) {
            (Some(x), Some(y)) => x.0 as int == y.0 && x.1@ == y.1 && match (x.2, y.2) {
                (Some(xt), Some(yt)) => xt@ == yt,
                (None, None) => true,
                _ => false,
            },
            (None, None) => true,
            _ => false,
        },
{
    let p2 = if p < end && s[p] == ' ' {
        p + 1
    } else {
        p
    };
    if p2 < end && s[p2] == '(' {
        let m = scan(s, p2 + 1, end, Cls::Multispace);
        let j = crate::parser::util::nested_parenthesis(s, m, end);
        proof {
            assert(crate::parser::scan::clamped(
                spec_nested_parens(s@, m as int, end as int),
                m as int,
                end as int,
            ) == j as int);
        }
        let dest = copy_range(s, m, j);
        let t1 = scan(s, j, end, Cls::Multispace);
        let (t2a, title) = parse_opt_title(s, t1, end);
        let t2 = if title.is_some() {
            scan(s, t2a, end, Cls::Multispace)
        } else {
            t2a
        };
        if t2 < end && s[t2] == ')' {
            Some((t2 + 1, dest, title))
        } else {
            None
        }
    } else {
        None
    }
}


/// The bracketed text of a link: `[`, a nonempty balanced span parsed as a
/// stream of inline spans, `]`.
fn parse_brackets(s: &Vec<char>, i: usize, end: usize) -> (r: Option<(usize, Vec<MarkdownText>)>)
    requires
        i <= end <= s@.len(),
    ensures
        ({
            let k = clamped(
                spec_nested_brackets(s@, i as int + 1, end as int),
                i as int + 1,
                end as int,
            );
            if i < end && s@[i as int] == '[' && k < end && s@[k] == ']' && k > i + 1 {
                match r {
                    Some(x) => x.0 as int == k + 1 && spans_view(x.1@) == spec_stream_spans(
                        s@,
                        i as int + 1,
                        k,
                    ),
                    None => false,
                }
            } else {
                r is None
            }
        }),
    decreases end - i, 0int,
{
    if i < end && s[i] == '[' {
        let k = nested_brackets(s, i + 1, end);
        proof {
            assert(clamped(spec_nested_brackets(s@, i as int + 1, end as int), i as int + 1, end
                as int) == k as int);
        }
        if k < end && s[k] == ']' && k > i + 1 {
            match MarkdownText::parse_markdown_text_stream(s, i + 1, k) {
                Some((_, texts)) => Some((k + 1, texts)),
                None => vstd::pervasive::unreached(),
            }
        } else {
            None
        }
    } else {
        None
    }
}

/// A link: bracketed text parsed for nested markup, then either a bracketed
/// reference identifier or a parenthesized inline destination (the reference
/// form is tried first).
pub fn parse_link(s: &Vec<char>, i: usize, end: usize) -> (r: Option<(usize, Link)>)
    requires
        i <= end <= s@.len(),
    ensures
        match (r, spec_link(s@, i as int, end as int)) {
            (Some(x), Some(y)) => x.0 as int == y.0 && x.1@ == y.1,
            (None, None) => true,
            _ => false,
        },
    decreases end - i, 1int,
{
    match parse_brackets(s, i, end) {
        Some((p, texts)) => {
            match parse_ref_tail(s, p, end) {
                Some((j, id)) => Some(
                    (j, Link { link_text: texts, link_ref: RefOrInline::Ref(id), title: None }),
                ),
                None => match parse_link_inline_tail(s, p, end) {
                    Some((j, dest, title)) => Some(
                        (
                            j,
                            Link {
                                link_text: texts,
                                link_ref: RefOrInline::Inline(dest),
                                title,
                            },
                        ),
                    ),
                    None => None,
                },
            }
        },
        None => None,
    }
}

} // verus!
