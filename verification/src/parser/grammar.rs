use vstd::prelude::*;

use crate::parser::scan::{clamped, cls_holds, scan_while, Cls};

verus! {

// The mathematical description of the dialect.  Every executable parser is
// proved to return exactly what these functions describe.  Positions are
// indices into one character sequence; every rule works inside a bounded span
// `[i, end)` and returns the position just after what it consumed.

// ---------- the document model ----------

/// Where a link or image points: a reference identifier to be resolved
/// later, or a destination given inline.
pub enum TargetModel {
    Ref(Seq<char>),
    Inline(Seq<char>),
}

/// An inline span.
pub enum SpanModel {
    /// A literal run of characters.
    Text(Seq<char>),
    /// One or more consumed whitespace characters starting with a line feed,
    /// rendered as a single line break.
    SoftBreak,
    /// An inline code span (the body may hold line feeds).
    Code(Seq<char>),
    /// A link; its text is parsed for nested markup.
    Link { text: Seq<SpanModel>, target: TargetModel, title: Option<Seq<char>> },
    /// An image; its alternative text is kept literal.
    Image { alt: Seq<char>, target: TargetModel, title: Option<Seq<char>> },
    /// An angle-bracket link whose text is its target.
    AutoLink(Seq<char>),
}

/// A heading: marked by a leading run of `#`, or by an underline of `=` or
/// `-` on the following line (the exact length of that run is kept for
/// re-rendering).
pub enum HeaderModel {
    Atx { level: int, text: Seq<SpanModel> },
    Setext { level: int, level_len: int, text: Seq<SpanModel> },
}

/// A block of the document.
pub enum BlockModel {
    Paragraph(Seq<SpanModel>),
    Heading(HeaderModel),
    Separator(int),
}

// ---------- case-insensitive words ----------

/// Whether `c` matches the lower-case letter `l` up to ASCII case.
pub open spec fn ci_matches(c: char, l: char) -> bool {
    c == l || (97 <= l as u32 <= 122 && c as u32 + 32 == l as u32)
}

/// Whether the word `w` (written in lower case) stands at `i`, compared
/// ASCII-case-insensitively, wholly inside the span.
pub open spec fn match_word_ci(s: Seq<char>, i: int, end: int, w: Seq<char>) -> bool {
    0 <= i && i + w.len() <= end <= s.len() && forall|k: int|
        0 <= k < w.len() ==> ci_matches(s[i + k], w[k])
}

/// The scheme prefix written before a mail address.
pub open spec fn mailto_word() -> Seq<char> {
    seq!['m', 'a', 'i', 'l', 't', 'o', ':']
}

pub open spec fn https_word() -> Seq<char> {
    seq!['h', 't', 't', 'p', 's']
}

pub open spec fn http_word() -> Seq<char> {
    seq!['h', 't', 't', 'p']
}

pub open spec fn ftp_word() -> Seq<char> {
    seq!['f', 't', 'p']
}

pub open spec fn dict_word() -> Seq<char> {
    seq!['d', 'i', 'c', 't']
}

// ---------- bracket and parenthesis balancing ----------

/// One pass of the bracket balancer.  Characters other than the two bracket
/// characters are consumed freely; an opening bracket must be closed for the
/// group to count; a closing bracket at depth zero stops the scan.  `last` is
/// the position just after the last complete unit seen so far.
pub open spec fn bracket_scan(
    s: Seq<char>,
    i: int,
    end: int,
    open: char,
    close: char,
    depth: int,
    last: int,
) -> int
    decreases end - i,
{
    if !(0 <= i < end <= s.len()) {
        last
    } else if s[i] == close {
        if depth == 0 {
            i
        } else {
            bracket_scan(
                s,
                i + 1,
                end,
                open,
                close,
                depth - 1,
                if depth == 1 {
                    i + 1
                } else {
                    last
                },
            )
        }
    } else if s[i] == open {
        bracket_scan(s, i + 1, end, open, close, depth + 1, last)
    } else {
        bracket_scan(
            s,
            i + 1,
            end,
            open,
            close,
            depth,
            if depth == 0 {
                i + 1
            } else {
                last
            },
        )
    }
}

/// How far the balancer reaches from `i`: the maximal prefix made of
/// non-bracket characters and fully closed bracket groups.
pub open spec fn spec_nested_brackets(s: Seq<char>, i: int, end: int) -> int {
    bracket_scan(s, i, end, '[', ']', 0, i)
}

/// The same balancer over parentheses.
pub open spec fn spec_nested_parens(s: Seq<char>, i: int, end: int) -> int {
    bracket_scan(s, i, end, '(', ')', 0, i)
}

/// The balancer never leaves the span.
pub proof fn lemma_bracket_scan_range(
    s: Seq<char>,
    i: int,
    end: int,
    open: char,
    close: char,
    depth: int,
    last: int,
)
    requires
        0 <= last <= i <= end <= s.len(),
    ensures
        last <= bracket_scan(s, i, end, open, close, depth, last) <= end,
    decreases end - i,
{
    if 0 <= i < end <= s.len() {
        if s[i] == close {
            if depth != 0 {
                lemma_bracket_scan_range(
                    s,
                    i + 1,
                    end,
                    open,
                    close,
                    depth - 1,
                    if depth == 1 {
                        i + 1
                    } else {
                        last
                    },
                );
            }
        } else if s[i] == open {
            lemma_bracket_scan_range(s, i + 1, end, open, close, depth + 1, last);
        } else {
            lemma_bracket_scan_range(
                s,
                i + 1,
                end,
                open,
                close,
                depth,
                if depth == 0 {
                    i + 1
                } else {
                    last
                },
            );
        }
    }
}

/// The bracket balance of the span `[i, j)`: openers minus closers.
pub open spec fn bracket_balance(s: Seq<char>, i: int, j: int, open: char, close: char) -> int
    decreases j - i,
{
    if !(0 <= i < j <= s.len()) {
        0
    } else {
        (if s[i] == open {
            1int
        } else if s[i] == close {
            -1int
        } else {
            0int
        }) + bracket_balance(s, i + 1, j, open, close)
    }
}

/// Where a closing bracket stands at depth zero — the balance of everything
/// before it (plus the entry depth) is zero and never negative — the
/// balancer stops exactly there.
pub proof fn lemma_bracket_scan_stops_at_close(
    s: Seq<char>,
    i: int,
    end: int,
    open: char,
    close: char,
    depth: int,
    last: int,
    k: int,
)
    requires
        0 <= i <= k < end <= s.len(),
        open != close,
        s[k] == close,
        depth >= 0,
        0 <= last <= i,
        depth + bracket_balance(s, i, k, open, close) == 0,
        forall|m: int| i <= m <= k ==> depth + bracket_balance(s, i, m, open, close) >= 0,
    ensures
        bracket_scan(s, i, end, open, close, depth, last) == k,
    decreases k - i,
{
    if i == k {
        assert(bracket_balance(s, i, k, open, close) == 0);
        assert(depth == 0);
    } else {
        let step: int = if s[i] == open {
            1int
        } else if s[i] == close {
            -1int
        } else {
            0int
        };
        assert forall|m: int| i + 1 <= m <= k implies (depth + step) + #[trigger] bracket_balance(
            s,
            i + 1,
            m,
            open,
            close,
        ) >= 0 by {
            assert(bracket_balance(s, i, m, open, close) == step + bracket_balance(
                s,
                i + 1,
                m,
                open,
                close,
            ));
            assert(depth + bracket_balance(s, i, m, open, close) >= 0);
        }
        assert(bracket_balance(s, i, k, open, close) == step + bracket_balance(
            s,
            i + 1,
            k,
            open,
            close,
        ));
        if s[i] == close {
            assert(depth + bracket_balance(s, i, i + 1, open, close) >= 0);
            assert(bracket_balance(s, i, i + 1, open, close) == -1 + bracket_balance(
                s,
                i + 1,
                i + 1,
                open,
                close,
            ));
            assert(depth >= 1);
            lemma_bracket_scan_stops_at_close(
                s,
                i + 1,
                end,
                open,
                close,
                depth - 1,
                if depth == 1 {
                    i + 1
                } else {
                    last
                },
                k,
            );
        } else if s[i] == open {
            lemma_bracket_scan_stops_at_close(s, i + 1, end, open, close, depth + 1, last, k);
        } else {
            lemma_bracket_scan_stops_at_close(
                s,
                i + 1,
                end,
                open,
                close,
                depth,
                if depth == 0 {
                    i + 1
                } else {
                    last
                },
                k,
            );
        }
    }
}

/// The law of the bracket balancer: on a span whose brackets are balanced up
/// to a closing bracket at depth zero, it consumes exactly up to that
/// bracket; and on every span it stops inside the span, never failing
/// (`lemma_bracket_scan_range`).
pub proof fn lemma_balancer_finds_matching_close(s: Seq<char>, i: int, end: int, k: int)
    requires
        0 <= i <= k < end <= s.len(),
        s[k] == ']',
        bracket_balance(s, i, k, '[', ']') == 0,
        forall|m: int| i <= m <= k ==> bracket_balance(s, i, m, '[', ']') >= 0,
    ensures
        spec_nested_brackets(s, i, end) == k,
{
    lemma_bracket_scan_stops_at_close(s, i, end, '[', ']', 0, i, k);
}


// ---------- inline code and automatic links ----------

/// An inline code span: a backtick, at least one character up to the next
/// backtick, and that backtick.
pub open spec fn spec_code(s: Seq<char>, i: int, end: int) -> Option<(int, SpanModel)> {
    if 0 <= i < end <= s.len() && s[i] == '`' {
        let q = scan_while(s, i + 1, end, Cls::Not('`'));
        if q < end && q > i + 1 {
            Some((q + 1, SpanModel::Code(s.subrange(i + 1, q))))
        } else {
            None
        }
    } else {
        None
    }
}

/// An automatic link.  The mail form is tried first: an optional `mailto:`
/// prefix, a local part up to `@`, and a domain up to `>`, normalized to a
/// `mailto:` target.  Otherwise one of the known schemes, a colon, and a run
/// of target characters up to `>`, kept verbatim.
pub open spec fn spec_autolink(s: Seq<char>, i: int, end: int) -> Option<(int, SpanModel)> {
    if !(0 <= i < end <= s.len()) || s[i] != '<' {
        None
    } else {
        let m = if match_word_ci(s, i + 1, end, mailto_word()) {
            i + 8
        } else {
            i + 1
        };
        let a = scan_while(s, m, end, Cls::Not('@'));
        let email = if a < end && a > m {
            let g = scan_while(s, a + 1, end, Cls::Not('>'));
            if g < end && g > a + 1 {
                Some(
                    (
                        g + 1,
                        SpanModel::AutoLink(
                            mailto_word() + s.subrange(m, a) + seq!['@'] + s.subrange(a + 1, g),
                        ),
                    ),
                )
            } else {
                None
            }
        } else {
            None
        };
        if email is Some {
            email
        } else {
            let sc = if match_word_ci(s, i + 1, end, https_word()) {
                i + 6
            } else if match_word_ci(s, i + 1, end, http_word()) {
                i + 5
            } else if match_word_ci(s, i + 1, end, ftp_word()) {
                i + 4
            } else if match_word_ci(s, i + 1, end, dict_word()) {
                i + 5
            } else {
                end + 1
            };
            if sc < end && s[sc] == ':' {
                let b = scan_while(s, sc + 1, end, Cls::AutolinkBody);
                if b > sc + 1 && b < end && s[b] == '>' {
                    Some((b + 1, SpanModel::AutoLink(s.subrange(i + 1, b))))
                } else {
                    None
                }
            } else {
                None
            }
        }
    }
}

// ---------- link and image tails ----------

/// After the bracketed text: an optional space, an optional line feed with
/// leading whitespace, then a bracketed reference identifier (possibly
/// empty).
pub open spec fn spec_ref_tail(s: Seq<char>, p: int, end: int) -> Option<(int, Seq<char>)> {
    if !(0 <= p <= end <= s.len()) {
        None
    } else {
        let p2 = if p < end && s[p] == ' ' {
            p + 1
        } else {
            p
        };
        let p3 = if p2 < end && s[p2] == '\n' {
            scan_while(s, p2 + 1, end, Cls::Hspace)
        } else {
            p2
        };
        if p3 < end && s[p3] == '[' {
            let q = scan_while(s, p3 + 1, end, Cls::Not(']'));
            if q < end {
                Some((q + 1, s.subrange(p3 + 1, q)))
            } else {
                None
            }
        } else {
            None
        }
    }
}

/// An optional quoted title at `t`: the quote, its body up to the matching
/// quote, and that quote.  Yields the position after it and the title, or
/// leaves the position unchanged.
pub open spec fn spec_opt_title(s: Seq<char>, t: int, end: int) -> (int, Option<Seq<char>>) {
    if 0 <= t < end <= s.len() && (s[t] == '"' || s[t] == '\'') {
        let q = scan_while(s, t + 1, end, Cls::Not(s[t]));
        if q < end {
            (q + 1, Some(s.subrange(t + 1, q)))
        } else {
            (t, None)
        }
    } else {
        (t, None)
    }
}

/// After the bracketed text of a link: an optional space, then parentheses
/// holding optional whitespace, a balanced destination, optional whitespace,
/// an optional quoted title and optional whitespace.
pub open spec fn spec_link_inline_tail(s: Seq<char>, p: int, end: int) -> Option<
    (int, Seq<char>, Option<Seq<char>>),
> {
    if !(0 <= p <= end <= s.len()) {
        None
    } else {
        let p2 = if p < end && s[p] == ' ' {
            p + 1
        } else {
            p
        };
        if p2 < end && s[p2] == '(' {
            let m = scan_while(s, p2 + 1, end, Cls::Multispace);
            let j = clamped(spec_nested_parens(s, m, end), m, end);
            let dest = s.subrange(m, j);
            let t1 = scan_while(s, j, end, Cls::Multispace);
            let (t2, title) = spec_opt_title(s, t1, end);
            let t3 = scan_while(s, t2, end, Cls::Multispace);
            if t3 < end && s[t3] == ')' {
                Some((t3 + 1, dest, title))
            } else {
                None
            }
        } else {
            None
        }
    }
}

/// The same tail for an image, whose quoted title carries its own trailing
/// whitespace.
pub open spec fn spec_image_inline_tail(s: Seq<char>, p: int, end: int) -> Option<
    (int, Seq<char>, Option<Seq<char>>),
> {
    if !(0 <= p <= end <= s.len()) {
        None
    } else {
        let p2 = if p < end && s[p] == ' ' {
            p + 1
        } else {
            p
        };
        if p2 < end && s[p2] == '(' {
            let m = scan_while(s, p2 + 1, end, Cls::Multispace);
            let j = clamped(spec_nested_parens(s, m, end), m, end);
            let dest = s.subrange(m, j);
            let t1 = scan_while(s, j, end, Cls::Multispace);
            let (t2a, title) = spec_opt_title(s, t1, end);
            let t2 = if title is Some {
                scan_while(s, t2a, end, Cls::Multispace)
            } else {
                t2a
            };
            if t2 < end && s[t2] == ')' {
                Some((t2 + 1, dest, title))
            } else {
                None
            }
        } else {
            None
        }
    }
}

/// An image: `![`, literal alternative text balanced over brackets, `]`,
/// then a reference tail or an inline tail.
pub open spec fn spec_image(s: Seq<char>, i: int, end: int) -> Option<(int, SpanModel)> {
    if 0 <= i && i + 2 <= end <= s.len() && s[i] == '!' && s[i + 1] == '[' {
        let k = clamped(spec_nested_brackets(s, i + 2, end), i + 2, end);
        if k < end && s[k] == ']' {
            let alt = s.subrange(i + 2, k);
            match spec_ref_tail(s, k + 1, end) {
                Some((j, id)) => Some(
                    (j, SpanModel::Image { alt, target: TargetModel::Ref(id), title: None }),
                ),
                None => match spec_image_inline_tail(s, k + 1, end) {
                    Some((j, dest, title)) => Some(
                        (j, SpanModel::Image { alt, target: TargetModel::Inline(dest), title }),
                    ),
                    None => None,
                },
            }
        } else {
            None
        }
    } else {
        None
    }
}

// ---------- the inline span grammar ----------

/// A link: `[`, bracketed text parsed as a nonempty stream of inline spans,
/// `]`, then a reference tail or an inline tail.
pub open spec fn spec_link(s: Seq<char>, i: int, end: int) -> Option<(int, SpanModel)>
    decreases end - i, 1int,
{
    if 0 <= i < end <= s.len() && s[i] == '[' {
        let k = clamped(spec_nested_brackets(s, i + 1, end), i + 1, end);
        if k < end && s[k] == ']' && k > i + 1 {
            let inner = spec_stream_spans(s, i + 1, k);
            match spec_ref_tail(s, k + 1, end) {
                Some((j, id)) => Some(
                    (
                        j,
                        SpanModel::Link {
                            text: inner,
                            target: TargetModel::Ref(id),
                            title: None,
                        },
                    ),
                ),
                None => match spec_link_inline_tail(s, k + 1, end) {
                    Some((j, dest, title)) => Some(
                        (
                            j,
                            SpanModel::Link {
                                text: inner,
                                target: TargetModel::Inline(dest),
                                title,
                            },
                        ),
                    ),
                    None => None,
                },
            }
        } else {
            None
        }
    } else {
        None
    }
}

/// One inline span, chosen by what the next run of dispatch characters is:
/// `![` tries an image, `[` a link, a single backtick a code span, `<` an
/// automatic link (each falling back to one literal character), a single
/// line feed becomes a soft break over the following whitespace, and
/// anything else is a maximal plain-text run, or the whole rest of the span
/// when no such run can start here.
pub open spec fn spec_md_text(s: Seq<char>, i: int, end: int) -> Option<(int, SpanModel)>
    decreases end - i, 2int,
{
    if !(0 <= i < end <= s.len()) {
        None
    } else {
        let r = scan_while(s, i, end, Cls::Peek);
        if r == i + 2 && s[i] == '!' && s[i + 1] == '[' {
            match spec_image(s, i, end) {
                Some(x) => Some(x),
                None => Some((i + 1, SpanModel::Text(s.subrange(i, i + 1)))),
            }
        } else if r == i + 1 && s[i] == '[' {
            match spec_link(s, i, end) {
                Some(x) => Some(x),
                None => Some((i + 1, SpanModel::Text(s.subrange(i, i + 1)))),
            }
        } else if r == i + 1 && s[i] == '`' {
            match spec_code(s, i, end) {
                Some(x) => Some(x),
                None => Some((i + 1, SpanModel::Text(s.subrange(i, i + 1)))),
            }
        } else if r == i + 1 && s[i] == '<' {
            match spec_autolink(s, i, end) {
                Some(x) => Some(x),
                None => Some((i + 1, SpanModel::Text(s.subrange(i, i + 1)))),
            }
        } else if r == i + 1 && s[i] == '\n' {
            Some((scan_while(s, i, end, Cls::Multispace), SpanModel::SoftBreak))
        } else {
            let j = scan_while(s, i, end, Cls::PlainText);
            if j > i {
                Some((j, SpanModel::Text(s.subrange(i, j))))
            } else {
                Some((end, SpanModel::Text(s.subrange(i, end))))
            }
        }
    }
}

/// The spans of a whole span stream: one inline span after another until the
/// span is exhausted (empty when the span is empty).
pub open spec fn spec_stream_spans(s: Seq<char>, i: int, end: int) -> Seq<SpanModel>
    decreases end - i, 3int,
{
    if !(0 <= i < end <= s.len()) {
        Seq::empty()
    } else {
        match spec_md_text(s, i, end) {
            Some((j, sp)) => {
                let j2 = clamped(j, i + 1, end);
                seq![sp] + if j2 == end {
                    Seq::<SpanModel>::empty()
                } else {
                    spec_stream_spans(s, j2, end)
                }
            },
            None => Seq::empty(),
        }
    }
}

/// One inline leaf for a caller that bounds text runs itself: an image, a
/// link or an automatic link, and otherwise a (possibly empty) text run up
/// to the first stop character.
pub open spec fn spec_md_text_until(s: Seq<char>, i: int, end: int, stops: Seq<char>) -> Option<
    (int, SpanModel),
> {
    if !(0 <= i <= end <= s.len()) {
        None
    } else {
        match spec_image(s, i, end) {
            Some(x) => Some(x),
            None => match spec_link(s, i, end) {
                Some(x) => Some(x),
                None => match spec_autolink(s, i, end) {
                    Some(x) => Some(x),
                    None => {
                        let j = spec_scan_not_in(s, i, end, stops);
                        Some((j, SpanModel::Text(s.subrange(i, j))))
                    },
                },
            },
        }
    }
}

/// The first position at or after `i` whose character is among `stops`, or
/// `end` when there is none.
pub open spec fn spec_scan_not_in(s: Seq<char>, i: int, end: int, stops: Seq<char>) -> int
    decreases end - i,
{
    if 0 <= i < end <= s.len() && !stops.contains(s[i]) {
        spec_scan_not_in(s, i + 1, end, stops)
    } else {
        i
    }
}

/// A position with the properties of `spec_scan_not_in` is
/// `spec_scan_not_in`.
pub proof fn lemma_scan_not_in_unique(s: Seq<char>, i: int, end: int, stops: Seq<char>, r: int)
    requires
        0 <= i <= r <= end <= s.len(),
        forall|k: int| i <= k < r ==> !stops.contains(s[k]),
        r < end ==> stops.contains(s[r]),
    ensures
        spec_scan_not_in(s, i, end, stops) == r,
    decreases end - i,
{
    if i < end && !stops.contains(s[i]) {
        lemma_scan_not_in_unique(s, i + 1, end, stops, r);
    }
}


// ---------- headings ----------

/// An `#`-marked heading on one line: optional horizontal whitespace, one to
/// six `#`, optional whitespace, then the line's remaining content with any
/// trailing whitespace, trailing `#` run and whitespace before it stripped.
/// The content must still be nonempty; the line feed after the line is not
/// consumed.
pub open spec fn spec_atx(s: Seq<char>, i: int, end: int) -> Option<(int, HeaderModel)> {
    if !(0 <= i <= end <= s.len()) {
        None
    } else {
        let h0 = scan_while(s, i, end, Cls::Hspace);
        let h1 = scan_while(s, h0, end, Cls::Is('#'));
        let n = h1 - h0;
        if 1 <= n <= 6 {
            let h2 = scan_while(s, h1, end, Cls::Hspace);
            let e = scan_while(s, h2, end, Cls::Not('\n'));
            let e1 = crate::parser::scan::scan_back_while(s, h2, e, Cls::Hspace);
            let e2 = crate::parser::scan::scan_back_while(s, h2, e1, Cls::Is('#'));
            let e3 = crate::parser::scan::scan_back_while(s, h2, e2, Cls::Hspace);
            if e3 > h2 {
                Some((e, HeaderModel::Atx { level: n, text: spec_stream_spans(s, h2, e3) }))
            } else {
                None
            }
        } else {
            None
        }
    }
}

/// Whether the line `[a, b)` is an underline line: horizontal whitespace, a
/// nonempty run of `=` (level one) or `-` (level two), horizontal whitespace,
/// and nothing else.  Yields the level and the length of the run, which the
/// text renderer re-emits.
pub open spec fn spec_underline_line(s: Seq<char>, a: int, b: int) -> Option<(int, int)> {
    if !(0 <= a <= b <= s.len()) {
        None
    } else {
        let u0 = scan_while(s, a, b, Cls::Hspace);
        if u0 < b && (s[u0] == '=' || s[u0] == '-') {
            let lev: int = if s[u0] == '=' {
                1
            } else {
                2
            };
            let u1 = scan_while(s, u0, b, Cls::Is(s[u0]));
            let u2 = scan_while(s, u1, b, Cls::Hspace);
            if u2 == b {
                Some((lev, u1 - u0))
            } else {
                None
            }
        } else {
            None
        }
    }
}

/// Walks the lines from `a` looking for the first underline line.  An empty
/// line is a hard stop: text separated from a later underline by a blank
/// line is a paragraph, never a heading.  Yields the underline line's start,
/// end, level and length.
pub open spec fn spec_setext_scan(s: Seq<char>, a: int, end: int) -> Option<(int, int, int, int)>
    decreases end - a,
{
    if !(0 <= a < end <= s.len()) {
        None
    } else {
        let b = scan_while(s, a, end, Cls::Not('\n'));
        if b == a {
            None
        } else {
            match spec_underline_line(s, a, b) {
                Some((lev, ln)) => Some((a, b, lev, ln)),
                None => if b < end {
                    spec_setext_scan(s, clamped(b + 1, a + 1, end), end)
                } else {
                    None
                },
            }
        }
    }
}

/// An underlined heading: the first underline line after at least one line
/// of content, with no blank line in between.  The content before the line
/// feed that precedes the underline is parsed for inline markup; the
/// underline line is consumed, its trailing line feed is not.
pub open spec fn spec_setext(s: Seq<char>, i: int, end: int) -> Option<(int, HeaderModel)> {
    if !(0 <= i < end <= s.len()) {
        None
    } else {
        match spec_setext_scan(s, i, end) {
            Some((a, b, lev, ln)) => if i < a - 1 <= end {
                Some(
                    (
                        b,
                        HeaderModel::Setext {
                            level: lev,
                            level_len: ln,
                            text: spec_stream_spans(s, i, a - 1),
                        },
                    ),
                )
            } else {
                None
            },
            None => None,
        }
    }
}

/// Heading levels are what the grammar can mark: one to six from a `#` run,
/// and only one or two from an underline.
pub proof fn lemma_heading_levels(s: Seq<char>, i: int, end: int)
    requires
        0 <= i <= end <= s.len(),
    ensures
        spec_atx(s, i, end) matches Some(x) ==> (x.1 matches HeaderModel::Atx { level, .. } && 1
            <= level <= 6),
        spec_setext(s, i, end) matches Some(x) ==> (x.1 matches HeaderModel::Setext {
            level,
            level_len,
            ..
        } && (level == 1 || level == 2) && level_len >= 1),
{
    if i < end {
        lemma_setext_scan_props(s, i, end);
    }
}


// ---------- paragraphs ----------

/// Whether a paragraph terminator stands at `j`: a line feed followed by
/// another line feed or by a character that can begin a heading block.
pub open spec fn spec_terminator_at(s: Seq<char>, j: int, end: int) -> bool {
    0 <= j && j + 1 < end <= s.len() && s[j] == '\n' && (s[j + 1] == '\n' || s[j + 1] == '=' || s[j
        + 1] == '-' || s[j + 1] == '#')
}

/// The first paragraph terminator at or after `i`, if any.
pub open spec fn spec_find_term(s: Seq<char>, i: int, end: int) -> Option<int>
    decreases end - i,
{
    if !(0 <= i < end <= s.len()) {
        None
    } else if spec_terminator_at(s, i, end) {
        Some(i)
    } else if i + 1 < end {
        spec_find_term(s, i + 1, end)
    } else {
        None
    }
}

/// A paragraph: the nonempty inline stream up to the first terminator,
/// which is left unconsumed, or up to the end of the span when there is
/// none.
pub open spec fn spec_paragraph(s: Seq<char>, i: int, end: int) -> Option<(int, Seq<SpanModel>)> {
    if !(0 <= i < end <= s.len()) {
        None
    } else {
        match spec_find_term(s, i, end) {
            Some(j) => if j > i {
                Some((j, spec_stream_spans(s, i, j)))
            } else {
                None
            },
            None => Some((end, spec_stream_spans(s, i, end))),
        }
    }
}

// ---------- blocks and the document ----------

/// One block, by fixed priority: a run of line feeds is a separator; then an
/// underlined heading, then a `#`-marked heading; and otherwise a paragraph.
pub open spec fn spec_block(s: Seq<char>, i: int, end: int) -> Option<(int, BlockModel)> {
    if !(0 <= i < end <= s.len()) {
        None
    } else if s[i] == '\n' {
        let j = scan_while(s, i, end, Cls::Is('\n'));
        Some((j, BlockModel::Separator(j - i)))
    } else {
        match spec_setext(s, i, end) {
            Some((j, h)) => Some((j, BlockModel::Heading(h))),
            None => match spec_atx(s, i, end) {
                Some((j, h)) => Some((j, BlockModel::Heading(h))),
                None => match spec_paragraph(s, i, end) {
                    Some((j, sp)) => Some((j, BlockModel::Paragraph(sp))),
                    None => None,
                },
            },
        }
    }
}

/// The blocks of the whole document, one after another.
pub open spec fn spec_blocks(s: Seq<char>, i: int, end: int) -> Seq<BlockModel>
    decreases end - i,
{
    if !(0 <= i < end <= s.len()) {
        Seq::empty()
    } else {
        match spec_block(s, i, end) {
            Some((j, b)) => {
                let j2 = clamped(j, i + 1, end);
                seq![b] + if j2 == end {
                    Seq::<BlockModel>::empty()
                } else {
                    spec_blocks(s, j2, end)
                }
            },
            None => Seq::empty(),
        }
    }
}

// ---------- bounds and progress of the grammar ----------

/// An inline code span ends inside the span and consumes something.
pub proof fn lemma_code_range(s: Seq<char>, i: int, end: int)
    requires
        0 <= i <= end <= s.len(),
    ensures
        spec_code(s, i, end) matches Some(x) ==> i < x.0 <= end,
{
    if i < end && s[i] == '`' {
        crate::parser::scan::lemma_scan_while(s, i + 1, end, Cls::Not('`'));
    }
}

/// An automatic link ends inside the span and consumes something.
pub proof fn lemma_autolink_range(s: Seq<char>, i: int, end: int)
    requires
        0 <= i <= end <= s.len(),
    ensures
        spec_autolink(s, i, end) matches Some(x) ==> i < x.0 <= end,
{
    if i < end && s[i] == '<' {
        let m = if match_word_ci(s, i + 1, end, mailto_word()) {
            i + 8
        } else {
            i + 1
        };
        crate::parser::scan::lemma_scan_while(s, m, end, Cls::Not('@'));
        let a = scan_while(s, m, end, Cls::Not('@'));
        if a < end && a > m {
            crate::parser::scan::lemma_scan_while(s, a + 1, end, Cls::Not('>'));
        }
        let sc = if match_word_ci(s, i + 1, end, https_word()) {
            i + 6
        } else if match_word_ci(s, i + 1, end, http_word()) {
            i + 5
        } else if match_word_ci(s, i + 1, end, ftp_word()) {
            i + 4
        } else if match_word_ci(s, i + 1, end, dict_word()) {
            i + 5
        } else {
            end + 1
        };
        if sc < end && s[sc] == ':' {
            crate::parser::scan::lemma_scan_while(s, sc + 1, end, Cls::AutolinkBody);
        }
    }
}

/// A reference tail ends inside the span and consumes something.
pub proof fn lemma_ref_tail_range(s: Seq<char>, p: int, end: int)
    requires
        0 <= p <= end <= s.len(),
    ensures
        spec_ref_tail(s, p, end) matches Some(x) ==> p < x.0 <= end,
{
    let p2 = if p < end && s[p] == ' ' {
        p + 1
    } else {
        p
    };
    if p2 < end && s[p2] == '\n' {
        crate::parser::scan::lemma_scan_while(s, p2 + 1, end, Cls::Hspace);
    }
    let p3 = if p2 < end && s[p2] == '\n' {
        scan_while(s, p2 + 1, end, Cls::Hspace)
    } else {
        p2
    };
    if p3 < end && s[p3] == '[' {
        crate::parser::scan::lemma_scan_while(s, p3 + 1, end, Cls::Not(']'));
    }
}

/// The optional title never moves backward nor out of the span.
pub proof fn lemma_opt_title_range(s: Seq<char>, t: int, end: int)
    requires
        0 <= t <= end <= s.len(),
    ensures
        t <= spec_opt_title(s, t, end).0 <= end,
{
    if t < end && (s[t] == '"' || s[t] == '\'') {
        crate::parser::scan::lemma_scan_while(s, t + 1, end, Cls::Not(s[t]));
    }
}

/// An inline link tail ends inside the span and consumes something.
pub proof fn lemma_link_inline_tail_range(s: Seq<char>, p: int, end: int)
    requires
        0 <= p <= end <= s.len(),
    ensures
        spec_link_inline_tail(s, p, end) matches Some(x) ==> p < x.0 <= end,
{
    let p2 = if p < end && s[p] == ' ' {
        p + 1
    } else {
        p
    };
    if p2 < end && s[p2] == '(' {
        crate::parser::scan::lemma_scan_while(s, p2 + 1, end, Cls::Multispace);
        let m = scan_while(s, p2 + 1, end, Cls::Multispace);
        let j = clamped(spec_nested_parens(s, m, end), m, end);
        crate::parser::scan::lemma_scan_while(s, j, end, Cls::Multispace);
        let t1 = scan_while(s, j, end, Cls::Multispace);
        lemma_opt_title_range(s, t1, end);
        let (t2, _) = spec_opt_title(s, t1, end);
        crate::parser::scan::lemma_scan_while(s, t2, end, Cls::Multispace);
    }
}

/// An inline image tail ends inside the span and consumes something.
pub proof fn lemma_image_inline_tail_range(s: Seq<char>, p: int, end: int)
    requires
        0 <= p <= end <= s.len(),
    ensures
        spec_image_inline_tail(s, p, end) matches Some(x) ==> p < x.0 <= end,
{
    let p2 = if p < end && s[p] == ' ' {
        p + 1
    } else {
        p
    };
    if p2 < end && s[p2] == '(' {
        crate::parser::scan::lemma_scan_while(s, p2 + 1, end, Cls::Multispace);
        let m = scan_while(s, p2 + 1, end, Cls::Multispace);
        let j = clamped(spec_nested_parens(s, m, end), m, end);
        crate::parser::scan::lemma_scan_while(s, j, end, Cls::Multispace);
        let t1 = scan_while(s, j, end, Cls::Multispace);
        lemma_opt_title_range(s, t1, end);
        let (t2a, title) = spec_opt_title(s, t1, end);
        if title is Some {
            crate::parser::scan::lemma_scan_while(s, t2a, end, Cls::Multispace);
        }
    }
}

/// An image ends inside the span and consumes something.
pub proof fn lemma_image_range(s: Seq<char>, i: int, end: int)
    requires
        0 <= i <= end <= s.len(),
    ensures
        spec_image(s, i, end) matches Some(x) ==> i < x.0 <= end,
{
    if i + 2 <= end && s[i] == '!' && s[i + 1] == '[' {
        let k = clamped(spec_nested_brackets(s, i + 2, end), i + 2, end);
        if k < end && s[k] == ']' {
            lemma_ref_tail_range(s, k + 1, end);
            lemma_image_inline_tail_range(s, k + 1, end);
        }
    }
}

/// A link ends inside the span and consumes something.
pub proof fn lemma_link_range(s: Seq<char>, i: int, end: int)
    requires
        0 <= i <= end <= s.len(),
    ensures
        spec_link(s, i, end) matches Some(x) ==> i < x.0 <= end,
{
    if i < end && s[i] == '[' {
        let k = clamped(spec_nested_brackets(s, i + 1, end), i + 1, end);
        if k < end && s[k] == ']' && k > i + 1 {
            lemma_ref_tail_range(s, k + 1, end);
            lemma_link_inline_tail_range(s, k + 1, end);
        }
    }
}

/// On a nonempty span the inline parser always yields a span and always
/// makes progress.
pub proof fn lemma_md_text_progress(s: Seq<char>, i: int, end: int)
    requires
        0 <= i < end <= s.len(),
    ensures
        spec_md_text(s, i, end) is Some,
        spec_md_text(s, i, end) matches Some(x) ==> i < x.0 <= end,
{
    crate::parser::scan::lemma_scan_while(s, i, end, Cls::Peek);
    lemma_image_range(s, i, end);
    lemma_link_range(s, i, end);
    lemma_code_range(s, i, end);
    lemma_autolink_range(s, i, end);
    let r = scan_while(s, i, end, Cls::Peek);
    if r == i + 1 && s[i] == '\n' {
        assert(cls_holds(Cls::Multispace, s[i]));
        assert(scan_while(s, i, end, Cls::Multispace) == scan_while(s, i + 1, end, Cls::Multispace));
        crate::parser::scan::lemma_scan_while(s, i + 1, end, Cls::Multispace);
    }
    crate::parser::scan::lemma_scan_while(s, i, end, Cls::PlainText);
}

/// A `#`-marked heading ends inside the span and consumes something.
pub proof fn lemma_atx_range(s: Seq<char>, i: int, end: int)
    requires
        0 <= i <= end <= s.len(),
    ensures
        spec_atx(s, i, end) matches Some(x) ==> i < x.0 <= end,
{
    crate::parser::scan::lemma_scan_while(s, i, end, Cls::Hspace);
    let h0 = scan_while(s, i, end, Cls::Hspace);
    crate::parser::scan::lemma_scan_while(s, h0, end, Cls::Is('#'));
    let h1 = scan_while(s, h0, end, Cls::Is('#'));
    if 1 <= h1 - h0 <= 6 {
        crate::parser::scan::lemma_scan_while(s, h1, end, Cls::Hspace);
        let h2 = scan_while(s, h1, end, Cls::Hspace);
        crate::parser::scan::lemma_scan_while(s, h2, end, Cls::Not('\n'));
    }
}

/// What the underline search yields: a line inside the span, after the
/// start or after a line feed, with a positive recorded length.
pub proof fn lemma_setext_scan_props(s: Seq<char>, a: int, end: int)
    requires
        0 <= a < end <= s.len(),
    ensures
        spec_setext_scan(s, a, end) matches Some(x) ==> {
            let (a2, b, lev, ln) = x;
            a <= a2 < b <= end && 1 <= ln <= b - a2 && (lev == 1 || lev == 2) && (a2 == a
                || s[a2 - 1] == '\n')
        },
        spec_setext_scan(s, a, end) matches Some(x) ==> forall|m: int|
            x.0 <= m < x.1 ==> s[m] != '\n',
        spec_setext_scan(s, a, end) matches Some(x) ==> spec_underline_line(s, x.0, x.1) == Some(
            (x.2, x.3),
        ),
        spec_setext_scan(s, a, end) matches Some(x) ==> (x.1 < end ==> s[x.1] == '\n'),
        spec_setext_scan(s, a, end) matches Some(x) ==> forall|m: int|
            a <= m < x.0 ==> !(#[trigger] s[m] == '\n' && m + 1 < end && s[m + 1] == '\n'),
    decreases end - a,
{
    let b = scan_while(s, a, end, Cls::Not('\n'));
    crate::parser::scan::lemma_scan_while(s, a, end, Cls::Not('\n'));
    if b > a {
        match spec_underline_line(s, a, b) {
            Some(_) => {
                let u0 = scan_while(s, a, b, Cls::Hspace);
                crate::parser::scan::lemma_scan_while(s, a, b, Cls::Hspace);
                crate::parser::scan::lemma_scan_while(s, u0, b, Cls::Is(s[u0]));
                assert(cls_holds(Cls::Is(s[u0]), s[u0]));
            },
            None => {
                if b + 1 < end {
                    assert(s[b] == '\n');
                    lemma_setext_scan_props(s, b + 1, end);
                    match spec_setext_scan(s, b + 1, end) {
                        Some(x) => {
                            assert forall|m: int| a <= m < x.0 implies !(#[trigger] s[m] == '\n'
                                && m + 1 < end && s[m + 1] == '\n') by {
                                if m < b {
                                    assert(s[m] != '\n');
                                } else if m == b {
                                    // the next line is nonempty, so the
                                    // character after this line feed is not
                                    // another line feed
                                    let b2 = scan_while(s, b + 1, end, Cls::Not('\n'));
                                    crate::parser::scan::lemma_scan_while(
                                        s,
                                        b + 1,
                                        end,
                                        Cls::Not('\n'),
                                    );
                                    assert(b2 > b + 1);
                                    assert(s[b + 1] != '\n');
                                }
                            }
                        },
                        None => {},
                    }
                }
            },
        }
    }
}

/// An underlined heading ends inside the span and consumes something.
pub proof fn lemma_setext_range(s: Seq<char>, i: int, end: int)
    requires
        0 <= i <= end <= s.len(),
    ensures
        spec_setext(s, i, end) matches Some(x) ==> i < x.0 <= end,
{
    if i < end {
        lemma_setext_scan_props(s, i, end);
    }
}

/// A blank line is a hard stop for the underline search: an underlined
/// heading never reaches past an empty line, so text separated from a later
/// underline by a blank line stays a paragraph.
pub proof fn lemma_setext_blank_line_stops(s: Seq<char>, i: int, end: int, p: int)
    requires
        0 <= i < end <= s.len(),
        i <= p,
        p + 1 < end,
        s[p] == '\n',
        s[p + 1] == '\n',
    ensures
        spec_setext(s, i, end) matches Some(x) ==> x.0 <= p,
{
    lemma_setext_scan_props(s, i, end);
    match spec_setext_scan(s, i, end) {
        Some(x) => {
            let (a, b, lev, ln) = x;
            if b > p {
                if p < a {
                    assert(!(s[p] == '\n' && p + 1 < end && s[p + 1] == '\n'));
                } else {
                    assert(a <= p < b);
                    assert(s[p] != '\n');
                }
            }
        },
        None => {},
    }
}


/// What the terminator search yields: the first terminator of the span.
pub proof fn lemma_find_term_props(s: Seq<char>, i: int, end: int)
    requires
        0 <= i <= end <= s.len(),
    ensures
        spec_find_term(s, i, end) matches Some(j) ==> i <= j < end && spec_terminator_at(s, j, end)
            && forall|k: int| i <= k < j ==> !spec_terminator_at(s, k, end),
        spec_find_term(s, i, end) is None ==> forall|k: int|
            i <= k < end ==> !spec_terminator_at(s, k, end),
    decreases end - i,
{
    if i < end && !spec_terminator_at(s, i, end) {
        if i + 1 < end {
            lemma_find_term_props(s, i + 1, end);
        } else {
            assert forall|k: int| i <= k < end implies !spec_terminator_at(s, k, end) by {
                assert(k == i);
            }
        }
    }
}

/// A paragraph ends inside the span and consumes something.
pub proof fn lemma_paragraph_range(s: Seq<char>, i: int, end: int)
    requires
        0 <= i <= end <= s.len(),
    ensures
        spec_paragraph(s, i, end) matches Some(x) ==> i < x.0 <= end,
{
    if i < end {
        lemma_find_term_props(s, i, end);
    }
}

/// On a nonempty span the block parser always yields a block and always
/// makes progress.
pub proof fn lemma_block_progress(s: Seq<char>, i: int, end: int)
    requires
        0 <= i < end <= s.len(),
    ensures
        spec_block(s, i, end) is Some,
        spec_block(s, i, end) matches Some(x) ==> i < x.0 <= end,
{
    if s[i] == '\n' {
        assert(cls_holds(Cls::Is('\n'), s[i]));
        assert(scan_while(s, i, end, Cls::Is('\n')) == scan_while(s, i + 1, end, Cls::Is('\n')));
        crate::parser::scan::lemma_scan_while(s, i + 1, end, Cls::Is('\n'));
    } else {
        lemma_setext_range(s, i, end);
        lemma_atx_range(s, i, end);
        lemma_paragraph_range(s, i, end);
        lemma_find_term_props(s, i, end);
        match spec_find_term(s, i, end) {
            Some(j) => {
                assert(!spec_terminator_at(s, i, end));
                assert(j > i);
            },
            None => {},
        }
    }
}

// ---------- the source spans of the blocks ----------

/// The source span of each block of `spec_blocks`, in order.
pub open spec fn spec_block_spans(s: Seq<char>, i: int, end: int) -> Seq<(int, int)>
    decreases end - i,
{
    if !(0 <= i < end <= s.len()) {
        Seq::empty()
    } else {
        match spec_block(s, i, end) {
            Some((j, b)) => {
                let j2 = clamped(j, i + 1, end);
                seq![(i, j2)] + if j2 == end {
                    Seq::<(int, int)>::empty()
                } else {
                    spec_block_spans(s, j2, end)
                }
            },
            None => Seq::empty(),
        }
    }
}

/// The blocks of a document tile its text exactly: their source spans are
/// nonempty, adjoin one another, start at the start, end at the end, and
/// each block is precisely the parse of its own span.
pub proof fn lemma_blocks_partition(s: Seq<char>, i: int, end: int)
    requires
        0 <= i <= end <= s.len(),
    ensures
        ({
            let sp = spec_block_spans(s, i, end);
            let bs = spec_blocks(s, i, end);
            &&& sp.len() == bs.len()
            &&& (i < end ==> sp.len() >= 1)
            &&& (i >= end ==> sp.len() == 0)
            &&& (sp.len() > 0 ==> sp[0].0 == i && sp[sp.len() - 1].1 == end)
            &&& (forall|k: int| 0 <= k < sp.len() ==> i <= #[trigger] sp[k].0 < sp[k].1 <= end)
            &&& (forall|k: int| 0 <= k < sp.len() - 1 ==> #[trigger] sp[k].1 == sp[k + 1].0)
            &&& (forall|k: int|
                0 <= k < sp.len() ==> spec_block(s, #[trigger] sp[k].0, end) == Some(
                    (sp[k].1, bs[k]),
                ))
        }),
    decreases end - i,
{
    if i < end {
        lemma_block_progress(s, i, end);
        let (j, b) = spec_block(s, i, end)->Some_0;
        let sp = spec_block_spans(s, i, end);
        let bs = spec_blocks(s, i, end);
        if j == end {
            assert(sp =~= seq![(i, j)]);
            assert(bs =~= seq![b]);
        } else {
            lemma_blocks_partition(s, j, end);
            let sp2 = spec_block_spans(s, j, end);
            let bs2 = spec_blocks(s, j, end);
            assert(sp =~= seq![(i, j)] + sp2);
            assert(bs =~= seq![b] + bs2);
            assert forall|k: int| 0 <= k < sp.len() implies i <= #[trigger] sp[k].0 < sp[k].1
                <= end by {
                if k > 0 {
                    assert(sp[k] == sp2[k - 1]);
                }
            }
            assert forall|k: int| 0 <= k < sp.len() - 1 implies #[trigger] sp[k].1 == sp[k
                + 1].0 by {
                if k > 0 {
                    assert(sp[k] == sp2[k - 1]);
                    assert(sp[k + 1] == sp2[k]);
                } else {
                    assert(sp[1] == sp2[0]);
                }
            }
            assert forall|k: int| 0 <= k < sp.len() implies spec_block(s, #[trigger] sp[k].0, end)
                == Some((sp[k].1, bs[k])) by {
                if k > 0 {
                    assert(sp[k] == sp2[k - 1]);
                    assert(bs[k] == bs2[k - 1]);
                }
            }
        }
    }
}

} // verus!
