use vstd::prelude::*;

use crate::normalize::{
    lemma_detab_tab_free_identity, lemma_normalize_newlines_identity,
    lemma_strip_space_lines_identity, lemma_strip_subst_identity, spec_cleanup,
};
use crate::parser::grammar::{
    lemma_block_progress, lemma_find_term_props, lemma_md_text_progress, lemma_setext_scan_props,
    spec_atx, spec_block, spec_blocks, spec_find_term, spec_md_text, spec_paragraph, spec_setext,
    spec_setext_scan, spec_stream_spans, spec_terminator_at, spec_underline_line, BlockModel,
    HeaderModel, SpanModel,
};
use crate::parser::scan::{clamped, cls_holds, lemma_scan_while, scan_while, Cls};
use crate::render::{
    block_text, char_run, doc_text, header_text, lemma_doc_text_concat, lemma_spans_text_concat,
    span_text, spans_text,
};

verus! {

// The round-trip law, on the documents where it holds exactly: paragraphs,
// blank-line separators and underlined headings, over characters that carry
// no inline markup meaning, with every `=` or `-` standing in a whole-line
// unpadded run.  For such text the normalizer changes nothing and rendering
// the parsed document reproduces the input character for character.
// (Outside this class the renderer is canonical rather than literal:
// `#Hello` re-renders as `# Hello`, a bare mail autolink gains its
// `mailto:` prefix, a soft break collapses the whitespace it consumed to
// one line feed, and a padded underline re-renders as its run alone.)

/// A character with no markup meaning to the block or inline grammar, and
/// untouched by the normalizer.
pub open spec fn plain_char(c: char) -> bool {
    !(c == '\n' || c == '\r' || c == '\t' || c == '[' || c == ']' || c == '<' || c == '>' || c
        == '!' || c == '`' || c == '#' || c == '=' || c == '-' || c == '\u{FEFF}' || c
        == '\u{1A}')
}

/// A character that merely extends a text run inside the inline parser:
/// it starts no dispatch and stops no run, so it survives a parse/render
/// round trip literally.  (Every plain character is inert; `#`, `=` and
/// `-` are inert too, since only the block grammar reads them.)
pub open spec fn inert_char(c: char) -> bool {
    !(c == '\n' || c == '\r' || c == '\t' || c == '[' || c == ']' || c == '<' || c == '>' || c
        == '!' || c == '`')
}

/// A plain document: every character is plain, a line feed, or part of an
/// underline; each `=` or `-` has only its own character or a line boundary
/// beside it, so underlines are whole-line unpadded runs; no space follows
/// a line feed; and the text does not begin with a space (so no line
/// consists of spaces alone).
pub open spec fn plain_doc(s: Seq<char>) -> bool {
    &&& forall|k: int|
        0 <= k < s.len() ==> plain_char(#[trigger] s[k]) || s[k] == '\n' || s[k] == '=' || s[k]
            == '-'
    &&& forall|k: int| 0 <= k < s.len() - 1 && #[trigger] s[k] == '\n' ==> s[k + 1] != ' '
    &&& (s.len() > 0 ==> s[0] != ' ')
    &&& forall|k: int|
        0 <= k < s.len() && (#[trigger] s[k] == '=' || s[k] == '-') ==> (k == 0 || s[k - 1] == s[k]
            || s[k - 1] == '\n') && (k + 1 == s.len() || s[k + 1] == s[k] || s[k + 1] == '\n')
}

/// On a span of inert characters and lone line feeds never followed by a
/// space, the inline stream renders back to exactly the span.
proof fn lemma_plain_stream(s: Seq<char>, i: int, end: int)
    requires
        0 <= i < end <= s.len(),
        forall|k: int| i <= k < end ==> inert_char(#[trigger] s[k]) || s[k] == '\n',
        forall|k: int|
            i <= k < end - 1 && #[trigger] s[k] == '\n' ==> s[k + 1] != '\n' && s[k + 1] != ' ',
    ensures
        spans_text(spec_stream_spans(s, i, end)) == s.subrange(i, end),
    decreases end - i,
{
    lemma_md_text_progress(s, i, end);
    let (j, sp) = spec_md_text(s, i, end)->Some_0;
    if s[i] == '\n' {
        // the dispatch run is exactly one line feed, and the soft break
        // consumes exactly that line feed
        crate::parser::scan::lemma_scan_while_unique(s, i, end, Cls::Peek, if i + 1 < end
            && cls_holds(Cls::Peek, s[i + 1]) {
            i + 2
        } else {
            i + 1
        });
        if i + 1 < end {
            assert(inert_char(s[i + 1]) || s[i + 1] == '\n');
            assert(s[i + 1] != '\n');
            assert(!cls_holds(Cls::Peek, s[i + 1]));
            assert(!cls_holds(Cls::Multispace, s[i + 1]));
        }
        crate::parser::scan::lemma_scan_while_unique(s, i, end, Cls::Multispace, i + 1);
        assert(spec_md_text(s, i, end) == Some((i + 1, SpanModel::SoftBreak)));
        assert(span_text(sp) =~= s.subrange(i, i + 1));
    } else {
        // a plain-text run up to the next line feed or the end
        assert(inert_char(s[i]));
        assert(!cls_holds(Cls::Peek, s[i]));
        crate::parser::scan::lemma_scan_while_unique(s, i, end, Cls::Peek, i);
        let j0 = scan_while(s, i, end, Cls::PlainText);
        lemma_scan_while(s, i, end, Cls::PlainText);
        assert(cls_holds(Cls::PlainText, s[i]));
        assert(j0 > i);
        assert(spec_md_text(s, i, end) == Some((j0, SpanModel::Text(s.subrange(i, j0)))));
        assert(span_text(sp) == s.subrange(i, j));
    }
    let (j2, sp2) = spec_md_text(s, i, end)->Some_0;
    assert(clamped(j2, i + 1, end) == j2);
    if j2 == end {
        assert(spec_stream_spans(s, i, end) =~= seq![sp2]);
        assert(spans_text(seq![sp2]) =~= span_text(sp2) + spans_text(
            Seq::<SpanModel>::empty(),
        )) by {
            assert(seq![sp2].drop_first() =~= Seq::<SpanModel>::empty());
        }
        assert(spans_text(spec_stream_spans(s, i, end)) =~= s.subrange(i, end));
    } else {
        lemma_plain_stream(s, j2, end);
        assert(spec_stream_spans(s, i, end) =~= seq![sp2] + spec_stream_spans(s, j2, end));
        lemma_spans_text_concat(seq![sp2], spec_stream_spans(s, j2, end));
        assert(spans_text(seq![sp2]) =~= span_text(sp2) + spans_text(
            Seq::<SpanModel>::empty(),
        )) by {
            assert(seq![sp2].drop_first() =~= Seq::<SpanModel>::empty());
        }
        assert(s.subrange(i, j2) + s.subrange(j2, end) =~= s.subrange(i, end));
        assert(spans_text(spec_stream_spans(s, i, end)) =~= s.subrange(i, end));
    }
}

/// On a plain document the blocks render back to exactly the text they were
/// parsed from.  `i` is a block boundary: the start, the end, or a position
/// at or just after a line feed.
proof fn lemma_plain_blocks(s: Seq<char>, i: int)
    requires
        plain_doc(s),
        0 <= i <= s.len(),
        i == 0 || i >= s.len() || s[i] == '\n' || s[i - 1] == '\n',
    ensures
        doc_text(spec_blocks(s, i, s.len() as int)) == s.subrange(i, s.len() as int),
    decreases s.len() - i,
{
    let end = s.len() as int;
    if i >= end {
        assert(s.subrange(i, end) =~= Seq::<char>::empty());
        return ;
    }
    lemma_block_progress(s, i, end);
    let (j, b) = spec_block(s, i, end)->Some_0;
    if s[i] == '\n' {
        lemma_scan_while(s, i, end, Cls::Is('\n'));
        let j0 = scan_while(s, i, end, Cls::Is('\n'));
        assert(block_text(b) =~= s.subrange(i, j0));
        assert(s[j0 - 1] == '\n');
    } else {
        // no `#` anywhere in the class, so no `#`-marked heading
        let h0 = scan_while(s, i, end, Cls::Hspace);
        lemma_scan_while(s, i, end, Cls::Hspace);
        let h1 = scan_while(s, h0, end, Cls::Is('#'));
        lemma_scan_while(s, h0, end, Cls::Is('#'));
        if h1 > h0 {
            assert(s[h0] == '#');
            assert(plain_char(s[h0]) || s[h0] == '\n' || s[h0] == '=' || s[h0] == '-');
            assert(false);
        }
        assert(spec_atx(s, i, end) is None);
        match spec_setext(s, i, end) {
            Some((bj, h)) => {
                // an underlined heading: its underline line is an unpadded
                // run in this class, so the heading renders back exactly
                lemma_setext_scan_props(s, i, end);
                let (a, ub, lev, ln) = spec_setext_scan(s, i, end)->Some_0;
                let u0 = scan_while(s, a, ub, Cls::Hspace);
                lemma_scan_while(s, a, ub, Cls::Hspace);
                if u0 > a {
                    // the line cannot begin with a space: it follows a line
                    // feed or begins the document
                    assert(cls_holds(Cls::Hspace, s[a]));
                    assert(plain_char(s[a]) || s[a] == '\n' || s[a] == '=' || s[a] == '-');
                    assert(s[a] == ' ');
                    if a == i {
                        assert(i == 0 || s[i - 1] == '\n');
                    } else {
                        assert(s[a - 1] == '\n');
                    }
                    assert(false);
                }
                let u1 = scan_while(s, u0, ub, Cls::Is(s[u0]));
                lemma_scan_while(s, u0, ub, Cls::Is(s[u0]));
                let u2 = scan_while(s, u1, ub, Cls::Hspace);
                lemma_scan_while(s, u1, ub, Cls::Hspace);
                assert(spec_underline_line(s, a, ub) == Some((lev, ln)));
                assert(s[u0] == '=' || s[u0] == '-');
                if u1 < ub {
                    // nor can a space follow the run
                    assert(u2 == ub);
                    assert(cls_holds(Cls::Hspace, s[u1]));
                    assert(plain_char(s[u1]) || s[u1] == '\n' || s[u1] == '=' || s[u1] == '-');
                    assert(s[u1] == ' ');
                    assert(u1 > u0);
                    assert(s[u1 - 1] == s[u0]);
                    assert(false);
                }
                let c: char = if lev == 1 {
                    '='
                } else {
                    '-'
                };
                assert(s[u0] == c);
                assert forall|k: int| a <= k < ub implies #[trigger] s[k] == c by {
                    assert(cls_holds(Cls::Is(s[u0 as int]), s[k]));
                }
                assert forall|k: int| i <= k < a - 1 implies inert_char(#[trigger] s[k]) || s[k]
                    == '\n' by {
                    assert(plain_char(s[k]) || s[k] == '\n' || s[k] == '=' || s[k] == '-');
                }
                lemma_setext_render_exact(s, i, end);
                assert(j == bj);
                assert(block_text(b) =~= s.subrange(i, j));
                assert(j == ub);
            },
            None => {
                // a paragraph, bounded by the first terminator
                lemma_find_term_props(s, i, end);
                match spec_find_term(s, i, end) {
                    Some(q) => {
                        assert(spec_terminator_at(s, q, end));
                        assert(s[q] == '\n');
                        assert(q > i);
                        assert forall|k: int|
                            i <= k < q - 1 && #[trigger] s[k] == '\n' implies s[k + 1] != '\n'
                            && s[k + 1] != ' ' by {
                            if s[k + 1] == '\n' {
                                assert(spec_terminator_at(s, k, end));
                            }
                        }
                        assert(spec_paragraph(s, i, end) == Some((q, spec_stream_spans(s, i, q))));
                        if q - 1 > i && s[q - 1] == '\n' {
                            assert(spec_terminator_at(s, q - 1, end));
                            assert(false);
                        }
                        assert forall|k: int| i <= k < q implies inert_char(#[trigger] s[k]) || s[k]
                            == '\n' by {
                            assert(plain_char(s[k]) || s[k] == '\n' || s[k] == '=' || s[k] == '-');
                        }
                        lemma_plain_stream(s, i, q);
                    },
                    None => {
                        assert forall|k: int|
                            i <= k < end - 1 && #[trigger] s[k] == '\n' implies s[k + 1] != '\n'
                            && s[k + 1] != ' ' by {
                            if s[k + 1] == '\n' {
                                assert(spec_terminator_at(s, k, end));
                            }
                        }
                        assert forall|k: int| i <= k < end implies inert_char(#[trigger] s[k])
                            || s[k] == '\n' by {
                            assert(plain_char(s[k]) || s[k] == '\n' || s[k] == '=' || s[k] == '-');
                        }
                        lemma_plain_stream(s, i, end);
                    },
                }
                assert(block_text(b) =~= s.subrange(i, j));
            },
        }
    }
    // the next block begins at a block boundary again
    assert(j == end || s[j] == '\n' || s[j - 1] == '\n') by {
        if s[i] == '\n' {
        } else {
            match spec_setext(s, i, end) {
                Some(_) => {
                    lemma_setext_scan_props(s, i, end);
                },
                None => {
                    lemma_find_term_props(s, i, end);
                },
            }
        }
    }
    // chain the remaining blocks
    assert(clamped(j, i + 1, end) == j);
    if j == end {
        assert(spec_blocks(s, i, end) =~= seq![b]);
        assert(doc_text(seq![b]) =~= block_text(b) + doc_text(Seq::<BlockModel>::empty())) by {
            assert(seq![b].drop_first() =~= Seq::<BlockModel>::empty());
        }
        assert(doc_text(spec_blocks(s, i, end)) =~= s.subrange(i, end));
    } else {
        lemma_plain_blocks(s, j);
        assert(spec_blocks(s, i, end) =~= seq![b] + spec_blocks(s, j, end));
        lemma_doc_text_concat(seq![b], spec_blocks(s, j, end));
        assert(doc_text(seq![b]) =~= block_text(b) + doc_text(Seq::<BlockModel>::empty())) by {
            assert(seq![b].drop_first() =~= Seq::<BlockModel>::empty());
        }
        assert(s.subrange(i, j) + s.subrange(j, end) =~= s.subrange(i, end));
        assert(doc_text(spec_blocks(s, i, end)) =~= s.subrange(i, end));
    }
}

/// The per-heading round trip for underlined headings: where the heading's
/// text holds only inert characters and lone line feeds never followed by a
/// space, and its underline carries no padding, the heading renders back to
/// exactly the text it was parsed from.  (A padded underline renders
/// canonically, as just its run.)
pub proof fn lemma_setext_render_exact(s: Seq<char>, i: int, end: int)
    requires
        0 <= i < end <= s.len(),
        spec_setext_scan(s, i, end) is Some,
        ({
            let (a, b, lev, ln) = spec_setext_scan(s, i, end)->Some_0;
            &&& i < a - 1
            &&& (forall|k: int| i <= k < a - 1 ==> inert_char(#[trigger] s[k]) || s[k] == '\n')
            &&& (forall|k: int|
                i <= k < a - 2 && #[trigger] s[k] == '\n' ==> s[k + 1] != ' ')
            &&& (forall|k: int|
                a <= k < b ==> #[trigger] s[k] == (if lev == 1 {
                    '='
                } else {
                    '-'
                }))
        }),
    ensures
        spec_setext(s, i, end) matches Some(y) && header_text(y.1) == s.subrange(i, y.0),
{
    lemma_setext_scan_props(s, i, end);
    let (a, b, lev, ln) = spec_setext_scan(s, i, end)->Some_0;
    let c: char = if lev == 1 {
        '='
    } else {
        '-'
    };
    // the unpadded underline is one run, so its recorded length is the line
    crate::parser::scan::lemma_scan_while_unique(s, a, b, Cls::Hspace, a);
    crate::parser::scan::lemma_scan_while_unique(s, a, b, Cls::Is(s[a]), b);
    assert(spec_underline_line(s, a, b) == Some((lev, b - a)));
    assert(ln == b - a);
    // the heading's text renders back to exactly the content region
    assert forall|k: int|
        i <= k < a - 1 - 1 && #[trigger] s[k] == '\n' implies s[k + 1] != '\n' && s[k + 1]
        != ' ' by {
        assert(!(s[k] == '\n' && k + 1 < end && s[k + 1] == '\n'));
    }
    lemma_plain_stream(s, i, a - 1);
    let y = spec_setext(s, i, end)->Some_0;
    assert(y.0 == b);
    assert(y.1 == HeaderModel::Setext { level: lev, level_len: ln, text: spec_stream_spans(s, i, a - 1) });
    assert(char_run(c, ln) =~= s.subrange(a, b));
    assert(s[a - 1] == '\n');
    assert(header_text(y.1) =~= s.subrange(i, a - 1) + seq!['\n'] + s.subrange(a, b));
    assert(s.subrange(i, a - 1) + seq!['\n'] + s.subrange(a, b) =~= s.subrange(i, b));
}

/// The round-trip law on plain documents — paragraphs, blank-line
/// separators and underlined headings over characters with no inline markup
/// meaning: normalization changes nothing, and rendering the parsed
/// document as text reproduces the input exactly.
pub proof fn lemma_plain_round_trip(s: Seq<char>, w: int)
    requires
        1 <= w,
        plain_doc(s),
    ensures
        spec_cleanup(s, w) == s,
        doc_text(spec_blocks(s, 0, s.len() as int)) == s,
{
    assert(crate::normalize::spec_strip_bom(s) == s);
    lemma_strip_subst_identity(s);
    lemma_normalize_newlines_identity(s);
    lemma_detab_tab_free_identity(s, w, 0);
    lemma_strip_space_lines_identity(s);
    lemma_plain_blocks(s, 0);
    assert(s.subrange(0, s.len() as int) =~= s);
}

} // verus!
