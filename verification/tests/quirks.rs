use md2md::parser::block::Block;
use md2md::parser::links::{parse_link, Link, RefOrInline};
use md2md::parser::paragraphs::Paragraph;
use md2md::parser::util::MarkdownText;
use md2md::parser::util::MarkdownText::Text;
use md2md::{str_chars, Markdown};

#[test]
fn link_after_newline_stays_literal() {
    // the inline dispatcher recognizes a bracket only when the run of
    // special characters ahead is exactly one; after a line feed the run is
    // two, and the rest of the span becomes literal text
    let doc = Markdown::parse("foo\n[bar](x)").unwrap();
    assert_eq!(
        doc.blocks,
        [Block::Paragraph(Paragraph {
            text: vec![Text("foo".to_string()), Text("\n[bar](x)".to_string())]
        })]
    );
}

#[test]
fn double_bang_stays_literal() {
    let doc = Markdown::parse("!![x](y)").unwrap();
    assert_eq!(
        doc.blocks,
        [Block::Paragraph(Paragraph {
            text: vec![Text("!![x](y)".to_string())]
        })]
    );
}

#[test]
fn quoted_title_is_part_of_the_destination() {
    // the destination balancer runs to the closing parenthesis, so a quoted
    // title is kept inside the destination rather than parsed apart
    let v = str_chars("[a](url \"t\")");
    let (j, link) = parse_link(&v, 0, v.len()).unwrap();
    assert_eq!(j, v.len());
    assert_eq!(
        link,
        Link {
            link_text: vec![Text("a".to_string())],
            link_ref: RefOrInline::Inline("url \"t\"".to_string()),
            title: None,
        }
    );
}

#[test]
fn empty_link_text_fails() {
    let v = str_chars("[](x)");
    assert!(parse_link(&v, 0, v.len()).is_none());
}

#[test]
fn reference_may_follow_on_the_next_line() {
    let v = str_chars("[a]\n [r]");
    let (j, link) = parse_link(&v, 0, v.len()).unwrap();
    assert_eq!(j, v.len());
    assert_eq!(
        link,
        Link {
            link_text: vec![Text("a".to_string())],
            link_ref: RefOrInline::Ref("r".to_string()),
            title: None,
        }
    );
}

#[test]
fn link_text_may_hold_a_nested_link() {
    let v = str_chars("[a [b](u)](v)");
    let (j, link) = parse_link(&v, 0, v.len()).unwrap();
    assert_eq!(j, v.len());
    assert_eq!(
        link,
        Link {
            link_text: vec![
                Text("a ".to_string()),
                MarkdownText::Link(Link {
                    link_text: vec![Text("b".to_string())],
                    link_ref: RefOrInline::Inline("u".to_string()),
                    title: None,
                }),
            ],
            link_ref: RefOrInline::Inline("v".to_string()),
            title: None,
        }
    );
}
