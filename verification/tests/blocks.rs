use md2md::parser::block::{parse_block, Block};
use md2md::parser::headers::{Header, HeadingLevel};
use md2md::parser::paragraphs::Paragraph;
use md2md::parser::util::MarkdownText::{SoftBreak, Text};
use md2md::{str_chars, Markdown};

#[test]
fn block_parse_paragraph() {
    let v = str_chars("just a paragraph");
    let (j, block) = parse_block(&v, 0, v.len()).unwrap();
    assert_eq!(j, v.len());
    assert_eq!(
        block,
        Block::Paragraph(Paragraph {
            text: vec![Text("just a paragraph".to_string())]
        })
    );
}

#[test]
fn block_parse_paragraph_with_trailing_newline() {
    let v = str_chars("just a paragraph\n");
    let (j, block) = parse_block(&v, 0, v.len()).unwrap();
    assert_eq!(j, v.len());
    assert_eq!(
        block,
        Block::Paragraph(Paragraph {
            text: vec![Text("just a paragraph".to_string()), SoftBreak]
        })
    );
}

#[test]
fn block_parse_header() {
    let v = str_chars("# header");
    let (j, block) = parse_block(&v, 0, v.len()).unwrap();
    assert_eq!(j, v.len());
    assert_eq!(
        block,
        Block::Heading(Header::AtxHeader {
            level: HeadingLevel::H1,
            text: vec![Text("header".to_string())],
        })
    );
}

#[test]
fn block_block_stream() {
    let doc = Markdown::parse("# header\nthis is some text").unwrap();
    assert_eq!(
        doc.blocks,
        [
            Block::Heading(Header::AtxHeader {
                level: HeadingLevel::H1,
                text: vec![Text("header".to_string())],
            }),
            Block::Separator(1),
            Block::Paragraph(Paragraph {
                text: vec![Text("this is some text".to_string())]
            }),
        ]
    );
}

#[test]
fn block_neighboring_lines() {
    let doc = Markdown::parse("foo\nbar").unwrap();
    assert_eq!(
        doc.blocks,
        [Block::Paragraph(Paragraph {
            text: vec![Text("foo".to_string()), SoftBreak, Text("bar".to_string())]
        })]
    );
}

#[test]
fn block_separate_paragraphs() {
    let doc = Markdown::parse("foo\n\nbar").unwrap();
    assert_eq!(
        doc.blocks,
        [
            Block::Paragraph(Paragraph {
                text: vec![Text("foo".to_string())]
            }),
            Block::Separator(2),
            Block::Paragraph(Paragraph {
                text: vec![Text("bar".to_string())]
            }),
        ]
    );
}

#[test]
fn trailing_header() {
    let doc = Markdown::parse("foo\n# bar").unwrap();
    assert_eq!(
        doc.blocks,
        [
            Block::Paragraph(Paragraph {
                text: vec![Text("foo".to_string())]
            }),
            Block::Separator(1),
            Block::Heading(Header::AtxHeader {
                level: HeadingLevel::H1,
                text: vec![Text("bar".to_string())],
            }),
        ]
    );
}

#[test]
fn blocks_tile_input() {
    // the parsed blocks' source spans adjoin and cover the input exactly
    let v = str_chars("# title\n\nfirst paragraph\nstill first\n\nsecond");
    let mut cur = 0;
    let mut spans = Vec::new();
    while cur < v.len() {
        let (j, _) = parse_block(&v, cur, v.len()).unwrap();
        assert!(j > cur);
        spans.push((cur, j));
        cur = j;
    }
    assert_eq!(spans.first().unwrap().0, 0);
    assert_eq!(spans.last().unwrap().1, v.len());
    for w in spans.windows(2) {
        assert_eq!(w[0].1, w[1].0);
    }
}

#[test]
fn empty_input_is_an_error() {
    let err = Markdown::parse("").unwrap_err();
    assert_eq!(err, md2md::ParseError { offset: 0 });
    assert_eq!(err.describe(), "no block could be read at character offset 0");
}
