use md2md::parser::block::Block;
use md2md::parser::headers::{parse_header, setext_header, Header, HeadingLevel};
use md2md::parser::paragraphs::{find_next, take_until_match, Paragraph};
use md2md::parser::util::MarkdownText;
use md2md::parser::util::MarkdownText::Text;
use md2md::{str_chars, Markdown};

#[test]
fn test_atx_header() {
    let v = str_chars("#Hello, World!\n");
    let (j, heading) = parse_header(&v, 0, v.len()).unwrap();
    // the line feed after the heading line is left unconsumed
    assert_eq!(j, v.len() - 1);
    assert_eq!(
        heading,
        Header::AtxHeader {
            level: HeadingLevel::H1,
            text: vec![Text("Hello, World".to_string()), Text("!".to_string())],
        }
    );
}

#[test]
fn test_setext_header_h1() {
    let v = str_chars("Hello, World!\n============\n");
    let (j, header) = setext_header(&v, 0, v.len()).unwrap();
    assert_eq!(j, v.len() - 1);
    assert_eq!(
        header,
        Header::SetextHeader {
            level: HeadingLevel::H1,
            level_len: 12,
            text: vec![Text("Hello, World".to_string()), Text("!".to_string())],
        }
    );
}

#[test]
fn test_setext_header_h2() {
    let v = str_chars("Hello, World!\n------------");
    let (j, header) = setext_header(&v, 0, v.len()).unwrap();
    assert_eq!(j, v.len());
    assert_eq!(
        header,
        Header::SetextHeader {
            level: HeadingLevel::H2,
            level_len: 12,
            text: vec![Text("Hello, World".to_string()), Text("!".to_string())],
        }
    );
}

#[test]
fn test_atx_embedded() {
    let v = str_chars("# this isn't a link: [foo]");
    let (j, header) = parse_header(&v, 0, v.len()).unwrap();
    assert_eq!(j, v.len());
    let inner = str_chars("this isn't a link: [foo]");
    let (k, spans) =
        MarkdownText::parse_markdown_text_stream(&inner, 0, inner.len()).unwrap();
    assert_eq!(k, inner.len());
    assert_eq!(
        header,
        Header::AtxHeader {
            level: HeadingLevel::H1,
            text: spans,
        }
    );
}

#[test]
fn atx_scenario_whole_document() {
    let doc = Markdown::parse("#Hello, World!\n").unwrap();
    assert_eq!(
        doc.blocks,
        [
            Block::Heading(Header::AtxHeader {
                level: HeadingLevel::H1,
                text: vec![Text("Hello, World".to_string()), Text("!".to_string())],
            }),
            Block::Separator(1),
        ]
    );
}

#[test]
fn setext_scenario_whole_document() {
    let doc = Markdown::parse("Hello, World!\n============\n").unwrap();
    assert_eq!(
        doc.blocks,
        [
            Block::Heading(Header::SetextHeader {
                level: HeadingLevel::H1,
                level_len: 12,
                text: vec![Text("Hello, World".to_string()), Text("!".to_string())],
            }),
            Block::Separator(1),
        ]
    );
}

#[test]
fn seven_hashes_are_no_heading() {
    let v = str_chars("####### deep");
    assert!(parse_header(&v, 0, v.len()).is_none());
    let doc = Markdown::parse("####### deep").unwrap();
    assert_eq!(
        doc.blocks,
        [Block::Paragraph(Paragraph {
            text: vec![Text("####### deep".to_string())]
        })]
    );
}

#[test]
fn atx_trailing_hashes_are_stripped() {
    let v = str_chars("## middle ##  ");
    let (j, heading) = parse_header(&v, 0, v.len()).unwrap();
    assert_eq!(j, v.len());
    assert_eq!(
        heading,
        Header::AtxHeader {
            level: HeadingLevel::H2,
            text: vec![Text("middle".to_string())],
        }
    );
}

#[test]
fn setext_blank_line_is_a_hard_stop() {
    // the underline search never crosses a blank line: the text before it
    // stays a paragraph, and only the later lines form a heading
    let doc = Markdown::parse("test\n\nfoo\n---").unwrap();
    assert_eq!(
        doc.blocks,
        [
            Block::Paragraph(Paragraph {
                text: vec![Text("test".to_string())]
            }),
            Block::Separator(2),
            Block::Heading(Header::SetextHeader {
                level: HeadingLevel::H2,
                level_len: 3,
                text: vec![Text("foo".to_string())],
            }),
        ]
    );
    // called on the whole input, the underline search itself also fails
    let v = str_chars("test\n\nfoo\n---");
    assert!(setext_header(&v, 0, v.len()).is_none());
}

#[test]
fn find_next_reports_the_first_terminator() {
    let v = str_chars("ab\ncd\n\nef\n# g");
    assert_eq!(find_next(&v, 0, v.len()), Some(5));
    assert_eq!(find_next(&v, 6, v.len()), Some(9));
    let w = str_chars("no terminator here");
    assert_eq!(find_next(&w, 0, w.len()), None);
}

#[test]
fn take_until_match_finds_the_underline_line() {
    let v = str_chars("one\ntwo\n === \nrest");
    // the underline line spans characters eight to thirteen, marks level
    // one, and the recorded length is that of its `=` run alone
    assert_eq!(take_until_match(&v, 0, v.len()), Some((8, 13, 1, 3)));
    let w = str_chars("one\n\n===");
    assert_eq!(take_until_match(&w, 0, w.len()), None);
}
