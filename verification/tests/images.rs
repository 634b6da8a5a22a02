use md2md::parser::block::Block;
use md2md::parser::images::{parse_image, Image};
use md2md::parser::links::RefOrInline;
use md2md::parser::paragraphs::Paragraph;
use md2md::parser::util::MarkdownText;
use md2md::{str_chars, Markdown};

#[test]
fn images_parse_inline() {
    let v = str_chars("![foo](https://github.com/favicon.ico)\n");
    let (j, image) = parse_image(&v, 0, v.len()).unwrap();
    assert_eq!(j, v.len() - 1);
    assert_eq!(
        image,
        Image {
            alt_text: "foo".to_string(),
            image_ref: RefOrInline::Inline("https://github.com/favicon.ico".to_string()),
            title: None,
        }
    );
}

#[test]
fn images_parse_ref() {
    let v = str_chars("![foo][foo_image]\n");
    let (j, image) = parse_image(&v, 0, v.len()).unwrap();
    assert_eq!(j, v.len() - 1);
    assert_eq!(
        image,
        Image {
            alt_text: "foo".to_string(),
            image_ref: RefOrInline::Ref("foo_image".to_string()),
            title: None,
        }
    );
}

#[test]
fn image_scenario_whole_document() {
    let doc = Markdown::parse("![foo](https://example.com/x.ico)\n").unwrap();
    assert_eq!(
        doc.blocks,
        [
            Block::Paragraph(Paragraph {
                text: vec![
                    MarkdownText::Image(Image {
                        alt_text: "foo".to_string(),
                        image_ref: RefOrInline::Inline("https://example.com/x.ico".to_string()),
                        title: None,
                    }),
                    MarkdownText::SoftBreak,
                ]
            }),
        ]
    );
}
