use md2md::parser::links::{Link, RefOrInline};
use md2md::parser::util::MarkdownText;
use md2md::{chars_string, cleanup, AsHtml, AsText, Markdown};

fn text_of(doc: &Markdown) -> String {
    let mut out: Vec<char> = Vec::new();
    doc.write_as_text(&mut out);
    chars_string(&out)
}

fn html_of(doc: &Markdown) -> String {
    let mut out: Vec<char> = Vec::new();
    doc.write_html(&mut out);
    chars_string(&out)
}

#[test]
fn plain_paragraphs_round_trip_exactly() {
    let input = "foo\n\nbar";
    let doc = Markdown::parse(&cleanup(input, 4)).unwrap();
    assert_eq!(text_of(&doc), input);
}

#[test]
fn paragraph_with_soft_break_round_trips() {
    let input = "foo\nbar\n";
    let doc = Markdown::parse(&cleanup(input, 4)).unwrap();
    assert_eq!(text_of(&doc), input);
}

#[test]
fn setext_heading_round_trips() {
    let input = "Hello, World!\n============\n";
    let doc = Markdown::parse(input).unwrap();
    assert_eq!(text_of(&doc), input);
}

#[test]
fn atx_heading_renders_with_one_space() {
    let doc = Markdown::parse("#Hello, World!\n").unwrap();
    assert_eq!(text_of(&doc), "# Hello, World!\n");
}

#[test]
fn email_auto_link_renders_normalized() {
    let doc = Markdown::parse("<noreply@example.com>").unwrap();
    assert_eq!(text_of(&doc), "<mailto:noreply@example.com>");
}

#[test]
fn code_and_links_render_in_their_own_syntax() {
    let input = "`code` and [foo](https://lib.rs) and ![a][r]";
    let doc = Markdown::parse(input).unwrap();
    assert_eq!(text_of(&doc), input);
}

#[test]
fn html_heading() {
    let doc = Markdown::parse("#Hello, World!\n").unwrap();
    assert_eq!(html_of(&doc), "<h1>Hello, World!</h1>\n");
}

#[test]
fn html_paragraph_with_auto_link() {
    let doc = Markdown::parse("<noreply@example.com>").unwrap();
    assert_eq!(
        html_of(&doc),
        "<p><a href=\"mailto:noreply@example.com\">mailto:noreply@example.com</a></p>"
    );
}

#[test]
fn html_escapes_text() {
    let doc = Markdown::parse("a & b").unwrap();
    assert_eq!(html_of(&doc), "<p>a &amp; b</p>");
}

#[test]
fn html_code_and_image() {
    let doc = Markdown::parse("`x<y` ![alt](https://e.com/i.png)").unwrap();
    assert_eq!(
        html_of(&doc),
        "<p><code>x&lt;y</code> <img src=\"https://e.com/i.png\" alt=\"alt\"></p>"
    );
}

#[test]
fn html_setext_heading_level_two() {
    let doc = Markdown::parse("title\n---\n").unwrap();
    assert_eq!(html_of(&doc), "<h2>title</h2>\n");
}

#[test]
fn a_stored_title_is_re_emitted() {
    // the parser never yields a title (the destination balancer consumes it
    // into the destination), but a document built by hand keeps it
    let link = MarkdownText::Link(Link {
        link_text: vec![MarkdownText::Text("a".to_string())],
        link_ref: RefOrInline::Inline("u".to_string()),
        title: Some("t".to_string()),
    });
    let mut out: Vec<char> = Vec::new();
    link.write_as_text(&mut out);
    assert_eq!(chars_string(&out), "[a](u \"t\")");
}

#[test]
fn setext_underline_length_is_the_run_length() {
    // a padded underline records the length of its run alone, and the text
    // renderer re-emits exactly that run
    let doc = Markdown::parse("title
 --- 
rest").unwrap();
    assert_eq!(text_of(&doc), "title
---
rest");
}

#[test]
fn document_with_headings_round_trips() {
    let input = "Title\n=====\n\nbody text\nmore\n\nclose\n-\n";
    let doc = Markdown::parse(&cleanup(input, 4)).unwrap();
    assert_eq!(text_of(&doc), input);
}
