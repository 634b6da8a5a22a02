use md2md::parser::code::parse_inline_code;
use md2md::parser::util::MarkdownText;
use md2md::str_chars;

#[test]
fn inline_code() {
    let v = str_chars("`abxy`");
    let (j, code) = parse_inline_code(&v, 0, v.len()).unwrap();
    assert_eq!(j, v.len());
    assert_eq!(
        code,
        MarkdownText::Code {
            code: "abxy".to_string()
        }
    );
}

#[test]
fn just_a_tick() {
    let v = str_chars("`abxy");
    assert!(parse_inline_code(&v, 0, v.len()).is_none());
}

#[test]
fn across_lines() {
    let v = str_chars("`inline\ncode\nhere`");
    let (j, code) = parse_inline_code(&v, 0, v.len()).unwrap();
    assert_eq!(j, v.len());
    assert_eq!(
        code,
        MarkdownText::Code {
            code: "inline\ncode\nhere".to_string()
        }
    );
}

#[test]
fn empty_code_span_fails() {
    let v = str_chars("``");
    assert!(parse_inline_code(&v, 0, v.len()).is_none());
}
