use md2md::parser::links::{parse_auto_link, parse_link, AutoLink, Link, RefOrInline};
use md2md::parser::util::{nested_brackets, nested_parenthesis};
use md2md::parser::util::MarkdownText::Text;
use md2md::str_chars;

#[test]
fn links_parse_inline() {
    let v = str_chars("[foo](https://github.com/)\n");
    let (j, link) = parse_link(&v, 0, v.len()).unwrap();
    assert_eq!(j, v.len() - 1);
    assert_eq!(
        link,
        Link {
            link_text: vec![Text("foo".to_string())],
            link_ref: RefOrInline::Inline("https://github.com/".to_string()),
            title: None,
        }
    );
}

#[test]
fn links_parse_ref() {
    let v = str_chars("[foo][foo_link]\n");
    let (j, link) = parse_link(&v, 0, v.len()).unwrap();
    assert_eq!(j, v.len() - 1);
    assert_eq!(
        link,
        Link {
            link_text: vec![Text("foo".to_string())],
            link_ref: RefOrInline::Ref("foo_link".to_string()),
            title: None,
        }
    );
}

#[test]
fn parse_with_brackets() {
    let v = str_chars("[foo [bar]](https://lib.rs)");
    let (j, link) = parse_link(&v, 0, v.len()).unwrap();
    assert_eq!(j, v.len());
    assert_eq!(
        link,
        Link {
            link_text: vec![
                Text("foo ".to_string()),
                Text("[".to_string()),
                Text("bar".to_string()),
                Text("]".to_string()),
            ],
            link_ref: RefOrInline::Inline("https://lib.rs".to_string()),
            title: None,
        }
    );
}

#[test]
fn auto_link() {
    let v = str_chars("<https://lib.rs>");
    let (j, link) = parse_auto_link(&v, 0, v.len()).unwrap();
    assert_eq!(j, v.len());
    assert_eq!(
        link,
        AutoLink {
            target: "https://lib.rs".to_string()
        }
    );
}

#[test]
fn auto_link_email() {
    let v = str_chars("<noreply@example.com>");
    let (j, link) = parse_auto_link(&v, 0, v.len()).unwrap();
    assert_eq!(j, v.len());
    assert_eq!(
        link,
        AutoLink {
            target: "mailto:noreply@example.com".to_string()
        }
    );
}

#[test]
fn auto_link_email_mailto() {
    let v = str_chars("<mailto:noreply@example.com>");
    let (j, link) = parse_auto_link(&v, 0, v.len()).unwrap();
    assert_eq!(j, v.len());
    assert_eq!(
        link,
        AutoLink {
            target: "mailto:noreply@example.com".to_string()
        }
    );
}

#[test]
fn not_auto_link() {
    let v = str_chars("<noreply>");
    assert!(parse_auto_link(&v, 0, v.len()).is_none());
}

#[test]
fn auto_link_scheme_case_is_kept() {
    let v = str_chars("<HTTPS://Lib.rs>");
    let (j, link) = parse_auto_link(&v, 0, v.len()).unwrap();
    assert_eq!(j, v.len());
    assert_eq!(
        link,
        AutoLink {
            target: "HTTPS://Lib.rs".to_string()
        }
    );
}

#[test]
fn balancer_stops_at_matching_close() {
    // balanced brackets: the balancer consumes exactly up to the matching
    // top-level closing bracket
    let v = str_chars("ab[cd]e]f");
    assert_eq!(nested_brackets(&v, 0, v.len()), 7);
    // unbalanced: an unclosed group is left unconsumed, without failing
    let w = str_chars("ab[cd");
    assert_eq!(nested_brackets(&w, 0, w.len()), 2);
    let x = str_chars("]at once");
    assert_eq!(nested_brackets(&x, 0, x.len()), 0);
}

#[test]
fn parenthesis_balancer_nests() {
    let v = str_chars("a(b(c))d)e");
    assert_eq!(nested_parenthesis(&v, 0, v.len()), 8);
}
