use vstd::prelude::*;

use crate::parser::grammar::spec_code;
use crate::parser::scan::{copy_range, scan, Cls};
use crate::parser::util::{span_res_matches, MarkdownText};

verus! {

/// An inline code span: a backtick, the shortest nonempty run of characters
/// (line feeds included) up to the next backtick, and that backtick.  A
/// backtick with no closer fails.
pub fn parse_inline_code(s: &Vec<char>, i: usize, end: usize) -> (r: Option<(usize, MarkdownText)>)
    requires
        i <= end <= s@.len(),
    ensures
        span_res_matches(r, spec_code(s@, i as int, end as int)),
{
    if i < end && s[i] == '`' {
        let q = scan(s, i + 1, end, Cls::Not('`'));
        if q < end && q > i + 1 {
            let body = copy_range(s, i + 1, q);
            Some((q + 1, MarkdownText::Code { code: body }))
        } else {
            None
        }
    } else {
        None
    }
}

} // verus!
