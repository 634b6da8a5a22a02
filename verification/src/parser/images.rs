use vstd::prelude::*;

use crate::parser::grammar::{spec_image, spec_nested_brackets, SpanModel};
use crate::parser::links::{parse_image_inline_tail, parse_ref_tail, RefOrInline};
use crate::parser::scan::{clamped, copy_range};
use crate::parser::util::nested_brackets;

verus! {

/// An image: literal alternative text (never parsed for markup), a target,
/// and an optional quoted title.
#[derive(Debug, PartialEq, Eq)]
pub struct Image {
    pub alt_text: String,
    pub image_ref: RefOrInline,
    pub title: Option<String>,
}

impl View for Image {
    type V = SpanModel;

    open spec fn view(&self) -> SpanModel {
        SpanModel::Image {
            alt: self.alt_text@,
            target: self.image_ref@,
            title: match &self.title {
                Some(t) => Some(t@),
                None => None,
            },
        }
    }
}

/// An image: `![`, literal alternative text balanced over brackets, `]`,
/// then either a bracketed reference identifier or a parenthesized inline
/// destination (the reference form is tried first).
pub fn parse_image(s: &Vec<char>, i: usize, end: usize) -> (r: Option<(usize, Image)>)
    requires
        i <= end <= s@.len(),
    ensures
        match (r, spec_image(s@, i as int, end as int)) {
            (Some(x), Some(y)) => x.0 as int == y.0 && x.1@ == y.1,
            (None, None) => true,
            _ => false,
        },
{
    if i < end && s[i] == '!' && i + 1 < end && s[i + 1] == '[' {
        let k = nested_brackets(s, i + 2, end);
        proof {
            assert(clamped(spec_nested_brackets(s@, i as int + 2, end as int), i as int + 2, end
                as int) == k as int);
        }
        if k < end && s[k] == ']' {
            let alt = copy_range(s, i + 2, k);
            match parse_ref_tail(s, k + 1, end) {
                Some((j, id)) => Some(
                    (j, Image { alt_text: alt, image_ref: RefOrInline::Ref(id), title: None }),
                ),
                None => match parse_image_inline_tail(s, k + 1, end) {
                    Some((j, dest, title)) => Some(
                        (j, Image { alt_text: alt, image_ref: RefOrInline::Inline(dest), title }),
                    ),
                    None => None,
                },
            }
        } else {
            None
        }
    } else {
        None
    }
}

} // verus!
