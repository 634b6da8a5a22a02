//! A verified engine for a Markdown-family dialect: a text normalizer, a
//! block and inline parser producing a document model, and renderers from
//! that model back to canonical Markdown text or to HTML.  Every function's
//! behaviour is stated against specification functions over character
//! sequences and proved; the grammar itself lives in `parser::grammar`.

use vstd::prelude::*;
use vstd::string::StrSliceExecFns;

pub mod normalize;
pub mod parser;
pub mod render;
pub mod roundtrip;

use crate::parser::block::{blocks_view, lemma_blocks_view_push, parse_block, Block};
use crate::parser::grammar::{lemma_block_progress, spec_block, spec_blocks, BlockModel};

verus! {

/// Collects the characters of a string slice into a vector, so that the
/// verified text routines can scan and index them directly.
pub fn str_chars(s: &str) -> (v: Vec<char>)
    ensures
        v@ == s@,
{
    let n = s.unicode_len();
    let mut v: Vec<char> = Vec::new();
    let mut i: usize = 0;
    while i < n
        invariant
            i <= n,
            n == s@.len(),
            v@ == s@.take(i as int),
        decreases n - i,
    {
        let c = s.get_char(i);
        v.push(c);
        i = i + 1;
        proof {
            assert(v@ =~= s@.take(i as int));
        }
    }
    proof {
        assert(s@.take(n as int) =~= s@);
    }
    v
}

/// Relies on `String: FromIterator<char>`: collecting characters yields the
/// string made of exactly those characters in order.
#[verifier::external_body]
pub fn chars_string(v: &Vec<char>) -> (s: String)
    ensures
        s@ == v@,
{
    v.iter().collect()
}

/// Writes itself as canonical Markdown text into a growing character
/// buffer.  `text_repr` is the exact text the writer appends.
pub trait AsText {
    /// The text this node renders to.
    spec fn text_repr(&self) -> Seq<char>;

    /// Appends the node's text form to the output buffer.
    fn write_as_text(&self, output: &mut Vec<char>)
        ensures
            final(output)@ == old(output)@ + self.text_repr(),
    ;
}

/// Writes itself as HTML into a growing character buffer.  `html_repr` is
/// the exact text the writer appends.
pub trait AsHtml {
    /// The HTML this node renders to.
    spec fn html_repr(&self) -> Seq<char>;

    /// Appends the node's HTML form to the output buffer.
    fn write_html(&self, output: &mut Vec<char>)
        ensures
            final(output)@ == old(output)@ + self.html_repr(),
    ;
}

/// Normalizes a document before parsing: removes a byte-order mark and
/// substitute characters, turns every line ending into a line feed, expands
/// tabs against tab stops every `tab_width` columns, and blanks lines that
/// hold only spaces.  It never fails.
pub fn cleanup(data: &str, tab_width: usize) -> (r: String)
    requires
        1 <= tab_width,
    ensures
        r@ == crate::normalize::spec_cleanup(data@, tab_width as int),
{
    let v = str_chars(data);
    let out = crate::normalize::cleanup_chars(&v, tab_width);
    chars_string(&out)
}

/// The failure of the block segmenter: at this character offset no block
/// alternative could consume anything.  On terminated text this arises only
/// for empty input, since a paragraph accepts any other content.
#[derive(Debug, PartialEq, Eq, Clone, Copy)]
pub struct ParseError {
    /// The character offset at which no block could be read.
    pub offset: usize,
}

/// The character of one decimal digit.
pub open spec fn spec_digit(d: int) -> char {
    if d == 0 {
        '0'
    } else if d == 1 {
        '1'
    } else if d == 2 {
        '2'
    } else if d == 3 {
        '3'
    } else if d == 4 {
        '4'
    } else if d == 5 {
        '5'
    } else if d == 6 {
        '6'
    } else if d == 7 {
        '7'
    } else if d == 8 {
        '8'
    } else {
        '9'
    }
}

/// The decimal numeral of `n`, most significant digit first.
pub open spec fn spec_decimal(n: int) -> Seq<char>
    decreases n,
{
    if n < 10 {
        seq![spec_digit(if n < 0 {
            0
        } else {
            n
        })]
    } else {
        spec_decimal(n / 10) + seq![spec_digit(n % 10)]
    }
}

fn digit_char(d: usize) -> (c: char)
    requires
        d < 10,
    ensures
        c == spec_digit(d as int),
{
    if d == 0 {
        '0'
    } else if d == 1 {
        '1'
    } else if d == 2 {
        '2'
    } else if d == 3 {
        '3'
    } else if d == 4 {
        '4'
    } else if d == 5 {
        '5'
    } else if d == 6 {
        '6'
    } else if d == 7 {
        '7'
    } else if d == 8 {
        '8'
    } else {
        '9'
    }
}

/// Appends the decimal numeral of `n`.
fn push_decimal(out: &mut Vec<char>, n: usize)
    ensures
        final(out)@ == old(out)@ + spec_decimal(n as int),
    decreases n,
{
    if n < 10 {
        let c = digit_char(n);
        out.push(c);
        proof {
            assert(out@ =~= old(out)@ + spec_decimal(n as int));
        }
    } else {
        push_decimal(out, n / 10);
        let c = digit_char(n % 10);
        out.push(c);
        proof {
            assert(out@ =~= old(out)@ + spec_decimal(n as int));
        }
    }
}

impl ParseError {
    /// The failure in words, naming the character offset it carries.
    pub fn describe(&self) -> (r: String)
        ensures
            r@ == "no block could be read at character offset "@ + spec_decimal(
                self.offset as int,
            ),
    {
        let mut v = str_chars("no block could be read at character offset ");
        push_decimal(&mut v, self.offset);
        chars_string(&v)
    }
}

/// A parsed representation of a Markdown document: its blocks, in order.
#[derive(Debug, PartialEq, Eq)]
pub struct Markdown {
    pub blocks: Vec<Block>,
}

impl View for Markdown {
    type V = Seq<BlockModel>;

    open spec fn view(&self) -> Seq<BlockModel> {
        blocks_view(self.blocks@)
    }
}

impl Markdown {
    /// Parses a whole document into one or more blocks.  Any nonempty input
    /// parses (the paragraph rule accepts whatever the heading rules do
    /// not); empty input is the one failure.  The blocks' source spans tile
    /// the input exactly (`lemma_blocks_partition`).
    pub fn parse(input: &str) -> (r: Result<Markdown, ParseError>)
        ensures
            input@.len() > 0 ==> (r matches Ok(d) && d@ == spec_blocks(
                input@,
                0,
                input@.len() as int,
            )),
            input@.len() == 0 ==> (r matches Err(e) && e.offset == 0),
    {
        let v = str_chars(input);
        let n = v.len();
        if n == 0 {
            return Err(ParseError { offset: 0 });
        }
        let mut blocks: Vec<Block> = Vec::new();
        let mut cur: usize = 0;
        proof {
            assert(blocks_view(blocks@) =~= Seq::<BlockModel>::empty());
            assert(blocks_view(blocks@) + spec_blocks(v@, 0, n as int) =~= spec_blocks(
                v@,
                0,
                n as int,
            ));
        }
        while cur < n
            invariant
                cur <= n,
                n == v@.len(),
                v@ == input@,
                blocks_view(blocks@) + spec_blocks(v@, cur as int, n as int) == spec_blocks(
                    v@,
                    0,
                    n as int,
                ),
            decreases n - cur,
        {
            proof {
                lemma_block_progress(v@, cur as int, n as int);
            }
            match parse_block(&v, cur, n) {
                Some((j, b)) => {
                    proof {
                        lemma_blocks_view_push(blocks@, b);
                        let (sj, sb) = spec_block(v@, cur as int, n as int)->Some_0;
                        assert(crate::parser::scan::clamped(sj, cur as int + 1, n as int) == sj);
                        assert(spec_blocks(v@, cur as int, n as int) == seq![sb] + if sj == n as int {
                            Seq::<BlockModel>::empty()
                        } else {
                            spec_blocks(v@, sj, n as int)
                        });
                        assert((blocks_view(blocks@) + seq![b@]) + spec_blocks(v@, sj, n as int)
                            =~= blocks_view(blocks@) + (seq![sb] + spec_blocks(v@, sj, n as int)));
                        if sj == n as int {
                            assert(spec_blocks(v@, sj, n as int) =~= Seq::<BlockModel>::empty());
                            assert(seq![sb] + Seq::<BlockModel>::empty() =~= seq![sb]);
                            assert((blocks_view(blocks@) + seq![b@]) + spec_blocks(v@, sj, n as int)
                                =~= blocks_view(blocks@) + seq![sb]);
                        }
                    }
                    blocks.push(b);
                    cur = j;
                },
                None => {
                    return vstd::pervasive::unreached();
                },
            }
        }
        proof {
            assert(spec_blocks(v@, cur as int, n as int) =~= Seq::<BlockModel>::empty());
            assert(blocks_view(blocks@) + Seq::<BlockModel>::empty() =~= blocks_view(blocks@));
        }
        Ok(Markdown { blocks })
    }
}

} // verus!
