use vstd::prelude::*;

use crate::parser::grammar::{spec_block, BlockModel};
use crate::parser::headers::{parse_header, setext_header, Header};
use crate::parser::paragraphs::{parse_paragraph, Paragraph};
use crate::parser::scan::{scan, Cls};

verus! {

/// A block of the document: a paragraph, a heading, or a run of blank
/// lines.
#[derive(Debug, PartialEq, Eq)]
pub enum Block {
    Paragraph(Paragraph),
    Heading(Header),
    Separator(usize),
}

impl View for Block {
    type V = BlockModel;

    open spec fn view(&self) -> BlockModel {
        match self {
            Block::Paragraph(p) => BlockModel::Paragraph(p@),
            Block::Heading(h) => BlockModel::Heading(h@),
            Block::Separator(n) => BlockModel::Separator(*n as int),
        }
    }
}

/// How an executable block result relates to the model the grammar gives.
pub open spec fn block_res_matches(
    r: Option<(usize, Block)>,
    m: Option<(int, BlockModel)>,
) -> bool {
    match (r, m) {
        (Some(x), Some(y)) => x.0 as int == y.0 && x.1@ == y.1,
        (None, None) => true,
        _ => false,
    }
}

/// One block, by fixed priority: a run of line feeds is a separator; then
/// an underlined heading, then a `#`-marked heading; and otherwise a
/// paragraph, which accepts any remaining nonempty content.
pub fn parse_block(s: &Vec<char>, i: usize, end: usize) -> (r: Option<(usize, Block)>)
    requires
        i <= end <= s@.len(),
    ensures
        block_res_matches(r, spec_block(s@, i as int, end as int)),
{
    if i >= end {
        return None;
    }
    if s[i] == '\n' {
        let j = scan(s, i, end, Cls::Is('\n'));
        Some((j, Block::Separator(j - i)))
    } else {
        match setext_header(s, i, end) {
            Some((j, h)) => Some((j, Block::Heading(h))),
            None => match parse_header(s, i, end) {
                Some((j, h)) => Some((j, Block::Heading(h))),
                None => match parse_paragraph(s, i, end) {
                    Some((j, p)) => Some((j, Block::Paragraph(p))),
                    None => None,
                },
            },
        }
    }
}

/// The models of a sequence of blocks, in order.
pub open spec fn blocks_view(v: Seq<Block>) -> Seq<BlockModel>
    decreases v,
{
    if v.len() == 0 {
        Seq::empty()
    } else {
        seq![v[0]@] + blocks_view(v.drop_first())
    }
}

/// `blocks_view` is the element-wise model map.
pub proof fn lemma_blocks_view(v: Seq<Block>)
    ensures
        blocks_view(v).len() == v.len(),
        forall|k: int| 0 <= k < v.len() ==> blocks_view(v)[k] == v[k]@,
    decreases v.len(),
{
    if v.len() > 0 {
        lemma_blocks_view(v.drop_first());
    }
}

/// Appending one block appends its model.
pub proof fn lemma_blocks_view_push(v: Seq<Block>, b: Block)
    ensures
        blocks_view(v.push(b)) == blocks_view(v) + seq![b@],
{
    lemma_blocks_view(v);
    lemma_blocks_view(v.push(b));
    assert(blocks_view(v.push(b)) =~= blocks_view(v) + seq![b@]);
}

} // verus!
