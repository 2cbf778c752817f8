//! Parsing a text into a typed syntax tree.
use vstd::prelude::*;
use crate::ast::{block_text, same_block, wf_block, Block};
use crate::builder::{block_error, builds_block};
use crate::grammar::parse_tree;
use crate::laws::{lemma_block_built_once, lemma_block_round_trip, lemma_block_wf};
use crate::tree::{block_layout, Node, ParseError, Rule};

verus! {

/// Parses a text into a block: the grammar gives a parse tree, and the
/// builder turns it into a block. A block that comes out prints back as
/// exactly the text that went in and is well formed. The printed text of
/// a well-formed block parses, into a block that is the same as the one
/// that `choose` picks among the well-formed blocks printing as that text.
pub fn parse_block(source: &str) -> (r: Result<Block, ParseError>)
    ensures
        match r {
            Ok(b) => block_text(b) == source@ && wf_block(b) && exists|n: Node|
                n.rule == Rule::Block && n.text@ == source@ && block_layout(n) && block_error(n)
                    is None && #[trigger] builds_block(n, b),
            Err(e) => e is GrammarMismatch || exists|n: Node|
                n.rule == Rule::Block && n.text@ == source@ && block_layout(n)
                    && #[trigger] block_error(n) == Some(e),
        },
        (exists|b: Block| wf_block(b) && #[trigger] block_text(b) == source@) ==> r is Ok
            && same_block(
            r->Ok_0,
            choose|b: Block| wf_block(b) && #[trigger] block_text(b) == source@,
        ),
{
    let tree = match parse_tree(source) {
        Ok(n) => n,
        Err(e) => {
            return Err(e);
        },
    };
    let r = Block::from(&tree);
    proof {
        if r is Ok {
            lemma_block_round_trip(tree, r->Ok_0);
            lemma_block_wf(tree, r->Ok_0);
            if exists|b: Block| wf_block(b) && #[trigger] block_text(b) == source@ {
                let b0 = choose|b: Block| wf_block(b) && #[trigger] block_text(b) == source@;
                lemma_block_built_once(tree, r->Ok_0, b0);
            }
        }
    }
    r
}

} // verus!
