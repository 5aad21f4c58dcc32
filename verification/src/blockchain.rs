//! A fork: an ordered sequence of blocks, extended only at the tail.

use vstd::prelude::*;
use crate::block::{Block, BlockV, blocks_view};

verus! {

pub struct Blockchain {
    pub blocks: Vec<Block>,
}

impl View for Blockchain {
    type V = Seq<BlockV>;

    open spec fn view(&self) -> Seq<BlockV> {
        blocks_view(self.blocks@)
    }
}

/// Every block of the chain is notarized.
pub open spec fn all_notarized(c: Seq<BlockV>) -> bool {
    forall|i: int| 0 <= i < c.len() ==> c[i].notarized
}

/// Every block except possibly the last is notarized.
pub open spec fn notarized_except_last(c: Seq<BlockV>) -> bool {
    forall|i: int| 0 <= i < c.len() - 1 ==> c[i].notarized
}

impl Blockchain {
    /// A fresh fork holding exactly one block.
    pub fn new(init_block: Block) -> (r: Blockchain)
        ensures
            r@ == seq![init_block@],
    {
        let mut blocks: Vec<Block> = Vec::new();
        let ghost b = init_block@;
        blocks.push(init_block);
        let r = Blockchain { blocks };
        proof {
            assert(r@ =~= seq![b]);
        }
        r
    }

    /// Appends a copy of `block` at the tail.
    pub fn add_block(&mut self, block: &Block)
        ensures
            final(self)@ == old(self)@.push(block@),
    {
        self.blocks.push(block.deep_clone());
        proof {
            assert(self@ =~= old(self)@.push(block@));
        }
    }

    /// Whether this fork is notarized: every block carries the mark.
    pub fn is_notarized(&self) -> (r: bool)
        ensures
            r == all_notarized(self@),
    {
        let mut i: usize = 0;
        while i < self.blocks.len()
            invariant
                i <= self.blocks@.len(),
                forall|j: int| 0 <= j < i ==> self@[j].notarized,
            decreases self.blocks@.len() - i,
        {
            if !self.blocks[i].metadata.sm.notarized {
                proof {
                    assert(!self@[i as int].notarized);
                }
                return false;
            }
            i = i + 1;
        }
        true
    }

    /// A deep copy whose view equals this fork's view.
    pub fn deep_clone(&self) -> (r: Blockchain)
        ensures
            r@ == self@,
    {
        let mut blocks: Vec<Block> = Vec::new();
        let mut i: usize = 0;
        while i < self.blocks.len()
            invariant
                i <= self.blocks@.len(),
                blocks@.len() == i,
                forall|j: int| 0 <= j < i ==> blocks@[j]@ == self.blocks@[j]@,
            decreases self.blocks@.len() - i,
        {
            blocks.push(self.blocks[i].deep_clone());
            i = i + 1;
        }
        let r = Blockchain { blocks };
        proof {
            assert(r@ =~= self@);
        }
        r
    }
}

/// The views of a sequence of forks.
pub open spec fn chains_view(cs: Seq<Blockchain>) -> Seq<Seq<BlockV>> {
    cs.map(|i: int, c: Blockchain| c@)
}

} // verus!
