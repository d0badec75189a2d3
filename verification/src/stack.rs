//! The runtime stack of currently open blocks.

use vstd::prelude::*;
use crate::field::{fadd, Felt};

verus! {

/// Address bookkeeping of one open block: its own trace address and the
/// address of its parent block.
#[derive(Clone, Copy)]
pub struct BlockInfo {
    pub addr: Felt,
    pub parent_addr: Felt,
}

/// The stack of currently open blocks, innermost last.
pub struct BlockStack {
    blocks: Vec<BlockInfo>,
}

impl BlockStack {
    /// The open blocks, outermost first.
    pub closed spec fn view(self) -> Seq<BlockInfo> {
        self.blocks@
    }

    /// An empty block stack.
    pub fn new() -> (r: BlockStack)
        ensures
            r@ == Seq::<BlockInfo>::empty(),
    {
        BlockStack { blocks: Vec::new() }
    }

    /// Opens a block at `addr` and returns the parent's address: the
    /// address of the block below it, or zero for the root block.
    pub fn push(&mut self, addr: Felt) -> (parent: Felt)
        ensures
            final(self)@ == old(self)@.push(BlockInfo { addr, parent_addr: parent }),
            old(self)@.len() == 0 ==> parent.val() == 0,
            old(self)@.len() > 0 ==> parent == old(self)@.last().addr,
    {
        let parent_addr = if self.blocks.is_empty() {
            Felt::zero()
        } else {
            self.blocks[self.blocks.len() - 1].addr
        };
        self.blocks.push(BlockInfo { addr, parent_addr });
        parent_addr
    }

    /// Closes the innermost open block. Popping an empty stack is a
    /// programmer error, unreachable by construction.
    pub fn pop(&mut self) -> (r: BlockInfo)
        requires
            old(self)@.len() > 0,
        ensures
            r == old(self)@.last(),
            final(self)@ == old(self)@.drop_last(),
    {
        let r = self.blocks.pop();
        match r {
            Some(info) => info,
            None => unreached(),
        }
    }

    /// The address of the innermost open block.
    pub fn peek_addr(&self) -> (r: Felt)
        requires
            self@.len() > 0,
        ensures
            r == self@.last().addr,
    {
        self.blocks[self.blocks.len() - 1].addr
    }

    /// The parent address of the innermost open block.
    pub fn peek_parent(&self) -> (r: Felt)
        requires
            self@.len() > 0,
        ensures
            r == self@.last().parent_addr,
    {
        self.blocks[self.blocks.len() - 1].parent_addr
    }

    /// Advances the innermost block's address by `delta`: used when a span
    /// moves to its next op batch, whose hashing starts eight rows later.
    pub fn advance_addr(&mut self, delta: Felt)
        requires
            old(self)@.len() > 0,
        ensures
            final(self)@.len() == old(self)@.len(),
            final(self)@ == old(self)@.update(
                old(self)@.len() - 1,
                BlockInfo {
                    addr: final(self)@.last().addr,
                    parent_addr: old(self)@.last().parent_addr,
                },
            ),
            final(self)@.last().addr.val() == fadd(old(self)@.last().addr.val(), delta.val()),
            final(self)@.last().parent_addr == old(self)@.last().parent_addr,
    {
        let i = self.blocks.len() - 1;
        let info = self.blocks[i];
        let updated = BlockInfo { addr: info.addr.add(delta), parent_addr: info.parent_addr };
        self.blocks.set(i, updated);
    }

    /// The number of open blocks.
    pub fn depth(&self) -> (r: usize)
        ensures
            r == self@.len(),
    {
        self.blocks.len()
    }
}

} // verus!
