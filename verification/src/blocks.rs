//! The tree of structured code blocks a program compiles to.

use vstd::prelude::*;
use crate::field::Word;
use crate::hasher::{hash_elems_spec, hash_merge, DOMAIN_JOIN, DOMAIN_LOOP, DOMAIN_SPLIT};
use crate::ops::Operation;
use crate::span::{pack_spec, Span};

verus! {

/// Sequential composition of two blocks.
pub struct Join {
    pub first: CodeBlock,
    pub second: CodeBlock,
    pub hash: Word,
}

/// Stack-conditional branch between two blocks.
pub struct Split {
    pub on_true: CodeBlock,
    pub on_false: CodeBlock,
    pub hash: Word,
}

/// Stack-conditional repetition of a body block.
pub struct Loop {
    pub body: CodeBlock,
    pub hash: Word,
}

/// A block of the program tree.
pub enum CodeBlock {
    Span(Span),
    Join(Box<Join>),
    Split(Box<Split>),
    Loop(Box<Loop>),
}

/// The all-zero digest, used as the missing half of a loop's merge.
pub open spec fn zero_word() -> Seq<u64> {
    seq![0u64, 0u64, 0u64, 0u64]
}

impl CodeBlock {
    /// The cached structural digest of the block.
    pub open spec fn hash_spec(self) -> Seq<u64> {
        match self {
            CodeBlock::Span(s) => s.hash_spec(),
            CodeBlock::Join(j) => j.hash.vals(),
            CodeBlock::Split(s) => s.hash.vals(),
            CodeBlock::Loop(l) => l.hash.vals(),
        }
    }

    /// A well-formed block: every cached digest is re-derivable from the
    /// structure alone, by merging child digests under the variant's domain.
    pub open spec fn wf(self) -> bool
        decreases self,
    {
        match self {
            CodeBlock::Span(s) => s.wf(),
            CodeBlock::Join(j) => {
                &&& j.first.wf()
                &&& j.second.wf()
                &&& j.hash.vals() == hash_elems_spec(
                    j.first.hash_spec() + j.second.hash_spec(),
                    DOMAIN_JOIN,
                )
            },
            CodeBlock::Split(s) => {
                &&& s.on_true.wf()
                &&& s.on_false.wf()
                &&& s.hash.vals() == hash_elems_spec(
                    s.on_true.hash_spec() + s.on_false.hash_spec(),
                    DOMAIN_SPLIT,
                )
            },
            CodeBlock::Loop(l) => {
                &&& l.body.wf()
                &&& l.hash.vals() == hash_elems_spec(
                    l.body.hash_spec() + zero_word(),
                    DOMAIN_LOOP,
                )
            },
        }
    }

    /// The nesting height of the block, for termination of the tree walk.
    pub open spec fn height(self) -> nat
        decreases self,
    {
        match self {
            CodeBlock::Span(_) => 0,
            CodeBlock::Join(j) => 1 + if j.first.height() >= j.second.height() {
                j.first.height()
            } else {
                j.second.height()
            },
            CodeBlock::Split(s) => 1 + if s.on_true.height() >= s.on_false.height() {
                s.on_true.height()
            } else {
                s.on_false.height()
            },
            CodeBlock::Loop(l) => 1 + l.body.height(),
        }
    }

    /// Packs `ops` into a span block.
    pub fn new_span(ops: Vec<Operation>) -> (r: CodeBlock)
        ensures
            r.wf(),
            r matches CodeBlock::Span(s) && s.batches_og() == pack_spec(ops@),
    {
        CodeBlock::Span(Span::new(ops))
    }

    /// Builds a join block over its two children.
    pub fn new_join(first: CodeBlock, second: CodeBlock) -> (r: CodeBlock)
        requires
            first.wf(),
            second.wf(),
        ensures
            r.wf(),
            r matches CodeBlock::Join(j) && j.first == first && j.second == second,
    {
        let hash = hash_merge(&first.hash(), &second.hash(), DOMAIN_JOIN);
        CodeBlock::Join(Box::new(Join { first, second, hash }))
    }

    /// Builds a split block over its two branches.
    pub fn new_split(on_true: CodeBlock, on_false: CodeBlock) -> (r: CodeBlock)
        requires
            on_true.wf(),
            on_false.wf(),
        ensures
            r.wf(),
            r matches CodeBlock::Split(s) && s.on_true == on_true && s.on_false == on_false,
    {
        let hash = hash_merge(&on_true.hash(), &on_false.hash(), DOMAIN_SPLIT);
        CodeBlock::Split(Box::new(Split { on_true, on_false, hash }))
    }

    /// Builds a loop block over its body.
    pub fn new_loop(body: CodeBlock) -> (r: CodeBlock)
        requires
            body.wf(),
        ensures
            r.wf(),
            r matches CodeBlock::Loop(l) && l.body == body,
    {
        let zero = Word::zero();
        proof {
            assert(zero.vals() =~= zero_word());
        }
        let hash = hash_merge(&body.hash(), &zero, DOMAIN_LOOP);
        CodeBlock::Loop(Box::new(Loop { body, hash }))
    }

    /// The cached structural digest of the block.
    pub fn hash(&self) -> (r: Word)
        ensures
            r.vals() == self.hash_spec(),
    {
        match self {
            CodeBlock::Span(s) => s.hash(),
            CodeBlock::Join(j) => j.hash,
            CodeBlock::Split(s) => s.hash,
            CodeBlock::Loop(l) => l.hash,
        }
    }
}

} // verus!
