//! The decoder: owns the block stack and the trace buffer, and turns each
//! event of the tree walk into exactly one trace row.

use vstd::prelude::*;
use crate::blocks::{zero_word, Join, Loop, Split};
use crate::field::{fadd, fmul, Felt, Word, FIELD_MODULUS};
use crate::ops::{Operation, OPCODE_JOIN, OPCODE_LOOP, OPCODE_REPEAT, OPCODE_SPLIT};
use crate::rows::{control_row, end_row, respan_row, span_row, user_row, TraceRow};
use crate::span::{OpBatch, Span};
use crate::stack::{BlockInfo, BlockStack};
use crate::trace::{is_power_of_two, DecoderTrace, MIN_TRACE_LEN};

verus! {

/// The address of the parent of a block about to open: the address of the
/// innermost open block, or zero for the root.
pub open spec fn parent_of(stack: Seq<BlockInfo>) -> u64 {
    if stack.len() == 0 {
        0
    } else {
        stack.last().addr.val()
    }
}

/// The decoder state: the stack of open blocks and the trace built so far.
pub struct Decoder {
    block_stack: BlockStack,
    trace: DecoderTrace,
}

impl Decoder {
    /// The rows of the trace built so far.
    pub closed spec fn rows(self) -> Seq<TraceRow> {
        self.trace.rows()
    }

    /// The open blocks, outermost first.
    pub closed spec fn stack(self) -> Seq<BlockInfo> {
        self.block_stack@
    }

    /// The trace buffer is well-formed.
    pub closed spec fn wf(self) -> bool {
        self.trace.wf()
    }

    /// Every row of a well-formed decoder's trace is well-formed.
    pub proof fn lemma_rows_wf(self)
        requires
            self.wf(),
        ensures
            crate::rows::rows_wf(self.rows()),
    {
        self.trace.lemma_rows_wf();
    }

    /// A fresh decoder: no open block, no trace row.
    pub fn new() -> (r: Decoder)
        ensures
            r.wf(),
            r.rows() == Seq::<TraceRow>::empty(),
            r.stack() == Seq::<BlockInfo>::empty(),
    {
        Decoder { block_stack: BlockStack::new(), trace: DecoderTrace::new() }
    }

    /// Opens a join block at `addr` and appends its start row.
    pub fn start_join(&mut self, block: &Join, addr: Felt)
        requires
            old(self).wf(),
        ensures
            final(self).wf(),
            final(self).stack().len() == old(self).stack().len() + 1,
            final(self).stack().drop_last() == old(self).stack(),
            final(self).stack().last().addr == addr,
            final(self).stack().last().parent_addr.val() == parent_of(old(self).stack()),
            final(self).rows() == old(self).rows().push(
                control_row(
                    parent_of(old(self).stack()),
                    OPCODE_JOIN,
                    block.first.hash_spec(),
                    block.second.hash_spec(),
                ),
            ),
    {
        let parent_addr = self.block_stack.push(addr);
        let left_child_hash = block.first.hash();
        let right_child_hash = block.second.hash();
        self.trace.append_row(parent_addr, Operation::Join, left_child_hash, right_child_hash);
        proof {
            assert(final(self).stack().drop_last() =~= old(self).stack());
        }
    }

    /// Closes a join block: pops it and appends its end row, with both
    /// loop flags zero.
    pub fn end_join(&mut self, block: &Join)
        requires
            old(self).wf(),
            old(self).stack().len() > 0,
        ensures
            final(self).wf(),
            final(self).stack() == old(self).stack().drop_last(),
            final(self).rows() == old(self).rows().push(
                end_row(
                    old(self).stack().last().addr.val(),
                    block.hash.vals(),
                    false,
                    false,
                ),
            ),
    {
        let block_info = self.block_stack.pop();
        let flags = end_flags(false, false);
        self.trace.append_row(block_info.addr, Operation::End, block.hash, flags);
        proof {
            lemma_end_row_shape(
                block_info.addr.val(),
                block.hash.vals(),
                flags.vals(),
                false,
                false,
            );
        }
    }

    /// Opens a split block at `addr` and appends its start row. The taken
    /// branch is the driver's business; the decoder records both digests.
    pub fn start_split(&mut self, block: &Split, addr: Felt, _condition: Felt)
        requires
            old(self).wf(),
        ensures
            final(self).wf(),
            final(self).stack().len() == old(self).stack().len() + 1,
            final(self).stack().drop_last() == old(self).stack(),
            final(self).stack().last().addr == addr,
            final(self).stack().last().parent_addr.val() == parent_of(old(self).stack()),
            final(self).rows() == old(self).rows().push(
                control_row(
                    parent_of(old(self).stack()),
                    OPCODE_SPLIT,
                    block.on_true.hash_spec(),
                    block.on_false.hash_spec(),
                ),
            ),
    {
        let parent_addr = self.block_stack.push(addr);
        let left_child_hash = block.on_true.hash();
        let right_child_hash = block.on_false.hash();
        self.trace.append_row(parent_addr, Operation::Split, left_child_hash, right_child_hash);
        proof {
            assert(final(self).stack().drop_last() =~= old(self).stack());
        }
    }

    /// Closes a split block: pops it and appends its end row, with both
    /// loop flags zero.
    pub fn end_split(&mut self, block: &Split)
        requires
            old(self).wf(),
            old(self).stack().len() > 0,
        ensures
            final(self).wf(),
            final(self).stack() == old(self).stack().drop_last(),
            final(self).rows() == old(self).rows().push(
                end_row(
                    old(self).stack().last().addr.val(),
                    block.hash.vals(),
                    false,
                    false,
                ),
            ),
    {
        let block_info = self.block_stack.pop();
        let flags = end_flags(false, false);
        self.trace.append_row(block_info.addr, Operation::End, block.hash, flags);
        proof {
            lemma_end_row_shape(
                block_info.addr.val(),
                block.hash.vals(),
                flags.vals(),
                false,
                false,
            );
        }
    }

    /// Opens a loop block at `addr` and appends its start row: the body's
    /// digest on the left, zeros on the right.
    pub fn start_loop(&mut self, block: &Loop, addr: Felt, _condition: Felt)
        requires
            old(self).wf(),
        ensures
            final(self).wf(),
            final(self).stack().len() == old(self).stack().len() + 1,
            final(self).stack().drop_last() == old(self).stack(),
            final(self).stack().last().addr == addr,
            final(self).stack().last().parent_addr.val() == parent_of(old(self).stack()),
            final(self).rows() == old(self).rows().push(
                control_row(
                    parent_of(old(self).stack()),
                    OPCODE_LOOP,
                    block.body.hash_spec(),
                    zero_word(),
                ),
            ),
    {
        let parent_addr = self.block_stack.push(addr);
        let body_hash = block.body.hash();
        let zero = Word::zero();
        self.trace.append_row(parent_addr, Operation::Loop, body_hash, zero);
        proof {
            assert(final(self).stack().drop_last() =~= old(self).stack());
        }
    }

    /// Appends a `Repeat` row: the loop stays open and its body runs again.
    pub fn repeat(&mut self, block: &Loop)
        requires
            old(self).wf(),
            old(self).stack().len() > 0,
        ensures
            final(self).wf(),
            final(self).stack() == old(self).stack(),
            final(self).rows() == old(self).rows().push(
                control_row(
                    old(self).stack().last().addr.val(),
                    OPCODE_REPEAT,
                    block.body.hash_spec(),
                    zero_word(),
                ),
            ),
    {
        let addr = self.block_stack.peek_addr();
        let body_hash = block.body.hash();
        let zero = Word::zero();
        self.trace.append_row(addr, Operation::Repeat, body_hash, zero);
    }

    /// Closes a loop block: pops it and appends its end row, with the
    /// `is_loop` flag set.
    pub fn end_loop(&mut self, block: &Loop, is_loop_body: bool)
        requires
            old(self).wf(),
            old(self).stack().len() > 0,
        ensures
            final(self).wf(),
            final(self).stack() == old(self).stack().drop_last(),
            final(self).rows() == old(self).rows().push(
                end_row(
                    old(self).stack().last().addr.val(),
                    block.hash.vals(),
                    is_loop_body,
                    true,
                ),
            ),
    {
        let block_info = self.block_stack.pop();
        let flags = end_flags(is_loop_body, true);
        self.trace.append_row(block_info.addr, Operation::End, block.hash, flags);
        proof {
            lemma_end_row_shape(
                block_info.addr.val(),
                block.hash.vals(),
                flags.vals(),
                is_loop_body,
                true,
            );
        }
    }

    /// Opens a span block at `addr` and appends its start row: the groups
    /// of the first op batch and the total op-group count, which counts
    /// eight groups for every batch.
    pub fn start_span(&mut self, block: &Span, addr: Felt)
        requires
            old(self).wf(),
            block.wf(),
            block.batches_spec().len() > 0,
        ensures
            final(self).wf(),
            final(self).stack().len() == old(self).stack().len() + 1,
            final(self).stack().drop_last() == old(self).stack(),
            final(self).stack().last().addr == addr,
            final(self).stack().last().parent_addr.val() == parent_of(old(self).stack()),
            final(self).rows() == old(self).rows().push(
                span_row(
                    parent_of(old(self).stack()),
                    block.batches_spec()[0].group_vals(),
                    fmul(8, (block.batches_spec().len() as u64) % FIELD_MODULUS),
                ),
            ),
    {
        let parent_addr = self.block_stack.push(addr);
        let batches = block.op_batches();
        let num_op_groups = Felt::new(8).mul(Felt::new(batches.len() as u64));
        proof {
            assert(fmul(8u64 % FIELD_MODULUS, (batches@.len() as u64) % FIELD_MODULUS) == fmul(
                8,
                (batches@.len() as u64) % FIELD_MODULUS,
            ));
        }
        self.trace.append_span_start(parent_addr, batches[0].groups(), num_op_groups);
        proof {
            assert(final(self).stack().drop_last() =~= old(self).stack());
        }
    }

    /// Appends a `Respan` row for the next op batch and advances the span's
    /// address by eight: the next batch's hashing starts eight rows later.
    pub fn respan(&mut self, op_batch: &OpBatch)
        requires
            old(self).wf(),
            op_batch.wf(),
            old(self).rows().len() > 0,
            old(self).stack().len() > 0,
        ensures
            final(self).wf(),
            final(self).rows() == old(self).rows().push(
                respan_row(
                    old(self).rows().last().addr,
                    op_batch.group_vals(),
                    old(self).rows().last().group_count,
                ),
            ),
            final(self).stack().len() == old(self).stack().len(),
            final(self).stack().drop_last() == old(self).stack().drop_last(),
            final(self).stack().last().addr.val() == fadd(
                old(self).stack().last().addr.val(),
                8,
            ),
            final(self).stack().last().parent_addr == old(self).stack().last().parent_addr,
    {
        self.trace.append_respan(op_batch.groups());
        self.block_stack.advance_addr(Felt::new(8));
        proof {
            assert(final(self).stack().drop_last() =~= old(self).stack().drop_last());
        }
    }

    /// Appends a row for one user operation executed inside the innermost
    /// span. Decorators consume no trace row and are skipped.
    pub fn execute_user_op(
        &mut self,
        op: Operation,
        num_groups_left: Felt,
        group_ops_left: Felt,
        op_idx: Felt,
    )
        requires
            old(self).wf(),
            old(self).stack().len() > 0,
            op.is_user_op_spec() || op.is_decorator_spec(),
            op_idx.val() <= 8,
        ensures
            final(self).wf(),
            final(self).stack() == old(self).stack(),
            op.is_decorator_spec() ==> final(self).rows() == old(self).rows(),
            !op.is_decorator_spec() ==> final(self).rows() == old(self).rows().push(
                user_row(
                    old(self).stack().last().addr.val(),
                    op.op_code_spec(),
                    old(self).stack().last().parent_addr.val(),
                    group_ops_left.val(),
                    num_groups_left.val(),
                    op_idx.val(),
                ),
            ),
    {
        if !op.is_decorator() {
            let span_addr = self.block_stack.peek_addr();
            let parent_addr = self.block_stack.peek_parent();
            self.trace.append_user_op(
                op,
                span_addr,
                parent_addr,
                num_groups_left,
                group_ops_left,
                op_idx,
            );
        }
    }

    /// Closes a span block: pops it and appends its end row, whose address
    /// and (zero) group count are copied from the previous row.
    pub fn end_span(&mut self, block: &Span, is_loop_body: bool)
        requires
            old(self).wf(),
            old(self).stack().len() > 0,
            old(self).rows().len() > 0,
            old(self).rows().last().group_count == 0,
        ensures
            final(self).wf(),
            final(self).stack() == old(self).stack().drop_last(),
            final(self).rows() == old(self).rows().push(
                end_row(
                    old(self).rows().last().addr,
                    block.hash_spec(),
                    is_loop_body,
                    false,
                ),
            ),
    {
        let _block_info = self.block_stack.pop();
        let flag = if is_loop_body {
            Felt::one()
        } else {
            Felt::zero()
        };
        self.trace.append_span_end(block.hash(), flag);
    }

    /// Finalizes the trace to its 19 columns of `trace_len` cells.
    pub fn into_trace(self, trace_len: usize, num_rand_rows: usize) -> (r: Vec<Vec<Felt>>)
        requires
            self.wf(),
            self.rows().len() + num_rand_rows <= trace_len,
            MIN_TRACE_LEN <= trace_len,
            is_power_of_two(trace_len as int),
        ensures
            r@.len() == crate::rows::NUM_TRACE_COLS,
            forall|c: int|
                0 <= c < crate::rows::NUM_TRACE_COLS ==> (#[trigger] r@[c])@.len() == trace_len,
            forall|c: int, i: int|
                0 <= c < crate::rows::NUM_TRACE_COLS && 0 <= i < trace_len ==> (#[trigger] r@[
                c]@[i]).val() == crate::trace::cell_spec(self.rows(), c, i),
    {
        self.trace.into_vec(trace_len, num_rand_rows)
    }

    /// The number of rows appended so far.
    pub fn trace_len(&self) -> (r: usize)
        requires
            self.wf(),
        ensures
            r == self.rows().len(),
    {
        self.trace.len()
    }

}

impl Default for Decoder {
    /// A fresh decoder, as `new` builds it.
    fn default() -> (r: Decoder)
        ensures
            r.wf(),
            r.rows() == Seq::<TraceRow>::empty(),
            r.stack() == Seq::<BlockInfo>::empty(),
    {
        Decoder::new()
    }
}

/// The second hasher word of an `End` row: the two loop flags and zeros.
fn end_flags(is_loop_body: bool, is_loop: bool) -> (r: Word)
    ensures
        r.vals() == seq![
            if is_loop_body {
                1u64
            } else {
                0u64
            },
            if is_loop {
                1u64
            } else {
                0u64
            },
            0,
            0,
        ],
{
    let f0 = if is_loop_body {
        Felt::one()
    } else {
        Felt::zero()
    };
    let f1 = if is_loop {
        Felt::one()
    } else {
        Felt::zero()
    };
    let r = Word { f0, f1, f2: Felt::zero(), f3: Felt::zero() };
    proof {
        assert(r.vals() =~= seq![
            if is_loop_body {
                1u64
            } else {
                0u64
            },
            if is_loop {
                1u64
            } else {
                0u64
            },
            0,
            0,
        ]);
    }
    r
}

/// A control row with the `End` opcode and flag word equals the end row.
proof fn lemma_end_row_shape(
    addr: u64,
    hash: Seq<u64>,
    flags: Seq<u64>,
    is_loop_body: bool,
    is_loop: bool,
)
    requires
        flags == seq![
            if is_loop_body {
                1u64
            } else {
                0u64
            },
            if is_loop {
                1u64
            } else {
                0u64
            },
            0,
            0,
        ],
    ensures
        control_row(addr, crate::ops::OPCODE_END, hash, flags) == end_row(
            addr,
            hash,
            is_loop_body,
            is_loop,
        ),
{
    assert(control_row(addr, crate::ops::OPCODE_END, hash, flags).h =~= end_row(
        addr,
        hash,
        is_loop_body,
        is_loop,
    ).h);
}

} // verus!
