//! The decoder driver: walks a block tree, consults the hasher oracle and
//! the processor facade, and drives the trace buffer.

use vstd::prelude::*;
use crate::blocks::CodeBlock;
use crate::decoder::{parent_of, Decoder};
use crate::field::{fadd, Felt};
use crate::hasher::Hasher;
use crate::ops::{
    build_group, count_imms, group_val, lemma_count_imms_bound, Operation, OP_BATCH_SIZE,
};
use crate::rows::{end_row, respan_row, span_row, user_row, TraceRow};
use crate::span::{
    batch_groups_spec, group_wf, lemma_count_imms_concat, lemma_count_imms_push, used_groups,
    OpBatch, Span,
};

verus! {

/// Largest number of op batches a single span may hold: keeps every group
/// count computed during execution far below any machine limit.
pub const MAX_SPAN_BATCHES: usize = 0x1000_0000;

/// The error surface of the driver.
#[derive(Clone, Copy, Debug, PartialEq, Eq, Structural)]
pub enum ExecutionError {
    /// A `Split` or `Loop` condition was neither zero nor one.
    NotBinaryValue(Felt),
    /// A malformed tree variant: a span with no op batch, or one whose
    /// packed groups hold something besides user operations.
    UnexecutableCodeBlock,
}

/// The inputs of a program run. The decoder consumes only the stack; the
/// advice tape belongs to the processor, outside this component.
pub struct ProgramInputs {
    pub stack_init: Vec<u64>,
    pub advice_tape: Vec<u64>,
}

impl ProgramInputs {
    pub fn new(stack_init: Vec<u64>, advice_tape: Vec<u64>) -> (r: ProgramInputs)
        ensures
            r.stack_init@ == stack_init@,
            r.advice_tape@ == advice_tape@,
    {
        ProgramInputs { stack_init, advice_tape }
    }
}

// ---------------------------------------------------------------------------
// Specification: the rows a span block emits
// ---------------------------------------------------------------------------

/// The group-count decrement the first row of op group `j` of a batch
/// carries: one for the group itself, plus — at the batch's first group —
/// one for each of the batch's unused group slots.
pub open spec fn group_base(j: int, ng: int) -> int {
    if j == 0 {
        1 + (OP_BATCH_SIZE - ng)
    } else {
        1
    }
}

/// The rows of one op group: the `i`-th operation sits at op index `i`,
/// shows the packed opcodes still left in the group, and carries the group
/// count after the decrements scheduled so far (the group's own at its
/// first row, one more on the row after each immediate-carrying operation).
pub open spec fn group_rows(
    g: Seq<Operation>,
    gc_entry: int,
    base: int,
    span_addr: u64,
    parent: u64,
) -> Seq<TraceRow> {
    Seq::new(
        g.len(),
        |i: int|
            user_row(
                span_addr,
                g[i].op_code_spec(),
                parent,
                group_val(g.skip(i + 1)) as u64,
                (gc_entry - base - count_imms(g.take(i))) as u64,
                i as u64,
            ),
    )
}

/// The user-operation rows of a batch, from op group `j` on, entering with
/// group count `gc_entry`.
pub open spec fn batch_rows(
    og: Seq<Seq<Operation>>,
    j: int,
    gc_entry: int,
    ng: int,
    span_addr: u64,
    parent: u64,
) -> Seq<TraceRow>
    decreases og.len() - j,
{
    if j < 0 || j >= og.len() {
        Seq::empty()
    } else {
        let base = group_base(j, ng);
        group_rows(og[j], gc_entry, base, span_addr, parent) + batch_rows(
            og,
            j + 1,
            gc_entry - base - count_imms(og[j]),
            ng,
            span_addr,
            parent,
        )
    }
}

/// The rows of batches `k..` of a span: each batch after the first opens
/// with a `Respan` row at the previous batch's address, and its user rows
/// run at an address eight higher.
pub open spec fn batches_rows(
    bog: Seq<Seq<Seq<Operation>>>,
    k: int,
    cur_addr: u64,
    parent: u64,
    num_batches: int,
) -> Seq<TraceRow>
    decreases bog.len() - k,
{
    if k < 0 || k >= bog.len() {
        Seq::empty()
    } else {
        let gc_entry = 8 * (num_batches - k);
        let ng = used_groups(bog[k]);
        if k == 0 {
            batch_rows(bog[0], 0, gc_entry, ng, cur_addr, parent) + batches_rows(
                bog,
                1,
                cur_addr,
                parent,
                num_batches,
            )
        } else {
            let next_addr = fadd(cur_addr, 8);
            seq![respan_row(cur_addr, batch_groups_spec(bog[k]), gc_entry as u64)] + batch_rows(
                bog[k],
                0,
                gc_entry,
                ng,
                next_addr,
                parent,
            ) + batches_rows(bog, k + 1, next_addr, parent, num_batches)
        }
    }
}

/// Every row a span block with batches `bog` emits, from its `Span` row to
/// its last user row.
pub open spec fn span_seg_rows(bog: Seq<Seq<Seq<Operation>>>, span_addr: u64, parent: u64) -> Seq<
    TraceRow,
> {
    seq![
        span_row(parent, batch_groups_spec(bog[0]), (8 * bog.len()) as u64),
    ] + batches_rows(bog, 0, span_addr, parent, bog.len() as int)
}

/// The whole trace segment of a span block, its closing `End` row included.
pub open spec fn span_full_rows(
    bog: Seq<Seq<Seq<Operation>>>,
    span_addr: u64,
    parent: u64,
    hash: Seq<u64>,
    is_loop_body: bool,
) -> Seq<TraceRow> {
    let seg = span_seg_rows(bog, span_addr, parent);
    seg + seq![end_row(seg.last().addr, hash, is_loop_body, false)]
}

/// Every operation packed into the batches is a user operation.
pub open spec fn span_ops_user(bog: Seq<Seq<Seq<Operation>>>) -> bool {
    forall|k: int, j: int, i: int|
        0 <= k < bog.len() && 0 <= j < bog[k].len() && 0 <= i < bog[k][j].len() ==> (#[trigger] bog[
        k][j][i]).is_user_op_spec()
}

/// The group-count decrements still owed by op groups `j..` of a batch.
pub open spec fn remaining_deltas(og: Seq<Seq<Operation>>, j: int, ng: int) -> int
    decreases og.len() - j,
{
    if j < 0 || j >= og.len() {
        0
    } else {
        group_base(j, ng) + count_imms(og[j]) + remaining_deltas(og, j + 1, ng)
    }
}

/// The decrements owed from group `j` on are the used slots of the groups
/// `j..`, plus — from the very start — the batch's unused slots.
pub proof fn lemma_remaining_deltas(og: Seq<Seq<Operation>>, j: int, ng: int)
    requires
        0 <= j <= og.len(),
    ensures
        remaining_deltas(og, j, ng) == (if j == 0 && og.len() > 0 {
            OP_BATCH_SIZE - ng
        } else {
            0int
        }) + used_groups(og.skip(j)),
    decreases og.len() - j,
{
    if j >= og.len() {
        assert(og.skip(j) =~= Seq::<Seq<Operation>>::empty());
    } else {
        lemma_remaining_deltas(og, j + 1, ng);
        assert(og.skip(j)[0] == og[j]);
        assert(og.skip(j).skip(1) =~= og.skip(j + 1));
        assert(used_groups(og.skip(j)) == 1 + count_imms(og[j]) + used_groups(og.skip(j + 1)));
    }
}

/// A batch whose used slots equal its group count owes exactly eight
/// decrements, and never a negative number from any point on.
pub proof fn lemma_remaining_deltas_total(og: Seq<Seq<Operation>>, ng: int)
    requires
        og.len() > 0,
        used_groups(og) == ng,
        ng <= OP_BATCH_SIZE,
    ensures
        remaining_deltas(og, 0, ng) == OP_BATCH_SIZE,
{
    lemma_remaining_deltas(og, 0, ng);
    assert(og.skip(0) =~= og);
}

/// The decrements owed from any point on are non-negative.
pub proof fn lemma_remaining_deltas_nonneg(og: Seq<Seq<Operation>>, j: int, ng: int)
    requires
        0 <= j <= og.len(),
        ng <= OP_BATCH_SIZE,
    ensures
        remaining_deltas(og, j, ng) >= 0,
    decreases og.len() - j,
{
    if j < og.len() {
        lemma_count_imms_bound(og[j]);
        lemma_remaining_deltas_nonneg(og, j + 1, ng);
    }
}

// ---------------------------------------------------------------------------
// The process: condition stack, decoder and hasher
// ---------------------------------------------------------------------------

/// The execution context the decoder drives: the processor facade's
/// condition stack, the decoder itself, and the hasher oracle.
pub struct Process {
    stack: Vec<Felt>,
    decoder: Decoder,
    hasher: Hasher,
}

impl Process {
    /// The rows of the decoder trace built so far.
    pub closed spec fn rows(self) -> Seq<TraceRow> {
        self.decoder.rows()
    }

    /// The decoder's stack of open blocks.
    pub closed spec fn open_blocks(self) -> Seq<crate::stack::BlockInfo> {
        self.decoder.stack()
    }

    /// The values on the condition stack, bottom first.
    pub closed spec fn conditions(self) -> Seq<u64> {
        self.stack@.map_values(|f: Felt| f.val())
    }

    /// The next address the hasher oracle will hand out.
    pub closed spec fn hasher_pos(self) -> u64 {
        self.hasher.next_addr()
    }

    /// The decoder trace is well-formed.
    pub closed spec fn wf(self) -> bool {
        self.decoder.wf()
    }

    /// Every row of a well-formed process's trace is well-formed: lets a
    /// client apply the row-level laws to any finished run.
    pub proof fn lemma_rows_wf(self)
        requires
            self.wf(),
        ensures
            crate::rows::rows_wf(self.rows()),
    {
        self.decoder.lemma_rows_wf();
    }

    /// A fresh process over the given inputs: the last stack value is the
    /// top of the stack.
    pub fn new(inputs: ProgramInputs) -> (r: Process)
        ensures
            r.wf(),
            r.rows() == Seq::<TraceRow>::empty(),
            r.open_blocks().len() == 0,
            r.hasher_pos() == 0,
            r.conditions() == inputs.stack_init@.map_values(
                |v: u64| v % crate::field::FIELD_MODULUS,
            ),
    {
        let mut stack: Vec<Felt> = Vec::new();
        let mut i: usize = 0;
        while i < inputs.stack_init.len()
            invariant
                i <= inputs.stack_init@.len(),
                stack@.map_values(|f: Felt| f.val()) == inputs.stack_init@.take(
                    i as int,
                ).map_values(|v: u64| v % crate::field::FIELD_MODULUS),
            decreases inputs.stack_init@.len() - i,
        {
            let ghost pre = stack@;
            let f = Felt::new(inputs.stack_init[i]);
            stack.push(f);
            proof {
                assert(stack@.map_values(|f: Felt| f.val()) =~= pre.map_values(
                    |f: Felt| f.val(),
                ).push(f.val()));
                assert(inputs.stack_init@.take(i as int + 1) =~= inputs.stack_init@.take(
                    i as int,
                ).push(inputs.stack_init@[i as int]));
                assert(inputs.stack_init@.take(i as int + 1).map_values(
                    |v: u64| v % crate::field::FIELD_MODULUS,
                ) =~= inputs.stack_init@.take(i as int).map_values(
                    |v: u64| v % crate::field::FIELD_MODULUS,
                ).push(inputs.stack_init@[i as int] % crate::field::FIELD_MODULUS));
            }
            i = i + 1;
        }
        proof {
            assert(inputs.stack_init@.take(i as int) =~= inputs.stack_init@);
        }
        Process { stack, decoder: Decoder::new(), hasher: Hasher::new() }
    }

    /// The top of the condition stack: zero when the stack is empty, since
    /// the processor's stack is bottomless with zeros.
    pub fn peek_top(&self) -> (r: Felt)
        ensures
            self.conditions().len() == 0 ==> r.val() == 0,
            self.conditions().len() > 0 ==> r.val() == self.conditions().last(),
    {
        if self.stack.is_empty() {
            Felt::zero()
        } else {
            self.stack[self.stack.len() - 1]
        }
    }

    /// Consumes the top of the condition stack: the decoder-visible effect
    /// of the `Drop` the processor executes at each conditional block
    /// boundary. On an empty stack the bottomless zeros absorb it.
    pub fn drop_top(&mut self)
        ensures
            final(self).wf() == old(self).wf(),
            final(self).rows() == old(self).rows(),
            final(self).open_blocks() == old(self).open_blocks(),
            final(self).hasher_pos() == old(self).hasher_pos(),
            old(self).conditions().len() > 0 ==> final(self).conditions() == old(
                self,
            ).conditions().drop_last(),
            old(self).conditions().len() == 0 ==> final(self).conditions() == old(
                self,
            ).conditions(),
    {
        if !self.stack.is_empty() {
            let _ = self.stack.pop();
            proof {
                assert(self.stack@.map_values(|f: Felt| f.val()) =~= old(
                    self,
                ).stack@.map_values(|f: Felt| f.val()).drop_last());
            }
        }
    }

    /// Has the processor execute one primitive operation. Everything the
    /// processor does with it — stack, memory, chiplets — is outside this
    /// component; the facade only owes the decoder that the call returns
    /// and leaves the condition values alone.
    pub fn execute_op(&mut self, op: Operation) -> (r: Result<(), ExecutionError>)
        ensures
            r is Ok,
            *final(self) == *old(self),
    {
        let _ = op;
        Ok(())
    }

    /// Executes the operations of one op group inside the innermost span,
    /// entering with group count `gc_in`; returns the group count after the
    /// group's decrements.
    fn execute_op_group(&mut self, grp: &Vec<Operation>, base: u64, gc_in: u64) -> (r: Result<
        u64,
        ExecutionError,
    >)
        requires
            old(self).wf(),
            old(self).open_blocks().len() > 0,
            group_wf(grp@),
            forall|i: int| 0 <= i < grp@.len() ==> (#[trigger] grp@[i]).is_user_op_spec(),
            1 <= base,
            gc_in >= base + count_imms(grp@),
            gc_in < crate::field::FIELD_MODULUS,
        ensures
            final(self).wf(),
            final(self).open_blocks() == old(self).open_blocks(),
            final(self).conditions() == old(self).conditions(),
            final(self).hasher_pos() == old(self).hasher_pos(),
            r is Ok,
            r matches Ok(gc_out) && gc_out == gc_in - base - count_imms(grp@),
            final(self).rows() == old(self).rows() + group_rows(
                grp@,
                gc_in as int,
                base as int,
                old(self).open_blocks().last().addr.val(),
                old(self).open_blocks().last().parent_addr.val(),
            ),
    {
        let ghost g = grp@;
        let ghost grows = group_rows(
            g,
            gc_in as int,
            base as int,
            old(self).open_blocks().last().addr.val(),
            old(self).open_blocks().last().parent_addr.val(),
        );
        proof {
            lemma_count_imms_bound(g);
            assert(old(self).rows() + grows.take(0) =~= old(self).rows());
        }
        let mut gc = gc_in;
        let mut pending_imm = false;
        let mut i: usize = 0;
        while i < grp.len()
            invariant
                i <= g.len(),
                grp@ == g,
                group_wf(g),
                forall|ii: int| 0 <= ii < g.len() ==> (#[trigger] g[ii]).is_user_op_spec(),
                1 <= base,
                gc_in >= base + count_imms(g),
                gc_in < crate::field::FIELD_MODULUS,
                self.wf(),
                self.open_blocks() == old(self).open_blocks(),
                self.open_blocks().len() > 0,
                self.conditions() == old(self).conditions(),
                self.hasher_pos() == old(self).hasher_pos(),
                pending_imm == (i > 0 && g[i - 1].has_imm_spec()),
                gc == if i == 0 {
                    gc_in as int
                } else {
                    gc_in - base - count_imms(g.take(i - 1))
                },
                grows == group_rows(
                    g,
                    gc_in as int,
                    base as int,
                    old(self).open_blocks().last().addr.val(),
                    old(self).open_blocks().last().parent_addr.val(),
                ),
                self.rows() == old(self).rows() + grows.take(i as int),
            decreases g.len() - i,
        {
            proof {
                lemma_count_imms_concat(g.take(i as int), g.skip(i as int));
                assert(g.take(i as int) + g.skip(i as int) =~= g);
                lemma_count_imms_bound(g.take(i as int));
                lemma_count_imms_bound(g.skip(i as int));
                if i > 0 {
                    assert(g.take(i as int) =~= g.take(i as int - 1).push(g[i as int - 1]));
                    lemma_count_imms_push(g.take(i as int - 1), g[i as int - 1]);
                }
            }
            let delta: u64 = if i == 0 {
                base
            } else if pending_imm {
                1
            } else {
                0
            };
            proof {
                if i > 0 && pending_imm {
                    assert(count_imms(g.take(i as int)) == count_imms(g.take(i as int - 1)) + 1);
                    assert(count_imms(g.take(i as int)) <= count_imms(g));
                }
            }
            gc = gc - delta;
            proof {
                assert(gc == gc_in - base - count_imms(g.take(i as int)));
            }
            let op = grp[i];
            let gol = build_group(grp, i + 1);
            self.execute_op(op)?;
            self.decoder.execute_user_op(op, Felt::new(gc), Felt::new(gol), Felt::new(i as u64));
            proof {
                assert(gc % crate::field::FIELD_MODULUS == gc);
                assert(gol % crate::field::FIELD_MODULUS == gol);
                assert((i as u64) % crate::field::FIELD_MODULUS == i as u64);
                assert(self.rows() == old(self).rows() + grows.take(i as int).push(
                    grows[i as int],
                ));
                assert(old(self).rows() + grows.take(i as int).push(grows[i as int]) =~= old(
                    self,
                ).rows() + grows.take(i as int + 1));
            }
            pending_imm = op.imm_value().is_some();
            i = i + 1;
        }
        proof {
            assert(grows.take(i as int) =~= grows);
            assert(g.take(i as int - 1).push(g[i as int - 1]) =~= g);
            lemma_count_imms_push(g.take(i as int - 1), g[i as int - 1]);
            assert(count_imms(g.take(i as int - 1)) == count_imms(g));
        }
        Ok(gc)
    }

    /// Executes every op group of one batch, entering with group count
    /// `gc_in`; a full batch always consumes exactly eight group slots.
    fn execute_batch_ops(&mut self, batch: &OpBatch, gc_in: u64) -> (r: Result<
        u64,
        ExecutionError,
    >)
        requires
            old(self).wf(),
            old(self).open_blocks().len() > 0,
            batch.wf(),
            forall|j: int, i: int|
                0 <= j < batch.og_spec().len() && 0 <= i < batch.og_spec()[j].len() ==> (
                #[trigger] batch.og_spec()[j][i]).is_user_op_spec(),
            gc_in >= OP_BATCH_SIZE,
            gc_in < crate::field::FIELD_MODULUS,
        ensures
            final(self).wf(),
            final(self).open_blocks() == old(self).open_blocks(),
            final(self).conditions() == old(self).conditions(),
            final(self).hasher_pos() == old(self).hasher_pos(),
            r is Ok,
            r matches Ok(gc_out) && gc_out == gc_in - OP_BATCH_SIZE,
            final(self).rows() == old(self).rows() + batch_rows(
                batch.og_spec(),
                0,
                gc_in as int,
                used_groups(batch.og_spec()) as int,
                old(self).open_blocks().last().addr.val(),
                old(self).open_blocks().last().parent_addr.val(),
            ),
            final(self).rows().len() > old(self).rows().len(),
            final(self).rows().last().group_count == gc_in - OP_BATCH_SIZE,
            final(self).rows().last().addr == old(self).open_blocks().last().addr.val(),
    {
        let ghost og = batch.og_spec();
        let ghost ng = used_groups(og);
        let ghost a = old(self).open_blocks().last().addr.val();
        let ghost p = old(self).open_blocks().last().parent_addr.val();
        let ghost target = old(self).rows() + batch_rows(og, 0, gc_in as int, ng, a, p);
        let num_groups = batch.num_groups();
        let mut gc = gc_in;
        let mut j: usize = 0;
        proof {
            assert(num_groups == ng);
            lemma_remaining_deltas_total(og, ng);
            assert(gc == gc_in - OP_BATCH_SIZE + remaining_deltas(og, 0, ng));
        }
        while j < batch.op_groups.len()
            invariant
                j <= og.len(),
                og == batch.og_spec(),
                ng == used_groups(og),
                num_groups == ng,
                batch.wf(),
                forall|jj: int, i: int|
                    0 <= jj < og.len() && 0 <= i < og[jj].len() ==> (#[trigger] og[jj][
                    i]).is_user_op_spec(),
                gc_in >= OP_BATCH_SIZE,
                gc_in < crate::field::FIELD_MODULUS,
                self.wf(),
                self.open_blocks() == old(self).open_blocks(),
                self.open_blocks().len() > 0,
                self.conditions() == old(self).conditions(),
                self.hasher_pos() == old(self).hasher_pos(),
                a == old(self).open_blocks().last().addr.val(),
                p == old(self).open_blocks().last().parent_addr.val(),
                target == old(self).rows() + batch_rows(og, 0, gc_in as int, ng, a, p),
                gc == gc_in - OP_BATCH_SIZE + remaining_deltas(og, j as int, ng),
                gc <= gc_in,
                self.rows() + batch_rows(og, j as int, gc as int, ng, a, p) == target,
                j > 0 ==> self.rows().len() > old(self).rows().len()
                    && self.rows().last().group_count == gc && self.rows().last().addr == a,
                j == 0 ==> self.rows() == old(self).rows(),
            decreases og.len() - j,
        {
            let ghost g = og[j as int];
            let base: u64 = if j == 0 {
                1 + (OP_BATCH_SIZE as u64 - num_groups as u64)
            } else {
                1
            };
            proof {
                assert(base == group_base(j as int, ng));
                assert(remaining_deltas(og, j as int, ng) == group_base(j as int, ng)
                    + count_imms(g) + remaining_deltas(og, j as int + 1, ng));
                lemma_remaining_deltas_nonneg(og, j as int + 1, ng);
                lemma_count_imms_bound(g);
                assert(gc >= base + count_imms(g));
                assert(g == batch.op_groups@[j as int]@);
                assert(group_wf(g));
            }
            let ghost pre_rows = self.rows();
            let ghost gc_pre = gc as int;
            let grp = &batch.op_groups[j];
            let res = self.execute_op_group(grp, base, gc);
            gc = match res {
                Ok(v) => v,
                Err(_) => unreached(),
            };
            proof {
                assert(batch_rows(og, j as int, gc_pre, ng, a, p) == group_rows(
                    g,
                    gc_pre,
                    base as int,
                    a,
                    p,
                ) + batch_rows(og, j as int + 1, gc_pre - base - count_imms(g), ng, a, p));
                assert(self.rows() == pre_rows + group_rows(g, gc_pre, base as int, a, p));
                assert(gc as int == gc_pre - base - count_imms(g));
                assert(self.rows() + batch_rows(og, j as int + 1, gc as int, ng, a, p) =~= pre_rows
                    + batch_rows(og, j as int, gc_pre, ng, a, p));
                // the last row of the group shows the group count after all
                // of the group's decrements
                let grows = group_rows(g, gc_pre, base as int, a, p);
                assert(grows.len() == g.len() >= 1);
                assert(g.take(g.len() - 1).push(g[g.len() - 1]) =~= g);
                lemma_count_imms_push(g.take(g.len() - 1), g[g.len() - 1]);
                assert(count_imms(g.take(g.len() - 1)) == count_imms(g));
                assert(self.rows().last() == grows.last());
                assert(grows.last().group_count == gc);
                assert(grows.last().addr == a);
            }
            j = j + 1;
        }
        proof {
            assert(batch_rows(og, j as int, gc as int, ng, a, p) == Seq::<TraceRow>::empty());
            assert(self.rows() + Seq::<TraceRow>::empty() =~= self.rows());
            assert(remaining_deltas(og, j as int, ng) == 0);
        }
        Ok(gc)
    }

    /// Executes a span block: one `Span` row, the user rows of every batch
    /// (each batch after the first behind a `Respan` row), and the closing
    /// `End` row. Refused when the span holds no batch or a packed group
    /// holds anything besides user operations.
    pub fn execute_span_block(&mut self, block: &Span, is_loop_body: bool) -> (r: Result<
        (),
        ExecutionError,
    >)
        requires
            old(self).wf(),
            block.wf(),
        ensures
            final(self).wf(),
            final(self).conditions() == old(self).conditions(),
            final(self).open_blocks() == old(self).open_blocks(),
            r is Ok <==> (block.batches_spec().len() > 0 && block.batches_spec().len()
                <= MAX_SPAN_BATCHES && span_ops_user(block.batches_og())),
            r is Ok ==> final(self).rows() == old(self).rows() + span_full_rows(
                block.batches_og(),
                old(self).hasher_pos(),
                parent_of(old(self).open_blocks()),
                block.hash_spec(),
                is_loop_body,
            ),
            r is Ok ==> final(self).hasher_pos() == crate::field::hasher_advance(
                old(self).hasher_pos(),
                block.batches_spec().len() as u64,
            ),
            r is Err ==> *final(self) == *old(self) && r == Err::<(), ExecutionError>(
                ExecutionError::UnexecutableCodeBlock,
            ),
    {
        let batches = block.op_batches();
        if batches.len() == 0 || batches.len() > MAX_SPAN_BATCHES {
            return Err(ExecutionError::UnexecutableCodeBlock);
        }
        if !check_span_ops(batches) {
            return Err(ExecutionError::UnexecutableCodeBlock);
        }
        let ghost bog = block.batches_og();
        let ghost parent = parent_of(old(self).open_blocks());
        let ghost a0 = old(self).hasher_pos();
        self.execute_op(Operation::Noop)?;
        let nb = batches.len();
        let addr = self.hasher.span_addr(nb);
        self.decoder.start_span(block, addr);
        let ghost target_seg = old(self).rows() + span_seg_rows(bog, a0, parent);
        proof {
            assert(addr.val() == a0);
            assert(bog[0] == block.batches_spec()[0].og_spec());
            assert(block.batches_spec()[0].group_vals() == batch_groups_spec(bog[0]));
            assert((nb as u64) % crate::field::FIELD_MODULUS == nb as u64);
            assert(crate::field::fmul(8, nb as u64) == (8 * bog.len()) as u64);
            assert(self.rows() =~= old(self).rows() + seq![
                span_row(parent, batch_groups_spec(bog[0]), (8 * bog.len()) as u64),
            ]);
        }
        let mut gc: u64 = (nb as u64) * 8;
        let ghost mut cur: u64 = a0;
        let mut k: usize = 0;
        proof {
            assert(self.rows() + batches_rows(bog, 0, cur, parent, nb as int) =~= target_seg);
        }
        while k < nb
            invariant
                k <= nb,
                nb == batches@.len(),
                batches@ == block.batches_spec(),
                bog == block.batches_og(),
                block.wf(),
                span_ops_user(bog),
                nb <= MAX_SPAN_BATCHES,
                self.wf(),
                self.conditions() == old(self).conditions(),
                parent == parent_of(old(self).open_blocks()),
                target_seg == old(self).rows() + span_seg_rows(bog, a0, parent),
                self.open_blocks().len() == old(self).open_blocks().len() + 1,
                self.open_blocks().drop_last() == old(self).open_blocks(),
                self.open_blocks().last().addr.val() == cur,
                self.open_blocks().last().parent_addr.val() == parent,
                gc == 8 * (nb - k),
                self.hasher_pos() == crate::field::hasher_advance(a0, nb as u64),
                self.rows() + batches_rows(bog, k as int, cur, parent, nb as int) == target_seg,
                self.rows().len() > old(self).rows().len(),
                self.rows().last().group_count == gc,
                k > 0 ==> self.rows().last().addr == cur,
            decreases nb - k,
        {
            let batch = &batches[k];
            proof {
                assert(bog[k as int] == batch.og_spec());
                assert(batch.wf());
                assert forall|j: int, i: int|
                    0 <= j < batch.og_spec().len() && 0 <= i < batch.og_spec()[j].len() implies (
                #[trigger] batch.og_spec()[j][i]).is_user_op_spec() by {
                    assert(bog[k as int][j][i] == batch.og_spec()[j][i]);
                }
            }
            if k > 0 {
                let ghost pre_rows = self.rows();
                self.decoder.respan(batch);
                proof {
                    cur = fadd(cur, 8);
                    assert(self.open_blocks().drop_last() =~= old(self).open_blocks());
                    assert(self.rows() =~= pre_rows + seq![
                        respan_row(
                            pre_rows.last().addr,
                            batch.group_vals(),
                            pre_rows.last().group_count,
                        ),
                    ]);
                }
            }
            let ghost pre_rows = self.rows();
            let ghost gc_pre = gc as int;
            let res = self.execute_batch_ops(batch, gc);
            gc = match res {
                Ok(v) => v,
                Err(_) => unreached(),
            };
            proof {
                let ng = used_groups(bog[k as int]);
                if k == 0 {
                    assert(batches_rows(bog, 0, cur, parent, nb as int) == batch_rows(
                        bog[0],
                        0,
                        gc_pre,
                        ng,
                        cur,
                        parent,
                    ) + batches_rows(bog, 1, cur, parent, nb as int));
                    assert(self.rows() + batches_rows(bog, 1, cur, parent, nb as int)
                        =~= target_seg);
                } else {
                    assert(self.rows() + batches_rows(bog, k as int + 1, cur, parent, nb as int)
                        =~= target_seg);
                }
            }
            k = k + 1;
        }
        proof {
            assert(batches_rows(bog, nb as int, cur, parent, nb as int) == Seq::<
                TraceRow,
            >::empty());
            assert(self.rows() =~= target_seg);
            assert(gc == 0);
        }
        self.execute_op(Operation::Noop)?;
        let ghost pre_rows = self.rows();
        self.decoder.end_span(block, is_loop_body);
        proof {
            let seg = span_seg_rows(bog, a0, parent);
            assert(seg.len() > 0);
            assert(pre_rows.last() == seg.last());
            assert(self.rows() =~= old(self).rows() + span_full_rows(
                bog,
                a0,
                parent,
                block.hash_spec(),
                is_loop_body,
            ));
            assert(self.open_blocks() =~= old(self).open_blocks());
        }
        Ok(())
    }

    /// Opens a join block: an accounting `Noop`, a fresh hasher address,
    /// and the join's start row.
    pub fn start_join_block(&mut self, block: &crate::blocks::Join) -> (r: Result<
        (),
        ExecutionError,
    >)
        requires
            old(self).wf(),
        ensures
            r is Ok,
            final(self).wf(),
            final(self).conditions() == old(self).conditions(),
            final(self).open_blocks().len() == old(self).open_blocks().len() + 1,
            final(self).open_blocks().drop_last() == old(self).open_blocks(),
            final(self).open_blocks().last().addr.val() == old(self).hasher_pos(),
            final(self).hasher_pos() == fadd(old(self).hasher_pos(), 8),
            final(self).rows() == old(self).rows().push(
                crate::rows::control_row(
                    parent_of(old(self).open_blocks()),
                    crate::ops::OPCODE_JOIN,
                    block.first.hash_spec(),
                    block.second.hash_spec(),
                ),
            ),
    {
        self.execute_op(Operation::Noop)?;
        let addr = self.hasher.block_addr();
        self.decoder.start_join(block, addr);
        Ok(())
    }

    /// Closes a join block: an accounting `Noop` and the join's end row.
    pub fn end_join_block(&mut self, block: &crate::blocks::Join) -> (r: Result<
        (),
        ExecutionError,
    >)
        requires
            old(self).wf(),
            old(self).open_blocks().len() > 0,
        ensures
            r is Ok,
            final(self).wf(),
            final(self).conditions() == old(self).conditions(),
            final(self).open_blocks() == old(self).open_blocks().drop_last(),
            final(self).hasher_pos() == old(self).hasher_pos(),
            final(self).rows() == old(self).rows().push(
                end_row(
                    old(self).open_blocks().last().addr.val(),
                    block.hash.vals(),
                    false,
                    false,
                ),
            ),
    {
        self.execute_op(Operation::Noop)?;
        self.decoder.end_join(block);
        Ok(())
    }

    /// Opens a split block: reads and consumes the condition, takes a fresh
    /// hasher address, and appends the split's start row. The condition is
    /// returned for the driver to branch on.
    pub fn start_split_block(&mut self, block: &crate::blocks::Split) -> (r: Result<
        Felt,
        ExecutionError,
    >)
        requires
            old(self).wf(),
        ensures
            r is Ok,
            final(self).wf(),
            r matches Ok(c) && (old(self).conditions().len() == 0 ==> c.val() == 0) && (old(
                self,
            ).conditions().len() > 0 ==> c.val() == old(self).conditions().last()),
            old(self).conditions().len() > 0 ==> final(self).conditions() == old(
                self,
            ).conditions().drop_last(),
            old(self).conditions().len() == 0 ==> final(self).conditions() == old(
                self,
            ).conditions(),
            final(self).open_blocks().len() == old(self).open_blocks().len() + 1,
            final(self).open_blocks().drop_last() == old(self).open_blocks(),
            final(self).open_blocks().last().addr.val() == old(self).hasher_pos(),
            final(self).hasher_pos() == fadd(old(self).hasher_pos(), 8),
            final(self).rows() == old(self).rows().push(
                crate::rows::control_row(
                    parent_of(old(self).open_blocks()),
                    crate::ops::OPCODE_SPLIT,
                    block.on_true.hash_spec(),
                    block.on_false.hash_spec(),
                ),
            ),
    {
        let condition = self.peek_top();
        self.drop_top();
        let addr = self.hasher.block_addr();
        self.decoder.start_split(block, addr, condition);
        Ok(condition)
    }

    /// Closes a split block: an accounting `Noop` and the split's end row.
    pub fn end_split_block(&mut self, block: &crate::blocks::Split) -> (r: Result<
        (),
        ExecutionError,
    >)
        requires
            old(self).wf(),
            old(self).open_blocks().len() > 0,
        ensures
            r is Ok,
            final(self).wf(),
            final(self).conditions() == old(self).conditions(),
            final(self).open_blocks() == old(self).open_blocks().drop_last(),
            final(self).hasher_pos() == old(self).hasher_pos(),
            final(self).rows() == old(self).rows().push(
                end_row(
                    old(self).open_blocks().last().addr.val(),
                    block.hash.vals(),
                    false,
                    false,
                ),
            ),
    {
        self.execute_op(Operation::Noop)?;
        self.decoder.end_split(block);
        Ok(())
    }

    /// Opens a loop block: reads and consumes the condition, takes a fresh
    /// hasher address, and appends the loop's start row.
    pub fn start_loop_block(&mut self, block: &crate::blocks::Loop) -> (r: Result<
        Felt,
        ExecutionError,
    >)
        requires
            old(self).wf(),
        ensures
            r is Ok,
            final(self).wf(),
            r matches Ok(c) && (old(self).conditions().len() == 0 ==> c.val() == 0) && (old(
                self,
            ).conditions().len() > 0 ==> c.val() == old(self).conditions().last()),
            old(self).conditions().len() > 0 ==> final(self).conditions() == old(
                self,
            ).conditions().drop_last(),
            old(self).conditions().len() == 0 ==> final(self).conditions() == old(
                self,
            ).conditions(),
            final(self).open_blocks().len() == old(self).open_blocks().len() + 1,
            final(self).open_blocks().drop_last() == old(self).open_blocks(),
            final(self).open_blocks().last().addr.val() == old(self).hasher_pos(),
            final(self).hasher_pos() == fadd(old(self).hasher_pos(), 8),
            final(self).rows() == old(self).rows().push(
                crate::rows::control_row(
                    parent_of(old(self).open_blocks()),
                    crate::ops::OPCODE_LOOP,
                    block.body.hash_spec(),
                    crate::blocks::zero_word(),
                ),
            ),
    {
        let condition = self.peek_top();
        self.drop_top();
        let addr = self.hasher.block_addr();
        self.decoder.start_loop(block, addr, condition);
        Ok(condition)
    }

    /// Closes a loop block: an accounting `Noop` and the loop's end row,
    /// whose fifth hasher cell records whether the body ran at all.
    pub fn end_loop_block(&mut self, block: &crate::blocks::Loop, entered: bool) -> (r: Result<
        (),
        ExecutionError,
    >)
        requires
            old(self).wf(),
            old(self).open_blocks().len() > 0,
        ensures
            r is Ok,
            final(self).wf(),
            final(self).conditions() == old(self).conditions(),
            final(self).open_blocks() == old(self).open_blocks().drop_last(),
            final(self).hasher_pos() == old(self).hasher_pos(),
            final(self).rows() == old(self).rows().push(
                end_row(
                    old(self).open_blocks().last().addr.val(),
                    block.hash.vals(),
                    entered,
                    true,
                ),
            ),
    {
        self.execute_op(Operation::Noop)?;
        self.decoder.end_loop(block, entered);
        Ok(())
    }

    /// Executes one code block: dispatches on its variant and emits its
    /// whole trace segment, from start row to `End` row.
    #[verifier::rlimit(100)]
    #[verifier::spinoff_prover]
    fn exec_block(&mut self, block: &CodeBlock, is_loop_body: bool) -> (r: Result<
        (),
        ExecutionError,
    >)
        requires
            old(self).wf(),
            block.wf(),
        ensures
            final(self).wf(),
            final(self).conditions().len() <= old(self).conditions().len(),
            no_conditionals(*block) ==> final(self).conditions() == old(self).conditions(),
            r is Ok <==> run(
                *block,
                old(self).conditions(),
                old(self).hasher_pos(),
                parent_of(old(self).open_blocks()),
                is_loop_body,
            ).error is None,
            r is Ok ==> ({
                let o = run(
                    *block,
                    old(self).conditions(),
                    old(self).hasher_pos(),
                    parent_of(old(self).open_blocks()),
                    is_loop_body,
                );
                &&& final(self).rows() == old(self).rows() + o.rows
                &&& final(self).conditions() == o.conds
                &&& final(self).hasher_pos() == o.pos
            }),
            r matches Err(e) ==> matches_run_error(
                e,
                run(
                    *block,
                    old(self).conditions(),
                    old(self).hasher_pos(),
                    parent_of(old(self).open_blocks()),
                    is_loop_body,
                ).error,
            ),
            r is Ok ==> final(self).open_blocks() == old(self).open_blocks(),
            r is Ok ==> final(self).rows().len() >= old(self).rows().len() + 2,
            r is Ok ==> final(self).rows().take(old(self).rows().len() as int) == old(
                self,
            ).rows(),
            r is Ok ==> block_end_row(final(self).rows().last(), *block, is_loop_body),
            r is Ok ==> final(self).rows()[old(self).rows().len() as int].op == start_code(
                *block,
            ),
            r is Ok ==> final(self).rows()[old(self).rows().len() as int].addr == parent_of(
                old(self).open_blocks(),
            ),
            (no_conditionals(*block) && blocks_executable(*block)) ==> r is Ok,
            (forall|f: Felt| r == Err::<(), ExecutionError>(ExecutionError::NotBinaryValue(f))
                ==> f.val() >= 2),
            r == Err::<(), ExecutionError>(ExecutionError::UnexecutableCodeBlock)
                ==> !blocks_executable(*block),
        decreases block.height(), 1int,
    {
        let ghost cs = old(self).conditions();
        let ghost pos0 = old(self).hasher_pos();
        let ghost par = parent_of(old(self).open_blocks());
        let ghost o = run(*block, cs, pos0, par, is_loop_body);
        match block {
            CodeBlock::Span(span) => {
                let ghost pre = self.rows();
                let res = self.execute_span_block(span, is_loop_body);
                proof {
                    if res is Ok {
                        let seg = span_full_rows(
                            span.batches_og(),
                            pos0,
                            par,
                            span.hash_spec(),
                            is_loop_body,
                        );
                        let inner = span_seg_rows(span.batches_og(), pos0, par);
                        assert(seg.len() == inner.len() + 1);
                        assert(inner.len() >= 1);
                        assert(self.rows().take(pre.len() as int) =~= pre);
                        assert(self.rows().last() == seg.last());
                        assert(seg.last() == end_row(
                            inner.last().addr,
                            span.hash_spec(),
                            is_loop_body,
                            false,
                        ));
                        crate::hasher::lemma_hash_elems_len(
                            crate::span::span_groups_spec(span.batches_og()),
                            crate::hasher::DOMAIN_SPAN,
                        );
                        lemma_end_row_fields(
                            inner.last().addr,
                            span.hash_spec(),
                            is_loop_body,
                            false,
                        );
                        assert(self.rows()[pre.len() as int] == seg[0]);
                        assert(seg[0] == inner[0]);
                        assert(o.error is None && o.rows == seg && o.conds == cs);
                    } else {
                        assert(o.error == Some(RunError::Malformed));
                    }
                }
                res
            },
            CodeBlock::Join(j) => {
                let ghost n0 = self.rows().len();
                let ghost o1 = run(j.first, cs, fadd(pos0, 8), pos0, false);
                match self.start_join_block(j) {
                    Ok(()) => (),
                    Err(_) => unreached(),
                }
                let ghost rows1 = self.rows();
                proof {
                    assert(self.conditions() == cs);
                    assert(self.hasher_pos() == fadd(pos0, 8));
                    assert(parent_of(self.open_blocks()) == pos0);
                    assert(rows1.take(n0 as int) =~= old(self).rows());
                }
                match self.exec_block(&j.first, false) {
                    Ok(()) => (),
                    Err(e) => {
                        proof {
                            assert(o1.error is Some);
                            assert(o == o1);
                        }
                        return Err(e);
                    },
                }
                let ghost rows2 = self.rows();
                proof {
                    assert(o1.error is None);
                    assert(self.conditions() == o1.conds);
                    assert(o1.conds.len() <= cs.len());
                    assert(capped(o1.conds, cs) == o1.conds);
                    assert(self.hasher_pos() == o1.pos);
                    assert(parent_of(self.open_blocks()) == pos0);
                }
                let ghost o2 = run(j.second, o1.conds, o1.pos, pos0, false);
                match self.exec_block(&j.second, false) {
                    Ok(()) => (),
                    Err(e) => {
                        proof {
                            assert(o2.error is Some);
                            assert(o == o2);
                        }
                        return Err(e);
                    },
                }
                let ghost rows3 = self.rows();
                let res = self.end_join_block(j);
                proof {
                    lemma_prefix_chain(rows1, rows2, n0 as int);
                    lemma_prefix_chain(rows2, rows3, n0 as int);
                    assert(self.rows().take(n0 as int) =~= old(self).rows());
                    assert(self.rows()[n0 as int] == rows1[n0 as int]);
                    let last = self.rows().last();
                    lemma_end_row_fields(last.addr, j.hash.vals(), false, false);
                    assert(block_end_row(last, *block, is_loop_body));
                    assert(o.error is None);
                    assert(self.rows() =~= old(self).rows() + o.rows);
                    assert(self.conditions() == o.conds);
                    assert(self.hasher_pos() == o.pos);
                }
                res
            },
            CodeBlock::Split(s) => {
                let ghost n0 = self.rows().len();
                let ghost c = cond_top(cs);
                let ghost rest = cond_rest(cs);
                let condition = match self.start_split_block(s) {
                    Ok(cnd) => cnd,
                    Err(_) => unreached(),
                };
                let ghost rows1 = self.rows();
                proof {
                    assert(condition.val() == c);
                    assert(self.conditions() == rest);
                    assert(self.hasher_pos() == fadd(pos0, 8));
                    assert(parent_of(self.open_blocks()) == pos0);
                    assert(rows1.take(n0 as int) =~= old(self).rows());
                }
                let cv = condition.as_int();
                if cv >= 2 {
                    proof {
                        assert(o.error == Some(RunError::NonBinary(c)));
                    }
                    return Err(ExecutionError::NotBinaryValue(condition));
                }
                let ghost ob = run(
                    if c == 1 {
                        s.on_true
                    } else {
                        s.on_false
                    },
                    rest,
                    fadd(pos0, 8),
                    pos0,
                    false,
                );
                let branch_res = if cv == 1 {
                    self.exec_block(&s.on_true, false)
                } else {
                    self.exec_block(&s.on_false, false)
                };
                match branch_res {
                    Ok(()) => (),
                    Err(e) => {
                        proof {
                            assert(ob.error is Some);
                            assert(o == ob);
                        }
                        return Err(e);
                    },
                }
                let ghost rows2 = self.rows();
                let res = self.end_split_block(s);
                proof {
                    lemma_prefix_chain(rows1, rows2, n0 as int);
                    assert(self.rows().take(n0 as int) =~= old(self).rows());
                    assert(self.rows()[n0 as int] == rows1[n0 as int]);
                    let last = self.rows().last();
                    lemma_end_row_fields(last.addr, s.hash.vals(), false, false);
                    assert(block_end_row(last, *block, is_loop_body));
                    assert(ob.error is None);
                    assert(o.error is None);
                    assert(self.rows() =~= old(self).rows() + o.rows);
                    assert(self.conditions() == o.conds);
                    assert(self.hasher_pos() == o.pos);
                }
                res
            },
            CodeBlock::Loop(l) => self.exec_loop_arm(l, Ghost(*block), is_loop_body),
        }
    }


    /// The `Loop` variant of the tree walk: the consumed condition decides
    /// entry, and after each body run a fresh condition decides between a
    /// `Repeat` row with another run and the loop's `End` row.
    #[verifier::rlimit(100)]
    #[verifier::spinoff_prover]
    fn exec_loop_arm(
        &mut self,
        l: &crate::blocks::Loop,
        Ghost(blk): Ghost<CodeBlock>,
        is_loop_body: bool,
    ) -> (r: Result<(), ExecutionError>)
        requires
            old(self).wf(),
            blk matches CodeBlock::Loop(lb) && *lb == *l,
            blk.wf(),
        ensures
            final(self).wf(),
            final(self).conditions().len() <= old(self).conditions().len(),
            no_conditionals(blk) ==> final(self).conditions() == old(self).conditions(),
            r is Ok <==> run(
                blk,
                old(self).conditions(),
                old(self).hasher_pos(),
                parent_of(old(self).open_blocks()),
                is_loop_body,
            ).error is None,
            r is Ok ==> ({
                let o = run(
                    blk,
                    old(self).conditions(),
                    old(self).hasher_pos(),
                    parent_of(old(self).open_blocks()),
                    is_loop_body,
                );
                &&& final(self).rows() == old(self).rows() + o.rows
                &&& final(self).conditions() == o.conds
                &&& final(self).hasher_pos() == o.pos
            }),
            r matches Err(e) ==> matches_run_error(
                e,
                run(
                    blk,
                    old(self).conditions(),
                    old(self).hasher_pos(),
                    parent_of(old(self).open_blocks()),
                    is_loop_body,
                ).error,
            ),
            r is Ok ==> final(self).open_blocks() == old(self).open_blocks(),
            r is Ok ==> final(self).rows().len() >= old(self).rows().len() + 2,
            r is Ok ==> final(self).rows().take(old(self).rows().len() as int) == old(
                self,
            ).rows(),
            r is Ok ==> block_end_row(final(self).rows().last(), blk, is_loop_body),
            r is Ok ==> final(self).rows()[old(self).rows().len() as int].op == start_code(blk),
            r is Ok ==> final(self).rows()[old(self).rows().len() as int].addr == parent_of(
                old(self).open_blocks(),
            ),
            (no_conditionals(blk) && blocks_executable(blk)) ==> r is Ok,
            (forall|f: Felt| r == Err::<(), ExecutionError>(ExecutionError::NotBinaryValue(f))
                ==> f.val() >= 2),
            r == Err::<(), ExecutionError>(ExecutionError::UnexecutableCodeBlock)
                ==> !blocks_executable(blk),
        decreases blk.height(), 0int,
    {
        let ghost cs = old(self).conditions();
        let ghost pos0 = old(self).hasher_pos();
        let ghost par = parent_of(old(self).open_blocks());
        let ghost o = run(blk, cs, pos0, par, is_loop_body);
        let ghost n0 = self.rows().len();
        let ghost c = cond_top(cs);
        let ghost rest = cond_rest(cs);
        let ghost looprow = crate::rows::control_row(
            par,
            crate::ops::OPCODE_LOOP,
            l.body.hash_spec(),
            crate::blocks::zero_word(),
        );
        let condition = match self.start_loop_block(l) {
            Ok(cnd) => cnd,
            Err(_) => unreached(),
        };
        let ghost rows1 = self.rows();
        proof {
            assert(condition.val() == c);
            assert(self.conditions() == rest);
            assert(self.hasher_pos() == fadd(pos0, 8));
            assert(parent_of(self.open_blocks()) == pos0);
            assert(self.open_blocks().last().addr.val() == pos0);
            assert(rows1 == old(self).rows().push(looprow));
            assert(rows1.take(n0 as int) =~= old(self).rows());
        }
        let cv = condition.as_int();
        if cv == 0 {
            // the body never runs: close the loop at once
            let res = self.end_loop_block(l, false);
            proof {
                assert(self.rows().take(n0 as int) =~= old(self).rows());
                assert(self.rows()[n0 as int] == rows1[n0 as int]);
                let last = self.rows().last();
                lemma_end_row_fields(last.addr, l.hash.vals(), false, true);
                assert(block_end_row(last, blk, is_loop_body));
                assert(o.error is None);
                assert(o.rows =~= seq![looprow, end_row(pos0, l.hash.vals(), false, true)]);
                assert(self.rows() =~= old(self).rows() + o.rows);
                assert(self.conditions() == o.conds);
                assert(self.hasher_pos() == o.pos);
            }
            res
        } else if cv == 1 {
            let ghost ob = run(l.body, rest, fadd(pos0, 8), pos0, true);
            match self.exec_block(&l.body, true) {
                Ok(()) => (),
                Err(e) => {
                    proof {
                        assert(ob.error is Some);
                        assert(o == ob);
                    }
                    return Err(e);
                },
            }
            let ghost base_rows = self.rows();
            proof {
                lemma_prefix_chain(rows1, self.rows(), n0 as int);
                assert(ob.error is None);
                assert(self.conditions() == ob.conds);
                assert(ob.conds.len() <= rest.len());
                assert(capped(ob.conds, rest) == ob.conds);
                assert(self.hasher_pos() == ob.pos);
                assert(base_rows == rows1 + ob.rows);
            }
            let ghost rest0 = run_loop_rest(*l, ob.conds, ob.pos, pos0);
            let mut done = false;
            while !done
                invariant
                    self.wf(),
                    l.body.wf(),
                    blk matches CodeBlock::Loop(lb) && *lb == *l,
                    n0 == old(self).rows().len(),
                    cs == old(self).conditions(),
                    pos0 == old(self).hasher_pos(),
                    par == parent_of(old(self).open_blocks()),
                    o == run(blk, cs, pos0, par, is_loop_body),
                    cond_top(cs) == 1,
                    rest == cond_rest(cs),
                    looprow == crate::rows::control_row(
                        par,
                        crate::ops::OPCODE_LOOP,
                        l.body.hash_spec(),
                        crate::blocks::zero_word(),
                    ),
                    rows1 == old(self).rows().push(looprow),
                    ob == run(l.body, rest, fadd(pos0, 8), pos0, true),
                    ob.error is None,
                    capped(ob.conds, rest) == ob.conds,
                    base_rows == rows1 + ob.rows,
                    rest0 == run_loop_rest(*l, ob.conds, ob.pos, pos0),
                    self.open_blocks().len() == old(self).open_blocks().len() + 1,
                    self.open_blocks().drop_last() == old(self).open_blocks(),
                    self.open_blocks().last().addr.val() == pos0,
                    self.conditions().len() < old(self).conditions().len(),
                    self.rows().len() > n0,
                    self.rows().take(n0 as int) == old(self).rows(),
                    self.rows()[n0 as int].op == crate::ops::OPCODE_LOOP,
                    self.rows()[n0 as int].addr == par,
                    !done ==> ({
                        let rlr = run_loop_rest(
                            *l,
                            self.conditions(),
                            self.hasher_pos(),
                            pos0,
                        );
                        &&& rlr.error == rest0.error
                        &&& (rest0.error is None ==> self.rows() + rlr.rows == base_rows
                            + rest0.rows && rlr.conds == rest0.conds && rlr.pos
                            == rest0.pos)
                    }),
                    done ==> rest0.error is None && self.rows() == base_rows + rest0.rows
                        && self.conditions() == rest0.conds && self.hasher_pos()
                        == rest0.pos,
                decreases self.conditions().len(), (if done {
                    0int
                } else {
                    1int
                }),
            {
                let ghost cur_conds = self.conditions();
                let ghost cur_pos = self.hasher_pos();
                let ghost cur_rows = self.rows();
                let ghost rlr = run_loop_rest(*l, cur_conds, cur_pos, pos0);
                let c2 = self.peek_top();
                self.drop_top();
                let cv2 = c2.as_int();
                proof {
                    assert(c2.val() == cond_top(cur_conds));
                    assert(self.conditions() == cond_rest(cur_conds));
                }
                if cv2 == 1 {
                    self.decoder.repeat(l);
                    let ghost rows_r = self.rows();
                    let ghost obi = run(
                        l.body,
                        cond_rest(cur_conds),
                        cur_pos,
                        pos0,
                        true,
                    );
                    proof {
                        assert(rows_r.take(n0 as int) =~= old(self).rows());
                        assert(rows_r == cur_rows.push(
                            crate::rows::control_row(
                                pos0,
                                crate::ops::OPCODE_REPEAT,
                                l.body.hash_spec(),
                                crate::blocks::zero_word(),
                            ),
                        ));
                        assert(parent_of(self.open_blocks()) == pos0);
                    }
                    match self.exec_block(&l.body, true) {
                        Ok(()) => (),
                        Err(e) => {
                            proof {
                                assert(obi.error is Some);
                                assert(rlr == obi);
                                assert(rest0.error == rlr.error);
                                assert(o == rest0);
                            }
                            return Err(e);
                        },
                    }
                    proof {
                        lemma_prefix_chain(rows_r, self.rows(), n0 as int);
                        assert(self.rows().take(n0 as int) =~= old(self).rows());
                        assert(self.rows()[n0 as int] == rows_r[n0 as int]);
                        assert(obi.error is None);
                        assert(self.conditions() == obi.conds);
                        assert(obi.conds.len() <= cond_rest(cur_conds).len());
                        assert(capped(obi.conds, cond_rest(cur_conds)) == obi.conds);
                        assert(self.hasher_pos() == obi.pos);
                        let rlr_next = run_loop_rest(*l, obi.conds, obi.pos, pos0);
                        assert(rlr.error == rlr_next.error);
                        if rest0.error is None {
                            assert(rlr_next.error is None);
                            assert(rlr.rows == seq![
                                crate::rows::control_row(
                                    pos0,
                                    crate::ops::OPCODE_REPEAT,
                                    l.body.hash_spec(),
                                    crate::blocks::zero_word(),
                                ),
                            ] + obi.rows + rlr_next.rows);
                            assert(self.rows() + rlr_next.rows =~= cur_rows + rlr.rows);
                        }
                    }
                } else if cv2 == 0 {
                    proof {
                        assert(rlr.error is None);
                        assert(rest0.error is None);
                        assert(rlr.rows == Seq::<TraceRow>::empty());
                        assert(self.rows() =~= cur_rows + rlr.rows);
                        assert(self.conditions() == rlr.conds);
                        assert(self.hasher_pos() == rlr.pos);
                    }
                    done = true;
                } else {
                    proof {
                        assert(rlr.error == Some(RunError::NonBinary(c2.val())));
                        assert(rest0.error == rlr.error);
                        assert(o == rest0);
                    }
                    return Err(ExecutionError::NotBinaryValue(c2));
                }
            }
            let ghost rows_b = self.rows();
            let res = self.end_loop_block(l, true);
            proof {
                assert(self.rows().take(rows_b.len() as int) =~= rows_b);
                lemma_prefix_chain(rows_b, self.rows(), n0 as int);
                assert(self.rows().take(n0 as int) =~= old(self).rows());
                assert(self.rows()[n0 as int] == rows_b[n0 as int]);
                let last = self.rows().last();
                lemma_end_row_fields(last.addr, l.hash.vals(), true, true);
                assert(block_end_row(last, blk, is_loop_body));
                assert(o.error is None);
                assert(o.rows == seq![looprow] + ob.rows + rest0.rows + seq![
                    end_row(pos0, l.hash.vals(), true, true),
                ]);
                assert(self.rows() =~= old(self).rows() + o.rows);
                assert(self.conditions() == o.conds);
                assert(self.hasher_pos() == o.pos);
            }
            res
        } else {
            proof {
                assert(o.error == Some(RunError::NonBinary(c)));
            }
            Err(ExecutionError::NotBinaryValue(condition))
        }
    }

    /// Executes a whole program tree, starting at its root block.
    pub fn execute_code_block(&mut self, block: &CodeBlock) -> (r: Result<(), ExecutionError>)
        requires
            old(self).wf(),
            block.wf(),
        ensures
            final(self).wf(),
            r is Ok ==> final(self).open_blocks() == old(self).open_blocks(),
            r is Ok ==> final(self).rows().len() >= old(self).rows().len() + 2,
            r is Ok ==> final(self).rows().take(old(self).rows().len() as int) == old(
                self,
            ).rows(),
            r is Ok ==> block_end_row(final(self).rows().last(), *block, false),
            r is Ok ==> final(self).rows()[old(self).rows().len() as int].op == start_code(
                *block,
            ),
            r is Ok <==> run(
                *block,
                old(self).conditions(),
                old(self).hasher_pos(),
                parent_of(old(self).open_blocks()),
                false,
            ).error is None,
            r is Ok ==> ({
                let o = run(
                    *block,
                    old(self).conditions(),
                    old(self).hasher_pos(),
                    parent_of(old(self).open_blocks()),
                    false,
                );
                &&& final(self).rows() == old(self).rows() + o.rows
                &&& final(self).conditions() == o.conds
                &&& final(self).hasher_pos() == o.pos
            }),
            r matches Err(e) ==> matches_run_error(
                e,
                run(
                    *block,
                    old(self).conditions(),
                    old(self).hasher_pos(),
                    parent_of(old(self).open_blocks()),
                    false,
                ).error,
            ),
            (no_conditionals(*block) && blocks_executable(*block)) ==> r is Ok,
            (forall|f: Felt| r == Err::<(), ExecutionError>(ExecutionError::NotBinaryValue(f))
                ==> f.val() >= 2),
            r == Err::<(), ExecutionError>(ExecutionError::UnexecutableCodeBlock)
                ==> !blocks_executable(*block),
    {
        self.exec_block(block, false)
    }

    /// The number of trace rows built so far.
    pub fn trace_len(&self) -> (r: usize)
        requires
            self.wf(),
        ensures
            r == self.rows().len(),
    {
        self.decoder.trace_len()
    }

    /// Finalizes the decoder trace to its 19 columns of `trace_len` cells.
    pub fn into_decoder_trace(self, trace_len: usize, num_rand_rows: usize) -> (r: Vec<Vec<Felt>>)
        requires
            self.wf(),
            self.rows().len() + num_rand_rows <= trace_len,
            crate::trace::MIN_TRACE_LEN <= trace_len,
            crate::trace::is_power_of_two(trace_len as int),
        ensures
            r@.len() == crate::rows::NUM_TRACE_COLS,
            forall|c: int|
                0 <= c < crate::rows::NUM_TRACE_COLS ==> (#[trigger] r@[c])@.len() == trace_len,
            forall|c: int, i: int|
                0 <= c < crate::rows::NUM_TRACE_COLS && 0 <= i < trace_len ==> (#[trigger] r@[
                c]@[i]).val() == crate::trace::cell_spec(self.rows(), c, i),
    {
        self.decoder.into_trace(trace_len, num_rand_rows)
    }
}

// ---------------------------------------------------------------------------
// Specification: the driver's obligations over whole blocks
// ---------------------------------------------------------------------------

/// A block tree without `Split` and `Loop` blocks: its execution consumes
/// no condition and cannot fail on one.
pub open spec fn no_conditionals(b: CodeBlock) -> bool
    decreases b,
{
    match b {
        CodeBlock::Span(_) => true,
        CodeBlock::Join(j) => no_conditionals(j.first) && no_conditionals(j.second),
        CodeBlock::Split(_) => false,
        CodeBlock::Loop(_) => false,
    }
}

/// Every span of the tree holds at least one batch, of user operations
/// only: exactly what `UnexecutableCodeBlock` reports the want of.
pub open spec fn blocks_executable(b: CodeBlock) -> bool
    decreases b,
{
    match b {
        CodeBlock::Span(s) => s.batches_spec().len() > 0 && s.batches_spec().len()
            <= MAX_SPAN_BATCHES && span_ops_user(s.batches_og()),
        CodeBlock::Join(j) => blocks_executable(j.first) && blocks_executable(j.second),
        CodeBlock::Split(s) => blocks_executable(s.on_true) && blocks_executable(s.on_false),
        CodeBlock::Loop(l) => blocks_executable(l.body),
    }
}

/// Why a run stopped early.
pub enum RunError {
    /// A consumed condition was neither zero nor one; carries its value.
    NonBinary(u64),
    /// A malformed span: no batch, too many batches, or a packed group
    /// holding something besides user operations.
    Malformed,
}

/// The outcome of walking one block: the first error if any; on success the
/// trace segment emitted, the conditions left on the stack, and the hasher
/// position after.
pub struct RunOutcome {
    pub error: Option<RunError>,
    pub rows: Seq<TraceRow>,
    pub conds: Seq<u64>,
    pub pos: u64,
}

/// The condition a conditional block consumes: the top of the stack, or
/// zero when the stack is empty (the processor's stack is bottomless).
pub open spec fn cond_top(conds: Seq<u64>) -> u64 {
    if conds.len() == 0 {
        0
    } else {
        conds.last()
    }
}

/// The conditions left once the top one is consumed.
pub open spec fn cond_rest(conds: Seq<u64>) -> Seq<u64> {
    if conds.len() == 0 {
        conds
    } else {
        conds.drop_last()
    }
}

/// A walk never adds conditions, so what a sub-walk leaves is at most what
/// it was given; the cap makes that bound structural, so the recursion of
/// `run` visibly terminates. The driver's contracts show the cap never
/// bites: every sub-walk's leftover is within bound.
pub open spec fn capped(rest: Seq<u64>, bound: Seq<u64>) -> Seq<u64> {
    if rest.len() <= bound.len() {
        rest
    } else {
        bound
    }
}

/// The walk of one block over a condition stack: which rows it emits, what
/// it leaves of the conditions and the hasher, and the first error — the
/// full §4.4 protocol as one function.
pub open spec fn run(
    b: CodeBlock,
    conds: Seq<u64>,
    pos: u64,
    parent: u64,
    is_loop_body: bool,
) -> RunOutcome
    decreases conds.len(), b.height(), 1int,
{
    match b {
        CodeBlock::Span(s) => {
            if s.batches_spec().len() > 0 && s.batches_spec().len() <= MAX_SPAN_BATCHES
                && span_ops_user(s.batches_og()) {
                RunOutcome {
                    error: None,
                    rows: span_full_rows(s.batches_og(), pos, parent, s.hash_spec(), is_loop_body),
                    conds,
                    pos: crate::field::hasher_advance(pos, s.batches_spec().len() as u64),
                }
            } else {
                RunOutcome { error: Some(RunError::Malformed), rows: Seq::empty(), conds, pos }
            }
        },
        CodeBlock::Join(j) => {
            let o1 = run(j.first, conds, fadd(pos, 8), pos, false);
            if o1.error is Some {
                o1
            } else {
                let o2 = run(j.second, capped(o1.conds, conds), o1.pos, pos, false);
                if o2.error is Some {
                    o2
                } else {
                    RunOutcome {
                        error: None,
                        rows: seq![
                            crate::rows::control_row(
                                parent,
                                crate::ops::OPCODE_JOIN,
                                j.first.hash_spec(),
                                j.second.hash_spec(),
                            ),
                        ] + o1.rows + o2.rows + seq![end_row(pos, j.hash.vals(), false, false)],
                        conds: o2.conds,
                        pos: o2.pos,
                    }
                }
            }
        },
        CodeBlock::Split(s) => {
            let c = cond_top(conds);
            let rest = cond_rest(conds);
            if c >= 2 {
                RunOutcome {
                    error: Some(RunError::NonBinary(c)),
                    rows: Seq::empty(),
                    conds: rest,
                    pos,
                }
            } else {
                let o = run(
                    if c == 1 {
                        s.on_true
                    } else {
                        s.on_false
                    },
                    rest,
                    fadd(pos, 8),
                    pos,
                    false,
                );
                if o.error is Some {
                    o
                } else {
                    RunOutcome {
                        error: None,
                        rows: seq![
                            crate::rows::control_row(
                                parent,
                                crate::ops::OPCODE_SPLIT,
                                s.on_true.hash_spec(),
                                s.on_false.hash_spec(),
                            ),
                        ] + o.rows + seq![end_row(pos, s.hash.vals(), false, false)],
                        conds: o.conds,
                        pos: o.pos,
                    }
                }
            }
        },
        CodeBlock::Loop(l) => {
            let c = cond_top(conds);
            let rest = cond_rest(conds);
            if c >= 2 {
                RunOutcome {
                    error: Some(RunError::NonBinary(c)),
                    rows: Seq::empty(),
                    conds: rest,
                    pos,
                }
            } else if c == 0 {
                RunOutcome {
                    error: None,
                    rows: seq![
                        crate::rows::control_row(
                            parent,
                            crate::ops::OPCODE_LOOP,
                            l.body.hash_spec(),
                            crate::blocks::zero_word(),
                        ),
                        end_row(pos, l.hash.vals(), false, true),
                    ],
                    conds: rest,
                    pos: fadd(pos, 8),
                }
            } else {
                let ob = run(l.body, rest, fadd(pos, 8), pos, true);
                if ob.error is Some {
                    ob
                } else {
                    let or = run_loop_rest(*l, capped(ob.conds, rest), ob.pos, pos);
                    if or.error is Some {
                        or
                    } else {
                        RunOutcome {
                            error: None,
                            rows: seq![
                                crate::rows::control_row(
                                    parent,
                                    crate::ops::OPCODE_LOOP,
                                    l.body.hash_spec(),
                                    crate::blocks::zero_word(),
                                ),
                            ] + ob.rows + or.rows + seq![end_row(pos, l.hash.vals(), true, true)],
                            conds: or.conds,
                            pos: or.pos,
                        }
                    }
                }
            }
        },
    }
}

/// The walk of an open loop after one body run: re-check the condition,
/// and while it is one, emit a `Repeat` row and run the body again.
pub open spec fn run_loop_rest(
    l: crate::blocks::Loop,
    conds: Seq<u64>,
    pos: u64,
    loop_addr: u64,
) -> RunOutcome
    decreases conds.len(), l.body.height(), 0int,
{
    let c = cond_top(conds);
    let rest = cond_rest(conds);
    if c >= 2 {
        RunOutcome { error: Some(RunError::NonBinary(c)), rows: Seq::empty(), conds: rest, pos }
    } else if c == 0 {
        RunOutcome { error: None, rows: Seq::empty(), conds: rest, pos }
    } else {
        let ob = run(l.body, rest, pos, loop_addr, true);
        if ob.error is Some {
            ob
        } else {
            let or = run_loop_rest(l, capped(ob.conds, rest), ob.pos, loop_addr);
            if or.error is Some {
                or
            } else {
                RunOutcome {
                    error: None,
                    rows: seq![
                        crate::rows::control_row(
                            loop_addr,
                            crate::ops::OPCODE_REPEAT,
                            l.body.hash_spec(),
                            crate::blocks::zero_word(),
                        ),
                    ] + ob.rows + or.rows,
                    conds: or.conds,
                    pos: or.pos,
                }
            }
        }
    }
}

/// Whether a returned error reports the same failure as the walk's.
pub open spec fn matches_run_error(e: ExecutionError, re: Option<RunError>) -> bool {
    match re {
        Some(RunError::NonBinary(v)) => e matches ExecutionError::NotBinaryValue(f) && f.val()
            == v,
        Some(RunError::Malformed) => e == ExecutionError::UnexecutableCodeBlock,
        None => false,
    }
}

/// The opcode of the row that opens a block's trace segment.
pub open spec fn start_code(b: CodeBlock) -> u64 {
    match b {
        CodeBlock::Span(_) => crate::ops::OPCODE_SPAN,
        CodeBlock::Join(_) => crate::ops::OPCODE_JOIN,
        CodeBlock::Split(_) => crate::ops::OPCODE_SPLIT,
        CodeBlock::Loop(_) => crate::ops::OPCODE_LOOP,
    }
}

/// The shape of the `End` row that closes a block: the block's digest in
/// the first four hasher cells, the `is_loop` flag set exactly on loops,
/// and — except on loops, whose fifth cell records whether the body ran —
/// the `is_loop_body` flag as the driver passed it down.
pub open spec fn block_end_row(r: TraceRow, b: CodeBlock, is_loop_body: bool) -> bool {
    &&& r.op == crate::ops::OPCODE_END
    &&& r.in_span == 0
    &&& r.h.len() == 8
    &&& r.h.subrange(0, 4) == b.hash_spec()
    &&& r.h[4] <= 1
    &&& (b is Span ==> r.h[4] == (if is_loop_body {
        1u64
    } else {
        0u64
    }))
    &&& ((b is Join || b is Split) ==> r.h[4] == 0)
    &&& r.h[5] == (if b is Loop {
        1u64
    } else {
        0u64
    })
    &&& r.h[6] == 0
    &&& r.h[7] == 0
    &&& r.group_count == 0
    &&& r.op_idx == 0
}

/// The fields of an `End` row built over a four-cell digest.
pub proof fn lemma_end_row_fields(addr: u64, hash: Seq<u64>, flag: bool, is_loop: bool)
    requires
        hash.len() == 4,
    ensures
        end_row(addr, hash, flag, is_loop).h.subrange(0, 4) == hash,
        end_row(addr, hash, flag, is_loop).h[4] == (if flag {
            1u64
        } else {
            0u64
        }),
        end_row(addr, hash, flag, is_loop).h[5] == (if is_loop {
            1u64
        } else {
            0u64
        }),
        end_row(addr, hash, flag, is_loop).h[6] == 0,
        end_row(addr, hash, flag, is_loop).h[7] == 0,
        end_row(addr, hash, flag, is_loop).h.len() == 8,
{
    let r = end_row(addr, hash, flag, is_loop);
    assert(r.h.subrange(0, 4) =~= hash);
}

/// The smallest power of two that can hold `rows` trace rows plus the
/// random-row reserve, and at least the minimum trace length; `None` when
/// no such length is addressable on this machine.
pub fn next_trace_len(rows: usize, num_rand_rows: usize) -> (r: Option<usize>)
    ensures
        r matches Some(l) ==> crate::trace::is_power_of_two(l as int)
            && l >= crate::trace::MIN_TRACE_LEN && l >= rows + num_rand_rows && (l
            == crate::trace::MIN_TRACE_LEN || l < 2 * (rows + num_rand_rows)),
        rows + num_rand_rows <= usize::MAX / 4 ==> r is Some,
{
    let needed = match rows.checked_add(num_rand_rows) {
        Some(n) => n,
        None => {
            return None;
        },
    };
    let mut l: usize = crate::trace::MIN_TRACE_LEN;
    proof {
        assert(crate::trace::is_power_of_two(crate::trace::MIN_TRACE_LEN as int)) by {
            reveal_with_fuel(crate::trace::is_power_of_two, 9);
        }
    }
    while l < needed
        invariant
            crate::trace::is_power_of_two(l as int),
            l >= crate::trace::MIN_TRACE_LEN,
            needed == rows + num_rand_rows,
            needed <= usize::MAX / 4 ==> l <= usize::MAX / 2,
            l == crate::trace::MIN_TRACE_LEN || l < 2 * needed,
        decreases (if l < needed {
            needed - l
        } else {
            0int
        }),
    {
        if l > usize::MAX / 2 {
            return None;
        }
        l = l * 2;
        proof {
            assert(crate::trace::is_power_of_two(l as int));
        }
    }
    Some(l)
}

/// Executes a program tree over the given inputs and returns its finalized
/// 19-column decoder trace, or the first error encountered. A run whose
/// trace would outgrow the machine's addressable length is refused like a
/// malformed block.
pub fn execute(program: &CodeBlock, inputs: ProgramInputs) -> (r: Result<
    Vec<Vec<Felt>>,
    ExecutionError,
>)
    requires
        program.wf(),
    ensures
        ({
            let o = run(
                *program,
                inputs.stack_init@.map_values(|v: u64| v % crate::field::FIELD_MODULUS),
                0,
                0,
                false,
            );
            &&& (r matches Ok(cols) ==> o.error is None && cols@.len()
                == crate::rows::NUM_TRACE_COLS && (forall|c: int|
                0 <= c < crate::rows::NUM_TRACE_COLS ==> (#[trigger] cols@[c])@.len()
                    == cols@[0]@.len()) && crate::trace::is_power_of_two(cols@[0]@.len() as int)
                && cols@[0]@.len() >= crate::trace::MIN_TRACE_LEN && cols@[0]@.len() >= o.rows.len()
                + crate::trace::NUM_RAND_ROWS && (cols@[0]@.len() == crate::trace::MIN_TRACE_LEN
                || cols@[0]@.len() < 2 * (o.rows.len() + crate::trace::NUM_RAND_ROWS)) && (forall|
                c: int,
                i: int,
            |
                0 <= c < crate::rows::NUM_TRACE_COLS && 0 <= i < cols@[0]@.len() ==> (#[trigger] cols@[
                c]@[i]).val() == crate::trace::cell_spec(o.rows, c, i)))
            &&& (r matches Err(e) ==> (matches_run_error(e, o.error) || (o.error is None && e
                == ExecutionError::UnexecutableCodeBlock && o.rows.len()
                + crate::trace::NUM_RAND_ROWS > usize::MAX / 4)))
            &&& ((o.error is None && o.rows.len() + crate::trace::NUM_RAND_ROWS <= usize::MAX / 4)
                ==> r is Ok)
        }),
{
    let ghost o = run(
        *program,
        inputs.stack_init@.map_values(|v: u64| v % crate::field::FIELD_MODULUS),
        0,
        0,
        false,
    );
    let mut process = Process::new(inputs);
    match process.execute_code_block(program) {
        Ok(()) => (),
        Err(e) => {
            return Err(e);
        },
    }
    proof {
        assert(process.rows() =~= Seq::<TraceRow>::empty() + o.rows);
        assert(process.rows() =~= o.rows);
    }
    let n = process.trace_len();
    match next_trace_len(n, crate::trace::NUM_RAND_ROWS) {
        Some(trace_len) => Ok(process.into_decoder_trace(trace_len, crate::trace::NUM_RAND_ROWS)),
        None => Err(ExecutionError::UnexecutableCodeBlock),
    }
}

/// Rows already written stay in place as the trace grows: prefixes chain.
pub proof fn lemma_prefix_chain(a: Seq<TraceRow>, b: Seq<TraceRow>, n: int)
    requires
        0 <= n <= a.len() <= b.len(),
        b.take(a.len() as int) == a,
    ensures
        b.take(n) == a.take(n),
        forall|i: int| 0 <= i < a.len() ==> b[i] == a[i],
{
    assert forall|i: int| 0 <= i < a.len() implies b[i] == a[i] by {
        assert(b.take(a.len() as int)[i] == a[i]);
    }
    assert(b.take(n) =~= a.take(n));
}

/// Whether every operation packed into the batches is a user operation.
fn check_span_ops(batches: &Vec<OpBatch>) -> (r: bool)
    ensures
        r == span_ops_user(batches@.map_values(|b: OpBatch| b.og_spec())),
{
    let ghost bog = batches@.map_values(|b: OpBatch| b.og_spec());
    let mut k: usize = 0;
    while k < batches.len()
        invariant
            k <= batches@.len(),
            bog == batches@.map_values(|b: OpBatch| b.og_spec()),
            forall|kk: int, j: int, i: int|
                0 <= kk < k && 0 <= j < bog[kk].len() && 0 <= i < bog[kk][j].len() ==> (
                #[trigger] bog[kk][j][i]).is_user_op_spec(),
        decreases batches@.len() - k,
    {
        let b = &batches[k];
        let mut j: usize = 0;
        while j < b.op_groups.len()
            invariant
                j <= b.op_groups@.len(),
                b == batches@[k as int],
                0 <= k < batches@.len(),
                bog == batches@.map_values(|b: OpBatch| b.og_spec()),
                bog[k as int] == b.og_spec(),
                forall|jj: int, i: int|
                    0 <= jj < j && 0 <= i < bog[k as int][jj].len() ==> (#[trigger] bog[k as int][
                    jj][i]).is_user_op_spec(),
            decreases b.op_groups@.len() - j,
        {
            let grp = &b.op_groups[j];
            let mut i: usize = 0;
            while i < grp.len()
                invariant
                    i <= grp@.len(),
                    grp@ == bog[k as int][j as int],
                    0 <= k < batches@.len(),
                    0 <= j < bog[k as int].len(),
                    bog == batches@.map_values(|b: OpBatch| b.og_spec()),
                    forall|ii: int|
                        0 <= ii < i ==> (#[trigger] bog[k as int][j as int][
                        ii]).is_user_op_spec(),
                decreases grp@.len() - i,
            {
                let op = grp[i];
                let user = match op.op_code() {
                    Some(c) => c < 8,
                    None => false,
                };
                if !user {
                    proof {
                        assert(bog.len() == batches@.len());
                        assert(!bog[k as int][j as int][i as int].is_user_op_spec());
                        assert(!span_ops_user(bog)) by {
                            if span_ops_user(bog) {
                                assert((bog[k as int][j as int][
                                i as int]).is_user_op_spec());
                            }
                        }
                    }
                    return false;
                }
                i = i + 1;
            }
            proof {
                assert(forall|ii: int|
                    0 <= ii < bog[k as int][j as int].len() ==> (#[trigger] bog[k as int][
                    j as int][ii]).is_user_op_spec());
            }
            j = j + 1;
        }
        proof {
            assert(forall|jj: int, ii: int|
                0 <= jj < bog[k as int].len() && 0 <= ii < bog[k as int][jj].len() ==> (
                #[trigger] bog[k as int][jj][ii]).is_user_op_spec());
        }
        k = k + 1;
    }
    proof {
        assert(span_ops_user(bog));
    }
    true
}

} // verus!
