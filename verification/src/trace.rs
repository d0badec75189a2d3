//! The decoder trace buffer: one growable column per trace register, with
//! typed row appenders and a finalization pass to a fixed power-of-two
//! length.

use vstd::prelude::*;
use crate::field::{Felt, Word, FIELD_MODULUS};
use crate::ops::{
    Operation, NUM_OP_BITS, OPCODE_END, OPCODE_HALT, OPCODE_JOIN, OPCODE_LOOP, OPCODE_REPEAT,
    OPCODE_SPLIT, OP_BATCH_SIZE,
};
use crate::rows::{
    bit_of, control_row, end_row, respan_row, row_wf, rows_wf, span_row, user_row, TraceRow,
    NUM_TRACE_COLS,
};

verus! {

/// Smallest length a finalized trace may have.
pub const MIN_TRACE_LEN: usize = 64;

/// Rows reserved at the end of the finalized trace for randomness.
pub const NUM_RAND_ROWS: usize = 1;

/// Whether `n` is a power of two.
pub open spec fn is_power_of_two(n: int) -> bool
    decreases n,
{
    if n <= 0 {
        false
    } else if n == 1 {
        true
    } else {
        n % 2 == 0 && is_power_of_two(n / 2)
    }
}

/// The value of cell `(c, i)` of a finalized trace built from `rows`: the
/// row's cells while real rows last; past them, the bits of `Halt` in the
/// op-bit columns and zeros everywhere else.
pub open spec fn cell_spec(rows: Seq<TraceRow>, c: int, i: int) -> u64 {
    if i < rows.len() {
        row_cell(rows[i], c)
    } else {
        pad_cell(c)
    }
}

/// The value of column `c` at a real row.
pub open spec fn row_cell(r: TraceRow, c: int) -> u64 {
    if c == 0 {
        r.addr
    } else if 1 <= c < 8 {
        bit_of(r.op, c - 1)
    } else if c == 8 {
        r.in_span
    } else if 9 <= c < 17 {
        r.h[c - 9]
    } else if c == 17 {
        r.group_count
    } else {
        r.op_idx
    }
}

/// The value of column `c` in the halt padding.
pub open spec fn pad_cell(c: int) -> u64 {
    if 1 <= c < 8 {
        bit_of(OPCODE_HALT, c - 1)
    } else {
        0
    }
}

/// The column-major decoder trace buffer.
pub struct DecoderTrace {
    addr: Vec<Felt>,
    op_bits: Vec<Vec<Felt>>,
    in_span: Vec<Felt>,
    hasher: Vec<Vec<Felt>>,
    group_count: Vec<Felt>,
    op_idx: Vec<Felt>,
    rows_g: Ghost<Seq<TraceRow>>,
}

impl DecoderTrace {
    /// The rows appended so far.
    pub closed spec fn rows(self) -> Seq<TraceRow> {
        self.rows_g@
    }

    /// The columns mirror the row model cell for cell, and every row is
    /// well-formed.
    pub closed spec fn wf(self) -> bool {
        let rows = self.rows_g@;
        &&& self.op_bits@.len() == NUM_OP_BITS
        &&& self.hasher@.len() == 8
        &&& self.addr@.len() == rows.len()
        &&& self.in_span@.len() == rows.len()
        &&& self.group_count@.len() == rows.len()
        &&& self.op_idx@.len() == rows.len()
        &&& (forall|j: int| 0 <= j < NUM_OP_BITS ==> (#[trigger] self.op_bits@[j])@.len()
            == rows.len())
        &&& (forall|j: int| 0 <= j < 8 ==> (#[trigger] self.hasher@[j])@.len() == rows.len())
        &&& (forall|i: int|
            0 <= i < rows.len() ==> (#[trigger] self.addr@[i]).val() == rows[i].addr)
        &&& (forall|i: int|
            0 <= i < rows.len() ==> (#[trigger] self.in_span@[i]).val() == rows[i].in_span)
        &&& (forall|i: int|
            0 <= i < rows.len() ==> (#[trigger] self.group_count@[i]).val()
                == rows[i].group_count)
        &&& (forall|i: int|
            0 <= i < rows.len() ==> (#[trigger] self.op_idx@[i]).val() == rows[i].op_idx)
        &&& (forall|j: int, i: int|
            0 <= j < NUM_OP_BITS && 0 <= i < rows.len() ==> (#[trigger] self.op_bits@[j]@[i]).val()
                == bit_of(rows[i].op, j))
        &&& (forall|j: int, i: int|
            0 <= j < 8 && 0 <= i < rows.len() ==> (#[trigger] self.hasher@[j]@[i]).val()
                == rows[i].h[j])
        &&& rows_wf(rows)
    }

    /// Every row of a well-formed buffer is well-formed: the public handle
    /// on the row invariant behind `wf`.
    pub proof fn lemma_rows_wf(self)
        requires
            self.wf(),
        ensures
            rows_wf(self.rows()),
    {
    }

    /// An empty trace buffer.
    pub fn new() -> (r: DecoderTrace)
        ensures
            r.wf(),
            r.rows() == Seq::<TraceRow>::empty(),
    {
        let mut op_bits: Vec<Vec<Felt>> = Vec::new();
        let mut j: usize = 0;
        while j < NUM_OP_BITS
            invariant
                j == op_bits@.len() <= NUM_OP_BITS,
                forall|jj: int| 0 <= jj < j ==> (#[trigger] op_bits@[jj])@.len() == 0,
            decreases NUM_OP_BITS - j,
        {
            op_bits.push(Vec::new());
            j = j + 1;
        }
        let mut hasher: Vec<Vec<Felt>> = Vec::new();
        let mut j: usize = 0;
        while j < 8
            invariant
                j == hasher@.len() <= 8,
                forall|jj: int| 0 <= jj < j ==> (#[trigger] hasher@[jj])@.len() == 0,
            decreases 8 - j,
        {
            hasher.push(Vec::new());
            j = j + 1;
        }
        DecoderTrace {
            addr: Vec::with_capacity(MIN_TRACE_LEN),
            op_bits,
            in_span: Vec::with_capacity(MIN_TRACE_LEN),
            hasher,
            group_count: Vec::with_capacity(MIN_TRACE_LEN),
            op_idx: Vec::with_capacity(MIN_TRACE_LEN),
            rows_g: Ghost(Seq::empty()),
        }
    }

    /// The number of rows appended so far.
    pub fn len(&self) -> (r: usize)
        requires
            self.wf(),
        ensures
            r == self.rows().len(),
    {
        self.addr.len()
    }

    /// Pushes the seven bits of the opcode onto the op-bit columns.
    fn append_opcode(&mut self, op: Operation)
        requires
            !op.is_decorator_spec(),
            old(self).op_bits@.len() == NUM_OP_BITS,
            forall|j: int| 0 <= j < NUM_OP_BITS ==> (#[trigger] old(self).op_bits@[j])@.len()
                == old(self).op_bits@[0]@.len(),
        ensures
            final(self).op_bits@.len() == NUM_OP_BITS,
            forall|j: int| 0 <= j < NUM_OP_BITS ==> (#[trigger] final(self).op_bits@[j])@
                == old(self).op_bits@[j]@.push(final(self).op_bits@[j]@.last()),
            forall|j: int| 0 <= j < NUM_OP_BITS ==> (#[trigger] final(self).op_bits@[j])@.last()
                .val() == bit_of(op.op_code_spec(), j),
            final(self).addr == old(self).addr,
            final(self).in_span == old(self).in_span,
            final(self).hasher == old(self).hasher,
            final(self).group_count == old(self).group_count,
            final(self).op_idx == old(self).op_idx,
            final(self).rows_g == old(self).rows_g,
    {
        let code: u64 = match op.op_code() {
            Some(c) => c,
            None => 0,
        };
        let mut j: usize = 0;
        while j < NUM_OP_BITS
            invariant
                j <= NUM_OP_BITS,
                code == op.op_code_spec(),
                self.op_bits@.len() == NUM_OP_BITS,
                forall|jj: int| j <= jj < NUM_OP_BITS ==> #[trigger] self.op_bits@[jj]
                    == old(self).op_bits@[jj],
                forall|jj: int| 0 <= jj < j ==> (#[trigger] self.op_bits@[jj])@
                    == old(self).op_bits@[jj]@.push(self.op_bits@[jj]@.last()),
                forall|jj: int| 0 <= jj < j ==> (#[trigger] self.op_bits@[jj])@.last().val()
                    == bit_of(code, jj),
                self.addr == old(self).addr,
                self.in_span == old(self).in_span,
                self.hasher == old(self).hasher,
                self.group_count == old(self).group_count,
                self.op_idx == old(self).op_idx,
                self.rows_g == old(self).rows_g,
            decreases NUM_OP_BITS - j,
        {
            let b: u64 = (code >> (j as u64)) & 1;
            proof {
                let ju = j as u64;
                assert((code >> ju) & 1 <= 1) by (bit_vector);
                assert(b % FIELD_MODULUS == b);
            }
            let f = Felt::new(b);
            let col: &mut Vec<Felt> = &mut self.op_bits[j];
            col.push(f);
            j = j + 1;
        }
    }

    /// Pushes one value onto each of the eight hasher columns.
    fn append_hasher(&mut self, cells: &Vec<Felt>)
        requires
            cells@.len() == 8,
            old(self).hasher@.len() == 8,
            forall|j: int| 0 <= j < 8 ==> (#[trigger] old(self).hasher@[j])@.len()
                == old(self).hasher@[0]@.len(),
        ensures
            final(self).hasher@.len() == 8,
            forall|j: int| 0 <= j < 8 ==> (#[trigger] final(self).hasher@[j])@
                == old(self).hasher@[j]@.push(cells@[j]),
            final(self).addr == old(self).addr,
            final(self).op_bits == old(self).op_bits,
            final(self).in_span == old(self).in_span,
            final(self).group_count == old(self).group_count,
            final(self).op_idx == old(self).op_idx,
            final(self).rows_g == old(self).rows_g,
    {
        let mut j: usize = 0;
        while j < 8
            invariant
                j <= 8,
                cells@.len() == 8,
                self.hasher@.len() == 8,
                forall|jj: int| j <= jj < 8 ==> #[trigger] self.hasher@[jj]
                    == old(self).hasher@[jj],
                forall|jj: int| 0 <= jj < j ==> (#[trigger] self.hasher@[jj])@
                    == old(self).hasher@[jj]@.push(cells@[jj]),
                self.addr == old(self).addr,
                self.op_bits == old(self).op_bits,
                self.in_span == old(self).in_span,
                self.group_count == old(self).group_count,
                self.op_idx == old(self).op_idx,
                self.rows_g == old(self).rows_g,
            decreases 8 - j,
        {
            let f = cells[j];
            let col: &mut Vec<Felt> = &mut self.hasher[j];
            col.push(f);
            j = j + 1;
        }
    }

    /// Appends a block-start, `Repeat` or `End` row: the given address, the
    /// opcode's bits, and the two digest words in the hasher columns.
    pub fn append_row(&mut self, addr: Felt, op: Operation, h1: Word, h2: Word)
        requires
            old(self).wf(),
            op.op_code_spec() == OPCODE_JOIN || op.op_code_spec() == OPCODE_SPLIT
                || op.op_code_spec() == OPCODE_LOOP || op.op_code_spec() == OPCODE_REPEAT
                || op.op_code_spec() == OPCODE_END,
            !op.is_decorator_spec(),
        ensures
            final(self).wf(),
            final(self).rows() == old(self).rows().push(
                control_row(addr.val(), op.op_code_spec(), h1.vals(), h2.vals()),
            ),
    {
        let ghost row = control_row(addr.val(), op.op_code_spec(), h1.vals(), h2.vals());
        self.addr.push(addr);
        self.append_opcode(op);
        self.in_span.push(Felt::zero());
        let cells = word_pair_cells(&h1, &h2);
        self.append_hasher(&cells);
        self.group_count.push(Felt::zero());
        self.op_idx.push(Felt::zero());
        proof {
            self.rows_g@ = old(self).rows_g@.push(row);
        }
        proof {
            assert(row.h =~= h1.vals() + h2.vals());
            assert(row_wf(row));
            lemma_wf_after_push(*old(self), *self, row);
        }
    }

    /// Appends the row starting a span block.
    pub fn append_span_start(
        &mut self,
        parent_addr: Felt,
        first_op_batch: &Vec<Felt>,
        num_op_groups: Felt,
    )
        requires
            old(self).wf(),
            first_op_batch@.len() == OP_BATCH_SIZE,
        ensures
            final(self).wf(),
            final(self).rows() == old(self).rows().push(
                span_row(
                    parent_addr.val(),
                    first_op_batch@.map_values(|f: Felt| f.val()),
                    num_op_groups.val(),
                ),
            ),
    {
        let ghost row = span_row(
            parent_addr.val(),
            first_op_batch@.map_values(|f: Felt| f.val()),
            num_op_groups.val(),
        );
        self.addr.push(parent_addr);
        self.append_opcode(Operation::Span);
        self.in_span.push(Felt::zero());
        self.append_hasher(first_op_batch);
        self.group_count.push(num_op_groups);
        self.op_idx.push(Felt::zero());
        proof {
            self.rows_g@ = old(self).rows_g@.push(row);
        }
        proof {
            assert(row_wf(row));
            lemma_wf_after_push(*old(self), *self, row);
        }
    }

    /// Appends a `Respan` row: address and group count copied from the
    /// previous row, the next batch's groups in the hasher columns.
    pub fn append_respan(&mut self, op_batch: &Vec<Felt>)
        requires
            old(self).wf(),
            op_batch@.len() == OP_BATCH_SIZE,
            old(self).rows().len() > 0,
        ensures
            final(self).wf(),
            final(self).rows() == old(self).rows().push(
                respan_row(
                    old(self).rows().last().addr,
                    op_batch@.map_values(|f: Felt| f.val()),
                    old(self).rows().last().group_count,
                ),
            ),
    {
        let ghost row = respan_row(
            self.rows_g@.last().addr,
            op_batch@.map_values(|f: Felt| f.val()),
            self.rows_g@.last().group_count,
        );
        let a = self.last_addr();
        let gc = self.last_group_count();
        self.addr.push(a);
        self.append_opcode(Operation::Respan);
        self.in_span.push(Felt::one());
        self.append_hasher(op_batch);
        self.group_count.push(gc);
        self.op_idx.push(Felt::zero());
        proof {
            self.rows_g@ = old(self).rows_g@.push(row);
        }
        proof {
            assert(row_wf(row));
            lemma_wf_after_push(*old(self), *self, row);
        }
    }

    /// Appends a row for one user operation executed inside a span.
    pub fn append_user_op(
        &mut self,
        op: Operation,
        span_addr: Felt,
        parent_addr: Felt,
        num_groups_left: Felt,
        group_ops_left: Felt,
        op_idx: Felt,
    )
        requires
            old(self).wf(),
            op.is_user_op_spec(),
            op_idx.val() <= 8,
        ensures
            final(self).wf(),
            final(self).rows() == old(self).rows().push(
                user_row(
                    span_addr.val(),
                    op.op_code_spec(),
                    parent_addr.val(),
                    group_ops_left.val(),
                    num_groups_left.val(),
                    op_idx.val(),
                ),
            ),
    {
        let ghost row = user_row(
            span_addr.val(),
            op.op_code_spec(),
            parent_addr.val(),
            group_ops_left.val(),
            num_groups_left.val(),
            op_idx.val(),
        );
        self.addr.push(span_addr);
        self.append_opcode(op);
        self.in_span.push(Felt::one());
        let mut cells: Vec<Felt> = Vec::new();
        cells.push(group_ops_left);
        cells.push(parent_addr);
        cells.push(Felt::zero());
        cells.push(Felt::zero());
        cells.push(Felt::zero());
        cells.push(Felt::zero());
        cells.push(Felt::zero());
        cells.push(Felt::zero());
        self.append_hasher(&cells);
        self.group_count.push(num_groups_left);
        self.op_idx.push(op_idx);
        proof {
            self.rows_g@ = old(self).rows_g@.push(row);
        }
        proof {
            assert(forall|j: int| 0 <= j < 8 ==> row.h[j] == (#[trigger] cells@[j]).val());
            assert(row_wf(row));
            lemma_wf_after_push(*old(self), *self, row);
        }
    }

    /// Appends the `End` row closing a span: address copied over, the
    /// span's digest and the `is_loop_body` flag in the hasher columns. The
    /// group count of the previous row must have reached zero.
    pub fn append_span_end(&mut self, span_hash: Word, is_loop_body: Felt)
        requires
            old(self).wf(),
            old(self).rows().len() > 0,
            old(self).rows().last().group_count == 0,
            is_loop_body.val() <= 1,
        ensures
            final(self).wf(),
            final(self).rows() == old(self).rows().push(
                end_row(
                    old(self).rows().last().addr,
                    span_hash.vals(),
                    is_loop_body.val() == 1,
                    false,
                ),
            ),
    {
        let ghost row = end_row(
            self.rows_g@.last().addr,
            span_hash.vals(),
            is_loop_body.val() == 1,
            false,
        );
        let a = self.last_addr();
        let gc = self.last_group_count();
        self.addr.push(a);
        self.append_opcode(Operation::End);
        self.in_span.push(Felt::zero());
        let mut cells: Vec<Felt> = Vec::new();
        cells.push(span_hash.f0);
        cells.push(span_hash.f1);
        cells.push(span_hash.f2);
        cells.push(span_hash.f3);
        cells.push(is_loop_body);
        cells.push(Felt::zero());
        cells.push(Felt::zero());
        cells.push(Felt::zero());
        self.append_hasher(&cells);
        self.group_count.push(gc);
        self.op_idx.push(Felt::zero());
        proof {
            self.rows_g@ = old(self).rows_g@.push(row);
        }
        proof {
            assert(forall|j: int| 0 <= j < 8 ==> row.h[j] == (#[trigger] cells@[j]).val());
            assert(row.h =~= span_hash.vals() + seq![
                if is_loop_body.val() == 1 { 1u64 } else { 0u64 },
                0u64,
                0,
                0,
            ]);
            assert(row_wf(row));
            lemma_wf_after_push(*old(self), *self, row);
        }
    }

    /// The address of the last appended row.
    fn last_addr(&self) -> (r: Felt)
        requires
            self.wf(),
            self.rows().len() > 0,
        ensures
            r.val() == self.rows().last().addr,
    {
        self.addr[self.addr.len() - 1]
    }

    /// The first hasher cell of the last appended row: the packed opcodes
    /// left in the current op group.
    #[allow(dead_code)]
    fn last_op_group(&self) -> (r: Felt)
        requires
            self.wf(),
            self.rows().len() > 0,
        ensures
            r.val() == self.rows().last().h[0],
    {
        let col = &self.hasher[0];
        col[col.len() - 1]
    }

    /// The group count of the last appended row.
    fn last_group_count(&self) -> (r: Felt)
        requires
            self.wf(),
            self.rows().len() > 0,
        ensures
            r.val() == self.rows().last().group_count,
    {
        self.group_count[self.group_count.len() - 1]
    }

    /// Finalizes the trace to `trace_len` rows: every column is padded, the
    /// op-bit columns with the bits of `Halt` so the padding decodes to a
    /// `Halt` stream, all other columns with zeros.
    pub fn into_vec(self, trace_len: usize, num_rand_rows: usize) -> (r: Vec<Vec<Felt>>)
        requires
            self.wf(),
            self.rows().len() + num_rand_rows <= trace_len,
            MIN_TRACE_LEN <= trace_len,
            is_power_of_two(trace_len as int),
        ensures
            r@.len() == NUM_TRACE_COLS,
            forall|c: int| 0 <= c < NUM_TRACE_COLS ==> (#[trigger] r@[c])@.len() == trace_len,
            forall|c: int, i: int|
                0 <= c < NUM_TRACE_COLS && 0 <= i < trace_len ==> (#[trigger] r@[c]@[i]).val()
                    == cell_spec(self.rows(), c, i),
    {
        let ghost rows = self.rows_g@;
        let n = self.addr.len();
        let DecoderTrace {
            addr,
            mut op_bits,
            in_span,
            hasher: mut hash_cols,
            group_count,
            op_idx,
            rows_g: _,
        } = self;
        let mut r: Vec<Vec<Felt>> = Vec::new();

        let col = pad_column(addr, trace_len, Felt::zero());
        proof {
            assert forall|i: int| 0 <= i < trace_len implies (#[trigger] col@[i]).val()
                == cell_spec(rows, 0, i) by {}
        }
        r.push(col);

        let mut j: usize = 0;
        while j < NUM_OP_BITS
            invariant
                j <= NUM_OP_BITS,
                n == rows.len(),
                n + 0 <= trace_len,
                op_bits@.len() == NUM_OP_BITS - j,
                r@.len() == 1 + j,
                rows_wf(rows),
                forall|jj: int|
                    0 <= jj < NUM_OP_BITS - j ==> (#[trigger] op_bits@[jj])@.len() == n,
                forall|jj: int, i: int|
                    0 <= jj < NUM_OP_BITS - j && 0 <= i < n ==> (#[trigger] op_bits@[jj]@[i]).val()
                        == bit_of(rows[i].op, jj + j),
                forall|c: int| 0 <= c < r@.len() ==> (#[trigger] r@[c])@.len() == trace_len,
                forall|c: int, i: int|
                    0 <= c < r@.len() && 0 <= i < trace_len ==> (#[trigger] r@[c]@[i]).val()
                        == cell_spec(rows, c, i),
            decreases NUM_OP_BITS - j,
        {
            let bits = op_bits.remove(0);
            let halt_bit: u64 = (OPCODE_HALT >> (j as u64)) & 1;
            proof {
                let ju = j as u64;
                let c = OPCODE_HALT;
                assert((c >> ju) & 1 <= 1) by (bit_vector);
                assert(halt_bit % FIELD_MODULUS == halt_bit);
            }
            let col = pad_column(bits, trace_len, Felt::new(halt_bit));
            proof {
                assert forall|i: int| 0 <= i < trace_len implies (#[trigger] col@[i]).val()
                    == cell_spec(rows, 1 + j, i) by {}
            }
            r.push(col);
            j = j + 1;
        }

        let col = pad_column(in_span, trace_len, Felt::zero());
        proof {
            assert forall|i: int| 0 <= i < trace_len implies (#[trigger] col@[i]).val()
                == cell_spec(rows, 8, i) by {}
        }
        r.push(col);

        let mut j: usize = 0;
        while j < 8
            invariant
                j <= 8,
                n == rows.len(),
                n + 0 <= trace_len,
                hash_cols@.len() == 8 - j,
                r@.len() == 9 + j,
                rows_wf(rows),
                forall|jj: int| 0 <= jj < 8 - j ==> (#[trigger] hash_cols@[jj])@.len() == n,
                forall|jj: int, i: int|
                    0 <= jj < 8 - j && 0 <= i < n ==> (#[trigger] hash_cols@[jj]@[i]).val()
                        == rows[i].h[jj + j],
                forall|c: int| 0 <= c < r@.len() ==> (#[trigger] r@[c])@.len() == trace_len,
                forall|c: int, i: int|
                    0 <= c < r@.len() && 0 <= i < trace_len ==> (#[trigger] r@[c]@[i]).val()
                        == cell_spec(rows, c, i),
            decreases 8 - j,
        {
            let hcol = hash_cols.remove(0);
            let col = pad_column(hcol, trace_len, Felt::zero());
            proof {
                assert forall|i: int| 0 <= i < trace_len implies (#[trigger] col@[i]).val()
                    == cell_spec(rows, 9 + j, i) by {}
            }
            r.push(col);
            j = j + 1;
        }

        let col = pad_column(group_count, trace_len, Felt::zero());
        proof {
            assert forall|i: int| 0 <= i < trace_len implies (#[trigger] col@[i]).val()
                == cell_spec(rows, 17, i) by {}
        }
        r.push(col);

        let col = pad_column(op_idx, trace_len, Felt::zero());
        proof {
            assert forall|i: int| 0 <= i < trace_len implies (#[trigger] col@[i]).val()
                == cell_spec(rows, 18, i) by {}
        }
        r.push(col);

        r
    }
}

/// Re-establishes the buffer's well-formedness after one row is appended:
/// each column gained exactly the cell of the new row.
proof fn lemma_wf_after_push(pre: DecoderTrace, post: DecoderTrace, row: TraceRow)
    requires
        pre.wf(),
        row_wf(row),
        post.rows_g@ == pre.rows_g@.push(row),
        post.addr@.len() == pre.addr@.len() + 1,
        forall|i: int| 0 <= i < pre.addr@.len() ==> post.addr@[i] == pre.addr@[i],
        post.addr@.last().val() == row.addr,
        post.in_span@.len() == pre.in_span@.len() + 1,
        forall|i: int| 0 <= i < pre.in_span@.len() ==> post.in_span@[i] == pre.in_span@[i],
        post.in_span@.last().val() == row.in_span,
        post.group_count@.len() == pre.group_count@.len() + 1,
        forall|i: int|
            0 <= i < pre.group_count@.len() ==> post.group_count@[i] == pre.group_count@[i],
        post.group_count@.last().val() == row.group_count,
        post.op_idx@.len() == pre.op_idx@.len() + 1,
        forall|i: int| 0 <= i < pre.op_idx@.len() ==> post.op_idx@[i] == pre.op_idx@[i],
        post.op_idx@.last().val() == row.op_idx,
        post.op_bits@.len() == NUM_OP_BITS,
        forall|j: int|
            0 <= j < NUM_OP_BITS ==> (#[trigger] post.op_bits@[j])@ == pre.op_bits@[j]@.push(
                post.op_bits@[j]@.last(),
            ),
        forall|j: int|
            0 <= j < NUM_OP_BITS ==> (#[trigger] post.op_bits@[j])@.last().val() == bit_of(
                row.op,
                j,
            ),
        post.hasher@.len() == 8,
        forall|j: int|
            0 <= j < 8 ==> (#[trigger] post.hasher@[j])@ == pre.hasher@[j]@.push(
                post.hasher@[j]@.last(),
            ),
        forall|j: int| 0 <= j < 8 ==> (#[trigger] post.hasher@[j])@.last().val() == row.h[j],
    ensures
        post.wf(),
{
    let rows = post.rows_g@;
    assert(rows.len() == pre.rows_g@.len() + 1);
    assert forall|j: int, i: int|
        0 <= j < NUM_OP_BITS && 0 <= i < rows.len() implies (#[trigger] post.op_bits@[j]@[i]).val()
        == bit_of(rows[i].op, j) by {
        if i < rows.len() - 1 {
            assert(post.op_bits@[j]@[i] == pre.op_bits@[j]@[i]);
        } else {
            assert(post.op_bits@[j]@[i] == post.op_bits@[j]@.last());
        }
    }
    assert forall|j: int, i: int|
        0 <= j < 8 && 0 <= i < rows.len() implies (#[trigger] post.hasher@[j]@[i]).val()
        == rows[i].h[j] by {
        if i < rows.len() - 1 {
            assert(post.hasher@[j]@[i] == pre.hasher@[j]@[i]);
        } else {
            assert(post.hasher@[j]@[i] == post.hasher@[j]@.last());
        }
    }
}

/// The eight cells of two digest words laid side by side.
fn word_pair_cells(h1: &Word, h2: &Word) -> (r: Vec<Felt>)
    ensures
        r@.len() == 8,
        r@.map_values(|f: Felt| f.val()) == h1.vals() + h2.vals(),
{
    let mut r: Vec<Felt> = Vec::new();
    r.push(h1.f0);
    r.push(h1.f1);
    r.push(h1.f2);
    r.push(h1.f3);
    r.push(h2.f0);
    r.push(h2.f1);
    r.push(h2.f2);
    r.push(h2.f3);
    proof {
        assert(r@.map_values(|f: Felt| f.val()) =~= h1.vals() + h2.vals());
    }
    r
}

/// Extends a column to `target` cells with copies of `fill`.
fn pad_column(col: Vec<Felt>, target: usize, fill: Felt) -> (r: Vec<Felt>)
    requires
        col@.len() <= target,
    ensures
        r@.len() == target,
        forall|i: int| 0 <= i < col@.len() ==> r@[i] == col@[i],
        forall|i: int| col@.len() <= i < target ==> r@[i] == fill,
{
    let mut r = col;
    let ghost orig = r@;
    while r.len() < target
        invariant
            orig.len() <= r@.len() <= target,
            forall|i: int| 0 <= i < orig.len() ==> r@[i] == orig[i],
            forall|i: int| orig.len() <= i < r@.len() ==> r@[i] == fill,
        decreases target - r@.len(),
    {
        r.push(fill);
    }
    r
}

} // verus!
