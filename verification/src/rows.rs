//! The mathematical model of a decoder trace row, and the shapes the six
//! row kinds take.

use vstd::prelude::*;
use crate::ops::{
    opcode_defined, OPCODE_END, OPCODE_HALT, OPCODE_RESPAN, OPCODE_SPAN,
};

verus! {

/// Number of columns of the decoder trace.
pub const NUM_TRACE_COLS: usize = 19;

/// One row of the decoder trace, with the opcode kept as a number; the
/// seven op-bit columns of the concrete trace carry its little-endian bits.
pub struct TraceRow {
    pub addr: u64,
    pub op: u64,
    pub in_span: u64,
    pub h: Seq<u64>,
    pub group_count: u64,
    pub op_idx: u64,
}

/// Whether an opcode belongs to a user operation.
pub open spec fn is_user_code(code: u64) -> bool {
    code < 8
}

/// Bit `j` of an opcode, as a field value.
pub open spec fn bit_of(code: u64, j: int) -> u64 {
    (code >> (j as u64)) & 1
}

/// A well-formed trace row: a defined opcode; the in-span flag set exactly
/// on user-operation and `Respan` rows; the op index at most eight and zero
/// outside user rows; a zero group count on `End` rows.
pub open spec fn row_wf(r: TraceRow) -> bool {
    &&& opcode_defined(r.op)
    &&& r.h.len() == 8
    &&& r.in_span == (if is_user_code(r.op) || r.op == OPCODE_RESPAN {
        1u64
    } else {
        0u64
    })
    &&& r.op_idx <= 8
    &&& (!is_user_code(r.op) ==> r.op_idx == 0)
    &&& (r.op == OPCODE_END ==> r.group_count == 0)
}

/// A block-start or `Repeat` row: child digests in the hasher columns.
pub open spec fn control_row(addr: u64, op: u64, h1: Seq<u64>, h2: Seq<u64>) -> TraceRow {
    TraceRow { addr, op, in_span: 0, h: h1 + h2, group_count: 0, op_idx: 0 }
}

/// The row starting a span: the parent's address, the groups of the first
/// op batch, and the total op-group count.
pub open spec fn span_row(parent_addr: u64, groups: Seq<u64>, group_count: u64) -> TraceRow {
    TraceRow { addr: parent_addr, op: OPCODE_SPAN, in_span: 0, h: groups, group_count, op_idx: 0 }
}

/// A `Respan` row: address and group count copied from the previous row,
/// the groups of the next op batch in the hasher columns.
pub open spec fn respan_row(prev_addr: u64, groups: Seq<u64>, group_count: u64) -> TraceRow {
    TraceRow {
        addr: prev_addr,
        op: OPCODE_RESPAN,
        in_span: 1,
        h: groups,
        group_count,
        op_idx: 0,
    }
}

/// A user-operation row: the remaining packed opcodes of its group and the
/// span's parent address in the first two hasher columns.
pub open spec fn user_row(
    span_addr: u64,
    op: u64,
    parent_addr: u64,
    group_ops_left: u64,
    group_count: u64,
    op_idx: u64,
) -> TraceRow {
    TraceRow {
        addr: span_addr,
        op,
        in_span: 1,
        h: seq![group_ops_left, parent_addr, 0, 0, 0, 0, 0, 0],
        group_count,
        op_idx,
    }
}

/// An `End` row: the digest of the block being closed, then the
/// `is_loop_body` and `is_loop` flags.
pub open spec fn end_row(addr: u64, hash: Seq<u64>, is_loop_body: bool, is_loop: bool) -> TraceRow {
    TraceRow {
        addr,
        op: OPCODE_END,
        in_span: 0,
        h: hash + seq![
            if is_loop_body {
                1u64
            } else {
                0u64
            },
            if is_loop {
                1u64
            } else {
                0u64
            },
            0,
            0,
        ],
        group_count: 0,
        op_idx: 0,
    }
}

/// A row of the halt padding past the last real row: the `Halt` opcode in
/// the op-bit columns, zeros everywhere else.
pub open spec fn halt_row() -> TraceRow {
    TraceRow {
        addr: 0,
        op: OPCODE_HALT,
        in_span: 0,
        h: seq![0u64, 0, 0, 0, 0, 0, 0, 0],
        group_count: 0,
        op_idx: 0,
    }
}

/// Every row of a segment is well-formed.
pub open spec fn rows_wf(rows: Seq<TraceRow>) -> bool {
    forall|i: int| 0 <= i < rows.len() ==> row_wf(#[trigger] rows[i])
}

/// Whether a row is the `End` row of a block with digest `hash` and the
/// given loop flags.
pub open spec fn is_end_row(r: TraceRow, hash: Seq<u64>, is_loop_body: bool, is_loop: bool) -> bool {
    r == end_row(r.addr, hash, is_loop_body, is_loop)
}

/// The little-endian bits of a 7-bit opcode recombine to the opcode: the
/// op-bit columns of a well-formed trace decode to the row's operation.
pub proof fn lemma_bits_decode(code: u64)
    requires
        code < 128,
    ensures
        bit_of(code, 0) + 2 * bit_of(code, 1) + 4 * bit_of(code, 2) + 8 * bit_of(code, 3) + 16
            * bit_of(code, 4) + 32 * bit_of(code, 5) + 64 * bit_of(code, 6) == code,
        forall|j: int| 0 <= j < 7 ==> #[trigger] bit_of(code, j) <= 1,
{
    assert(((code >> 0u64) & 1) + 2 * ((code >> 1u64) & 1) + 4 * ((code >> 2u64) & 1) + 8 * ((code
        >> 3u64) & 1) + 16 * ((code >> 4u64) & 1) + 32 * ((code >> 5u64) & 1) + 64 * ((code
        >> 6u64) & 1) == code) by (bit_vector)
        requires
            code < 128,
    ;
    assert forall|j: int| 0 <= j < 7 implies #[trigger] bit_of(code, j) <= 1 by {
        let ju = j as u64;
        assert((code >> ju) & 1 <= 1) by (bit_vector);
    }
}

} // verus!
