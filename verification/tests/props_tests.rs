//! Tests of the field, the packer's exact slot layout, the error surface,
//! and the trace invariants on concrete runs.

use zkvm_decoder::{
    execute, BlockStack, CodeBlock, ExecutionError, Felt, Operation, Process, ProgramInputs,
    Span, FIELD_MODULUS, MIN_TRACE_LEN, NUM_RAND_ROWS,
};

fn build_trace(stack: &[u64], program: &CodeBlock) -> (Vec<Vec<u64>>, usize) {
    let inputs = ProgramInputs::new(stack.to_vec(), Vec::new());
    let mut process = Process::new(inputs);
    process.execute_code_block(program).unwrap();

    let rows = process.trace_len();
    let mut padded: usize = MIN_TRACE_LEN;
    while padded < rows + NUM_RAND_ROWS {
        padded *= 2;
    }
    let cols = process.into_decoder_trace(padded, NUM_RAND_ROWS);
    let trace: Vec<Vec<u64>> = cols
        .iter()
        .map(|col| col.iter().map(|f| f.as_int()).collect())
        .collect();
    (trace, rows)
}

fn read_opcode(trace: &[Vec<u64>], row_idx: usize) -> u64 {
    let mut result = 0u64;
    for i in 0..7 {
        let op_bit = trace[1 + i][row_idx];
        assert!(op_bit <= 1, "invalid op bit");
        result += op_bit << i;
    }
    result
}

// FIELD ARITHMETIC
// ================================================================================================

#[test]
fn felt_reduces_to_canonical() {
    assert_eq!(Felt::new(FIELD_MODULUS).as_int(), 0);
    assert_eq!(Felt::new(FIELD_MODULUS + 5).as_int(), 5);
    assert_eq!(Felt::new(3).as_int(), 3);
}

#[test]
fn felt_add_wraps_at_modulus() {
    assert_eq!(Felt::new(2).add(Felt::new(3)).as_int(), 5);
    assert_eq!(Felt::new(FIELD_MODULUS - 1).add(Felt::new(2)).as_int(), 1);
    assert_eq!(Felt::new(FIELD_MODULUS - 1).add(Felt::new(1)).as_int(), 0);
}

#[test]
fn felt_mul_wraps_at_modulus() {
    assert_eq!(Felt::new(2).mul(Felt::new(3)).as_int(), 6);
    assert_eq!(
        Felt::new(FIELD_MODULUS - 1).mul(Felt::new(2)).as_int(),
        FIELD_MODULUS - 2
    );
    assert_eq!(Felt::zero().as_int(), 0);
    assert_eq!(Felt::one().as_int(), 1);
}

// PACKER SLOT LAYOUT
// ================================================================================================

#[test]
fn packer_single_group_layout() {
    // Pad, Add, Mul pack into one group at 7-bit stride, low to high
    let span = Span::new(vec![Operation::Pad, Operation::Add, Operation::Mul]);
    let batches = span.op_batches();
    assert_eq!(batches.len(), 1);
    let b = &batches[0];
    assert_eq!(b.num_groups(), 1);
    let pad = Operation::Pad.op_code().unwrap();
    let add = Operation::Add.op_code().unwrap();
    let mul = Operation::Mul.op_code().unwrap();
    let expected = pad + (add << 7) + (mul << 14);
    let groups: Vec<u64> = b.groups().iter().map(|f| f.as_int()).collect();
    assert_eq!(groups[0], expected);
    for g in 1..8 {
        assert_eq!(groups[g], 0);
    }
}

#[test]
fn packer_immediate_takes_next_slot() {
    // the immediate of a Push occupies the group slot after the opcodes
    let span = Span::new(vec![Operation::Push(Felt::new(77)), Operation::Add]);
    let batches = span.op_batches();
    assert_eq!(batches.len(), 1);
    let b = &batches[0];
    assert_eq!(b.num_groups(), 2);
    let push = Operation::Push(Felt::new(77)).op_code().unwrap();
    let add = Operation::Add.op_code().unwrap();
    let groups: Vec<u64> = b.groups().iter().map(|f| f.as_int()).collect();
    assert_eq!(groups[0], push + (add << 7));
    assert_eq!(groups[1], 77);
    for g in 2..8 {
        assert_eq!(groups[g], 0);
    }
}

#[test]
fn packer_skips_decorators() {
    let with_decorator = Span::new(vec![Operation::Pad, Operation::Advice, Operation::Add]);
    let without = Span::new(vec![Operation::Pad, Operation::Add]);
    let a: Vec<u64> = with_decorator.op_batches()[0]
        .groups()
        .iter()
        .map(|f| f.as_int())
        .collect();
    let b: Vec<u64> = without.op_batches()[0]
        .groups()
        .iter()
        .map(|f| f.as_int())
        .collect();
    assert_eq!(a, b);
    let ha = with_decorator.hash().to_ints();
    let hb = without.hash().to_ints();
    assert_eq!(ha, hb);
}

#[test]
fn span_hash_is_structural() {
    // same operations give the same digest; different operations differ
    let a = Span::new(vec![Operation::Pad, Operation::Add]);
    let b = Span::new(vec![Operation::Pad, Operation::Add]);
    let c = Span::new(vec![Operation::Pad, Operation::Mul]);
    assert_eq!(a.hash().to_ints(), b.hash().to_ints());
    assert_ne!(a.hash().to_ints(), c.hash().to_ints());
}

// BLOCK STACK
// ================================================================================================

#[test]
fn block_stack_tracks_parents() {
    let mut stack = BlockStack::new();
    let p0 = stack.push(Felt::new(8));
    assert_eq!(p0.as_int(), 0);
    let p1 = stack.push(Felt::new(16));
    assert_eq!(p1.as_int(), 8);
    assert_eq!(stack.peek_addr().as_int(), 16);
    let top = stack.pop();
    assert_eq!(top.addr.as_int(), 16);
    assert_eq!(top.parent_addr.as_int(), 8);
    assert_eq!(stack.peek_addr().as_int(), 8);
    let root = stack.pop();
    assert_eq!(root.addr.as_int(), 8);
    assert_eq!(root.parent_addr.as_int(), 0);
}

// ERROR SURFACE
// ================================================================================================

#[test]
fn split_condition_must_be_binary() {
    let span1 = CodeBlock::new_span(vec![Operation::Mul]);
    let span2 = CodeBlock::new_span(vec![Operation::Add]);
    let program = CodeBlock::new_split(span1, span2);
    let inputs = ProgramInputs::new(vec![2], Vec::new());
    let mut process = Process::new(inputs);
    let res = process.execute_code_block(&program);
    assert_eq!(res, Err(ExecutionError::NotBinaryValue(Felt::new(2))));
}

#[test]
fn loop_condition_must_be_binary() {
    let body = CodeBlock::new_span(vec![Operation::Pad, Operation::Drop]);
    let program = CodeBlock::new_loop(body);
    let inputs = ProgramInputs::new(vec![3], Vec::new());
    let mut process = Process::new(inputs);
    let res = process.execute_code_block(&program);
    assert_eq!(res, Err(ExecutionError::NotBinaryValue(Felt::new(3))));
}

#[test]
fn loop_exit_condition_must_be_binary() {
    // enter once, then a non-binary re-check
    let body = CodeBlock::new_span(vec![Operation::Noop]);
    let program = CodeBlock::new_loop(body);
    let inputs = ProgramInputs::new(vec![5, 1], Vec::new());
    let mut process = Process::new(inputs);
    let res = process.execute_code_block(&program);
    assert_eq!(res, Err(ExecutionError::NotBinaryValue(Felt::new(5))));
}

#[test]
fn empty_span_is_unexecutable() {
    let program = CodeBlock::new_span(Vec::new());
    let inputs = ProgramInputs::new(Vec::new(), Vec::new());
    let mut process = Process::new(inputs);
    let res = process.execute_code_block(&program);
    assert_eq!(res, Err(ExecutionError::UnexecutableCodeBlock));
}

// DECORATORS
// ================================================================================================

#[test]
fn decorators_emit_no_trace_row() {
    let with_decorator = CodeBlock::new_span(vec![
        Operation::Pad,
        Operation::Advice,
        Operation::Add,
    ]);
    let (trace, rows) = build_trace(&[], &with_decorator);
    // Span, Pad, Add, End: the decorator adds nothing
    assert_eq!(rows, 4);
    assert_eq!(read_opcode(&trace, 0), Operation::Span.op_code().unwrap());
    assert_eq!(read_opcode(&trace, 1), Operation::Pad.op_code().unwrap());
    assert_eq!(read_opcode(&trace, 2), Operation::Add.op_code().unwrap());
    assert_eq!(read_opcode(&trace, 3), Operation::End.op_code().unwrap());
}

// TRACE INVARIANTS ON CONCRETE RUNS
// ================================================================================================

fn respan_program() -> CodeBlock {
    CodeBlock::new_span(vec![
        Operation::Push(Felt::new(1)),
        Operation::Push(Felt::new(2)),
        Operation::Push(Felt::new(3)),
        Operation::Push(Felt::new(4)),
        Operation::Push(Felt::new(5)),
        Operation::Push(Felt::new(6)),
        Operation::Push(Felt::new(7)),
        Operation::Push(Felt::new(8)),
        Operation::Add,
        Operation::Push(Felt::new(9)),
    ])
}

#[test]
fn column_lengths_are_uniform_powers_of_two() {
    let (trace, _) = build_trace(&[], &respan_program());
    assert_eq!(trace.len(), 19);
    let len = trace[0].len();
    for col in trace.iter() {
        assert_eq!(col.len(), len);
    }
    assert!(len >= MIN_TRACE_LEN);
    assert!(len.is_power_of_two());
}

#[test]
fn opcodes_decode_to_defined_operations() {
    let (trace, _) = build_trace(&[], &respan_program());
    let halt = Operation::Halt.op_code().unwrap();
    for row in 0..trace[0].len() {
        let code = read_opcode(&trace, row);
        assert!(code <= halt);
    }
}

#[test]
fn padding_rows_decode_to_halt_and_zeros() {
    let (trace, rows) = build_trace(&[], &respan_program());
    let halt = Operation::Halt.op_code().unwrap();
    for row in rows..trace[0].len() {
        assert_eq!(read_opcode(&trace, row), halt);
        assert_eq!(trace[0][row], 0);
        for c in 8..19 {
            assert_eq!(trace[c][row], 0);
        }
    }
}

#[test]
fn in_span_flag_follows_opcode_kind() {
    let (trace, _) = build_trace(&[], &respan_program());
    let respan = Operation::Respan.op_code().unwrap();
    for row in 0..trace[0].len() {
        let code = read_opcode(&trace, row);
        let expected = if code < 8 || code == respan { 1 } else { 0 };
        assert_eq!(trace[8][row], expected);
    }
}

#[test]
fn addr_constant_within_batch_and_steps_by_eight_at_respan() {
    let (trace, rows) = build_trace(&[], &respan_program());
    let respan = Operation::Respan.op_code().unwrap();
    for row in 0..rows - 1 {
        let c1 = read_opcode(&trace, row);
        let c2 = read_opcode(&trace, row + 1);
        if c2 == respan {
            assert_eq!(trace[0][row + 1], trace[0][row]);
        }
        if c1 == respan {
            assert_eq!(trace[0][row + 1], trace[0][row] + 8);
        }
        if c1 < 8 && c2 < 8 {
            assert_eq!(trace[0][row + 1], trace[0][row]);
        }
    }
}

#[test]
fn group_count_never_increases_inside_span() {
    let (trace, rows) = build_trace(&[], &respan_program());
    // rows 0 through rows-2 are the Span row and the span's interior
    for row in 0..rows - 2 {
        assert!(trace[17][row + 1] <= trace[17][row]);
    }
    // the row preceding the span's End row has group count exactly zero
    assert_eq!(trace[17][rows - 2], 0);
}

#[test]
fn op_index_bounded_and_resets_at_group_boundaries() {
    let (trace, rows) = build_trace(&[], &respan_program());
    for row in 0..rows {
        assert!(trace[18][row] <= 8);
    }
    for row in 0..rows - 1 {
        let next = trace[18][row + 1];
        assert!(next == trace[18][row] + 1 || next == 0);
    }
}

// TOP-LEVEL ENTRY POINT
// ================================================================================================

#[test]
fn execute_returns_finalized_trace() {
    let program = CodeBlock::new_span(vec![Operation::Pad, Operation::Add, Operation::Mul]);
    let inputs = ProgramInputs::new(Vec::new(), Vec::new());
    let cols = execute(&program, inputs).unwrap();
    assert_eq!(cols.len(), 19);
    for col in cols.iter() {
        assert_eq!(col.len(), MIN_TRACE_LEN);
    }
}

#[test]
fn execute_surfaces_the_first_error() {
    let span1 = CodeBlock::new_span(vec![Operation::Mul]);
    let span2 = CodeBlock::new_span(vec![Operation::Add]);
    let program = CodeBlock::new_split(span1, span2);
    let inputs = ProgramInputs::new(vec![9], Vec::new());
    let res = execute(&program, inputs);
    assert_eq!(res, Err(ExecutionError::NotBinaryValue(Felt::new(9))));
}

// BOTTOMLESS STACK
// ================================================================================================

#[test]
fn split_on_empty_stack_takes_false_branch() {
    // the processor stack is bottomless with zeros: an empty condition
    // stack reads as zero
    let span1 = CodeBlock::new_span(vec![Operation::Mul]);
    let span2 = CodeBlock::new_span(vec![Operation::Add]);
    let program = CodeBlock::new_split(span1, span2);
    let (trace, _) = build_trace(&[], &program);
    assert_eq!(read_opcode(&trace, 0), Operation::Split.op_code().unwrap());
    assert_eq!(read_opcode(&trace, 2), Operation::Add.op_code().unwrap());
}

#[test]
fn loop_on_empty_stack_is_skipped() {
    let body = CodeBlock::new_span(vec![Operation::Pad, Operation::Drop]);
    let program = CodeBlock::new_loop(body);
    let (trace, rows) = build_trace(&[], &program);
    assert_eq!(rows, 2);
    assert_eq!(read_opcode(&trace, 0), Operation::Loop.op_code().unwrap());
    assert_eq!(read_opcode(&trace, 1), Operation::End.op_code().unwrap());
}

// LOOP WITH A CONTROL-BLOCK BODY
// ================================================================================================

#[test]
fn join_body_end_row_carries_zero_flags() {
    // a Join or Split closing inside a loop still gets zero flags on its
    // End row; only span and loop End rows carry them
    let first = CodeBlock::new_span(vec![Operation::Mul]);
    let second = CodeBlock::new_span(vec![Operation::Add]);
    let body = CodeBlock::new_join(first, second);
    let body_hash = {
        let v = body.hash().to_ints();
        [v[0], v[1], v[2], v[3]]
    };
    let program = CodeBlock::new_loop(body);
    let program_hash = {
        let v = program.hash().to_ints();
        [v[0], v[1], v[2], v[3]]
    };
    let (trace, rows) = build_trace(&[0, 1], &program);
    // Loop, Join, Span, Mul, End, Span, Add, End, End, End
    assert_eq!(rows, 10);
    assert_eq!(read_opcode(&trace, 0), Operation::Loop.op_code().unwrap());
    assert_eq!(read_opcode(&trace, 1), Operation::Join.op_code().unwrap());
    assert_eq!(read_opcode(&trace, 8), Operation::End.op_code().unwrap());
    assert_eq!(read_opcode(&trace, 9), Operation::End.op_code().unwrap());
    // the join's End row: its digest, both flags zero
    let h8: Vec<u64> = (0..8).map(|j| trace[9 + j][8]).collect();
    assert_eq!(&h8[0..4], &body_hash);
    assert_eq!(&h8[4..8], &[0, 0, 0, 0]);
    // the loop's End row: the program digest, body-ran and is_loop flags set
    let h9: Vec<u64> = (0..8).map(|j| trace[9 + j][9]).collect();
    assert_eq!(&h9[0..4], &program_hash);
    assert_eq!(&h9[4..8], &[1, 1, 0, 0]);
}
