//! End-to-end tests of the decoder trace, block variant by block variant.

use zkvm_decoder::{
    CodeBlock, Felt, Operation, Process, ProgramInputs, Span, NUM_RAND_ROWS,
};

const NUM_OP_BITS: usize = 7;

const ADDR_IDX: usize = 0;
const OP_BITS_OFFSET: usize = 1;
const IN_SPAN_IDX: usize = 8;
const HASHER_STATE_OFFSET: usize = 9;
const GROUP_COUNT_IDX: usize = 17;
const OP_INDEX_IDX: usize = 18;

const ZERO: u64 = 0;
const ONE: u64 = 1;

const INIT_ADDR: u64 = 0;

// HELPER FUNCTIONS
// ================================================================================================

fn build_trace(stack: &[u64], program: &CodeBlock) -> (Vec<Vec<u64>>, usize) {
    let inputs = ProgramInputs::new(stack.to_vec(), Vec::new());
    let mut process = Process::new(inputs);
    process.execute_code_block(program).unwrap();

    let rows = process.trace_len();
    let mut padded: usize = 64;
    while padded < rows + NUM_RAND_ROWS {
        padded *= 2;
    }
    let cols = process.into_decoder_trace(padded, NUM_RAND_ROWS);
    let trace: Vec<Vec<u64>> = cols
        .iter()
        .map(|col| col.iter().map(|f| f.as_int()).collect())
        .collect();
    (trace, padded - NUM_RAND_ROWS)
}

fn contains_op(trace: &[Vec<u64>], row_idx: usize, op: Operation) -> bool {
    op.op_code().unwrap() == read_opcode(trace, row_idx)
}

fn read_opcode(trace: &[Vec<u64>], row_idx: usize) -> u64 {
    let mut result = 0u64;
    for i in 0..NUM_OP_BITS {
        let op_bit = trace[OP_BITS_OFFSET + i][row_idx];
        assert!(op_bit <= 1, "invalid op bit");
        result += op_bit << i;
    }
    result
}

fn get_hasher_state1(trace: &[Vec<u64>], row_idx: usize) -> [u64; 4] {
    let mut result = [ZERO; 4];
    for (i, cell) in result.iter_mut().enumerate() {
        *cell = trace[HASHER_STATE_OFFSET + i][row_idx];
    }
    result
}

fn get_hasher_state2(trace: &[Vec<u64>], row_idx: usize) -> [u64; 4] {
    let mut result = [ZERO; 4];
    for (i, cell) in result.iter_mut().enumerate() {
        *cell = trace[HASHER_STATE_OFFSET + 4 + i][row_idx];
    }
    result
}

fn get_hasher_state(trace: &[Vec<u64>], row_idx: usize) -> [u64; 8] {
    let mut result = [ZERO; 8];
    for (i, cell) in result.iter_mut().enumerate() {
        *cell = trace[HASHER_STATE_OFFSET + i][row_idx];
    }
    result
}

fn build_group(ops: &[Operation]) -> u64 {
    let mut group = 0u64;
    let mut i = 0;
    for op in ops.iter() {
        if !op.is_decorator() {
            group |= op.op_code().unwrap() << (NUM_OP_BITS * i);
            i += 1;
        }
    }
    group
}

fn word_of(block: &CodeBlock) -> [u64; 4] {
    let v = block.hash().to_ints();
    [v[0], v[1], v[2], v[3]]
}

fn check_hasher_state(trace: &[Vec<u64>], expected: Vec<Vec<u64>>) {
    for (i, expected) in expected.iter().enumerate() {
        let expected = build_expected_hasher_state(expected);
        assert_eq!(expected, get_hasher_state(trace, i));
    }
}

fn build_expected_hasher_state(values: &[u64]) -> [u64; 8] {
    let mut result = [ZERO; 8];
    for (i, value) in values.iter().enumerate() {
        result[i] = *value;
    }
    result
}

fn groups_of(span: &Span, batch_idx: usize) -> Vec<u64> {
    span.op_batches()[batch_idx]
        .groups()
        .iter()
        .map(|f| f.as_int())
        .collect()
}

// SPAN BLOCK TESTS
// ================================================================================================

#[test]
fn span_block_one_group() {
    let ops = vec![Operation::Pad, Operation::Add, Operation::Mul];
    let span = Span::new(ops.clone());
    let program = CodeBlock::new_span(ops.clone());

    let (trace, trace_len) = build_trace(&[], &program);

    // --- check block address column ----------------------------------------
    assert_eq!(trace[ADDR_IDX][0], ZERO);
    assert_eq!(trace[ADDR_IDX][1], INIT_ADDR);
    assert_eq!(trace[ADDR_IDX][2], INIT_ADDR);
    assert_eq!(trace[ADDR_IDX][3], INIT_ADDR);
    for i in 4..trace_len {
        assert_eq!(trace[ADDR_IDX][i], ZERO);
    }

    // --- check op bits columns ---------------------------------------------
    assert!(contains_op(&trace, 0, Operation::Span));
    assert!(contains_op(&trace, 1, Operation::Pad));
    assert!(contains_op(&trace, 2, Operation::Add));
    assert!(contains_op(&trace, 3, Operation::Mul));
    assert!(contains_op(&trace, 4, Operation::End));
    for i in 5..trace_len {
        assert!(contains_op(&trace, i, Operation::Halt));
    }

    // --- check hasher state columns ----------------------------------------
    let program_hash = word_of(&program);
    check_hasher_state(
        &trace,
        vec![
            groups_of(&span, 0),
            vec![build_group(&ops[1..])],
            vec![build_group(&ops[2..])],
            vec![],
            program_hash.to_vec(),
        ],
    );

    // --- check in_span column ----------------------------------------------
    assert_eq!(ZERO, trace[IN_SPAN_IDX][0]);
    for i in 1..4 {
        assert_eq!(ONE, trace[IN_SPAN_IDX][i]);
    }
    for i in 4..trace_len {
        assert_eq!(ZERO, trace[IN_SPAN_IDX][i]);
    }

    // --- check group count column ------------------------------------------
    assert_eq!(trace[GROUP_COUNT_IDX][0], 8);
    assert_eq!(trace[GROUP_COUNT_IDX][1], 0);
    for i in 4..trace_len {
        assert_eq!(ZERO, trace[GROUP_COUNT_IDX][i]);
    }

    // --- check op index column ---------------------------------------------
    assert_eq!(trace[OP_INDEX_IDX][0], 0);
    assert_eq!(trace[OP_INDEX_IDX][1], 0); // pad
    assert_eq!(trace[OP_INDEX_IDX][2], 1); // add
    assert_eq!(trace[OP_INDEX_IDX][3], 2); // mul
    for i in 4..trace_len {
        assert_eq!(ZERO, trace[OP_INDEX_IDX][i]);
    }
}

#[test]
fn span_block_small() {
    let ops = vec![
        Operation::Push(Felt::new(1)),
        Operation::Push(Felt::new(2)),
        Operation::Add,
    ];
    let span = Span::new(ops.clone());
    let program = CodeBlock::new_span(ops.clone());

    let (trace, trace_len) = build_trace(&[], &program);

    // --- check block address column ----------------------------------------
    assert_eq!(trace[ADDR_IDX][0], ZERO);
    assert_eq!(trace[ADDR_IDX][1], INIT_ADDR);
    assert_eq!(trace[ADDR_IDX][2], INIT_ADDR);
    assert_eq!(trace[ADDR_IDX][3], INIT_ADDR);
    assert_eq!(trace[ADDR_IDX][4], INIT_ADDR);
    for i in 5..trace_len {
        assert_eq!(trace[ADDR_IDX][i], ZERO);
    }

    // --- check op bits columns ---------------------------------------------
    assert!(contains_op(&trace, 0, Operation::Span));
    assert!(contains_op(&trace, 1, Operation::Push(Felt::new(1))));
    assert!(contains_op(&trace, 2, Operation::Push(Felt::new(2))));
    assert!(contains_op(&trace, 3, Operation::Add));
    assert!(contains_op(&trace, 4, Operation::Noop));
    assert!(contains_op(&trace, 5, Operation::End));
    for i in 6..trace_len {
        assert!(contains_op(&trace, i, Operation::Halt));
    }

    // --- check hasher state columns ----------------------------------------
    let program_hash = word_of(&program);
    check_hasher_state(
        &trace,
        vec![
            groups_of(&span, 0),
            vec![build_group(&ops[1..])],
            vec![build_group(&ops[2..])],
            vec![],
            vec![],
            program_hash.to_vec(),
        ],
    );

    // --- check in_span column ----------------------------------------------
    assert_eq!(ZERO, trace[IN_SPAN_IDX][0]);
    for i in 1..5 {
        assert_eq!(ONE, trace[IN_SPAN_IDX][i]);
    }
    for i in 5..trace_len {
        assert_eq!(ZERO, trace[IN_SPAN_IDX][i]);
    }

    // --- check group count column ------------------------------------------
    assert_eq!(trace[GROUP_COUNT_IDX][0], 8);
    assert_eq!(trace[GROUP_COUNT_IDX][1], 3);
    assert_eq!(trace[GROUP_COUNT_IDX][2], 2);
    assert_eq!(trace[GROUP_COUNT_IDX][3], 1);
    assert_eq!(trace[GROUP_COUNT_IDX][4], 0);
    assert_eq!(trace[GROUP_COUNT_IDX][5], 0);
    for i in 6..trace_len {
        assert_eq!(ZERO, trace[GROUP_COUNT_IDX][i]);
    }

    // --- check op index column ---------------------------------------------
    assert_eq!(trace[OP_INDEX_IDX][0], 0);
    assert_eq!(trace[OP_INDEX_IDX][1], 0); // push
    assert_eq!(trace[OP_INDEX_IDX][2], 1); // push
    assert_eq!(trace[OP_INDEX_IDX][3], 2); // add
    assert_eq!(trace[OP_INDEX_IDX][4], 0); // next group, reset to 0
    assert_eq!(trace[OP_INDEX_IDX][5], 0);
    for i in 6..trace_len {
        assert_eq!(ZERO, trace[OP_INDEX_IDX][i]);
    }
}

#[test]
fn span_block() {
    let ops = vec![
        Operation::Push(Felt::new(1)),
        Operation::Push(Felt::new(2)),
        Operation::Push(Felt::new(3)),
        Operation::Pad,
        Operation::Mul,
        Operation::Add,
        Operation::Drop,
        Operation::Push(Felt::new(4)),
        Operation::Push(Felt::new(5)),
        Operation::Mul,
        Operation::Add,
        Operation::Inv,
    ];
    let span = Span::new(ops.clone());
    let program = CodeBlock::new_span(ops.clone());
    let (trace, trace_len) = build_trace(&[], &program);

    // --- check block address column ----------------------------------------
    assert_eq!(trace[ADDR_IDX][0], ZERO);
    for i in 1..16 {
        assert_eq!(trace[ADDR_IDX][i], INIT_ADDR);
    }
    for i in 16..trace_len {
        assert_eq!(trace[ADDR_IDX][i], ZERO);
    }

    // --- check op bits columns ---------------------------------------------
    // two NOOPs are inserted by the packer: after PUSH(4) so that the first
    // group does not end with a PUSH, and before the END to pad the batch
    assert!(contains_op(&trace, 0, Operation::Span));
    assert!(contains_op(&trace, 1, Operation::Push(Felt::new(1))));
    assert!(contains_op(&trace, 2, Operation::Push(Felt::new(2))));
    assert!(contains_op(&trace, 3, Operation::Push(Felt::new(3))));
    assert!(contains_op(&trace, 4, Operation::Pad));
    assert!(contains_op(&trace, 5, Operation::Mul));
    assert!(contains_op(&trace, 6, Operation::Add));
    assert!(contains_op(&trace, 7, Operation::Drop));
    assert!(contains_op(&trace, 8, Operation::Push(Felt::new(4))));
    assert!(contains_op(&trace, 9, Operation::Noop));
    assert!(contains_op(&trace, 10, Operation::Push(Felt::new(5))));
    assert!(contains_op(&trace, 11, Operation::Mul));
    assert!(contains_op(&trace, 12, Operation::Add));
    assert!(contains_op(&trace, 13, Operation::Inv));
    assert!(contains_op(&trace, 14, Operation::Noop));
    assert!(contains_op(&trace, 15, Operation::End));
    for i in 16..trace_len {
        assert!(contains_op(&trace, i, Operation::Halt));
    }

    // --- check hasher state columns ----------------------------------------
    let program_hash = word_of(&program);
    check_hasher_state(
        &trace,
        vec![
            groups_of(&span, 0),
            vec![build_group(&ops[1..8])], // first group starts
            vec![build_group(&ops[2..8])],
            vec![build_group(&ops[3..8])],
            vec![build_group(&ops[4..8])],
            vec![build_group(&ops[5..8])],
            vec![build_group(&ops[6..8])],
            vec![build_group(&ops[7..8])],
            vec![], // NOOP inserted after push
            vec![],
            vec![build_group(&ops[9..])], // next group starts
            vec![build_group(&ops[10..])],
            vec![build_group(&ops[11..])],
            vec![],
            vec![],                        // a group with a single NOOP at the end
            program_hash.to_vec(),
        ],
    );

    // --- check in_span column ----------------------------------------------
    assert_eq!(ZERO, trace[IN_SPAN_IDX][0]);
    for i in 1..15 {
        assert_eq!(ONE, trace[IN_SPAN_IDX][i]);
    }
    for i in 15..trace_len {
        assert_eq!(ZERO, trace[IN_SPAN_IDX][i]);
    }

    // --- check group count column ------------------------------------------
    assert_eq!(trace[GROUP_COUNT_IDX][0], 8);
    assert_eq!(trace[GROUP_COUNT_IDX][1], 7);
    assert_eq!(trace[GROUP_COUNT_IDX][2], 6);
    assert_eq!(trace[GROUP_COUNT_IDX][3], 5);
    assert_eq!(trace[GROUP_COUNT_IDX][4], 4);
    assert_eq!(trace[GROUP_COUNT_IDX][5], 4);
    assert_eq!(trace[GROUP_COUNT_IDX][6], 4);
    assert_eq!(trace[GROUP_COUNT_IDX][7], 4);
    assert_eq!(trace[GROUP_COUNT_IDX][8], 4);
    assert_eq!(trace[GROUP_COUNT_IDX][9], 3);
    assert_eq!(trace[GROUP_COUNT_IDX][10], 2);
    assert_eq!(trace[GROUP_COUNT_IDX][11], 1);
    assert_eq!(trace[GROUP_COUNT_IDX][12], 1);
    assert_eq!(trace[GROUP_COUNT_IDX][13], 1);
    assert_eq!(trace[GROUP_COUNT_IDX][14], 0);
    for i in 15..trace_len {
        assert_eq!(ZERO, trace[GROUP_COUNT_IDX][i]);
    }

    // --- check op index column ---------------------------------------------
    assert_eq!(trace[OP_INDEX_IDX][0], 0);
    assert_eq!(trace[OP_INDEX_IDX][1], 0); // push
    assert_eq!(trace[OP_INDEX_IDX][2], 1); // push
    assert_eq!(trace[OP_INDEX_IDX][3], 2); // push
    assert_eq!(trace[OP_INDEX_IDX][4], 3); // pad
    assert_eq!(trace[OP_INDEX_IDX][5], 4); // mul
    assert_eq!(trace[OP_INDEX_IDX][6], 5); // add
    assert_eq!(trace[OP_INDEX_IDX][7], 6); // drop
    assert_eq!(trace[OP_INDEX_IDX][8], 7); // push
    assert_eq!(trace[OP_INDEX_IDX][9], 8); // noop
    assert_eq!(trace[OP_INDEX_IDX][10], 0); // new group - push
    assert_eq!(trace[OP_INDEX_IDX][11], 1); // mul
    assert_eq!(trace[OP_INDEX_IDX][12], 2); // add
    assert_eq!(trace[OP_INDEX_IDX][13], 3); // inv
    assert_eq!(trace[OP_INDEX_IDX][14], 0); // new group - noop
    for i in 15..trace_len {
        assert_eq!(ZERO, trace[OP_INDEX_IDX][i]);
    }
}

#[test]
fn span_block_with_respan() {
    let ops = vec![
        Operation::Push(Felt::new(1)),
        Operation::Push(Felt::new(2)),
        Operation::Push(Felt::new(3)),
        Operation::Push(Felt::new(4)),
        Operation::Push(Felt::new(5)),
        Operation::Push(Felt::new(6)),
        Operation::Push(Felt::new(7)),
        Operation::Push(Felt::new(8)),
        Operation::Add,
        Operation::Push(Felt::new(9)),
    ];
    let span = Span::new(ops.clone());
    let program = CodeBlock::new_span(ops.clone());
    let (trace, trace_len) = build_trace(&[], &program);

    // --- check block address column ----------------------------------------
    assert_eq!(trace[ADDR_IDX][0], ZERO); // SPAN
    for i in 1..10 {
        assert_eq!(trace[ADDR_IDX][i], INIT_ADDR);
    }
    for i in 10..16 {
        assert_eq!(trace[ADDR_IDX][i], INIT_ADDR + 8);
    }
    for i in 16..trace_len {
        assert_eq!(trace[ADDR_IDX][i], ZERO);
    }

    // --- check op bits columns ---------------------------------------------
    assert!(contains_op(&trace, 0, Operation::Span));
    assert!(contains_op(&trace, 1, Operation::Push(Felt::new(1))));
    assert!(contains_op(&trace, 2, Operation::Push(Felt::new(2))));
    assert!(contains_op(&trace, 3, Operation::Push(Felt::new(3))));
    assert!(contains_op(&trace, 4, Operation::Push(Felt::new(4))));
    assert!(contains_op(&trace, 5, Operation::Push(Felt::new(5))));
    assert!(contains_op(&trace, 6, Operation::Push(Felt::new(6))));
    assert!(contains_op(&trace, 7, Operation::Push(Felt::new(7))));
    assert!(contains_op(&trace, 8, Operation::Noop));
    assert!(contains_op(&trace, 9, Operation::Respan));
    assert!(contains_op(&trace, 10, Operation::Push(Felt::new(8))));
    assert!(contains_op(&trace, 11, Operation::Add));
    assert!(contains_op(&trace, 12, Operation::Push(Felt::new(9))));
    assert!(contains_op(&trace, 13, Operation::Noop));
    assert!(contains_op(&trace, 14, Operation::Noop));
    assert!(contains_op(&trace, 15, Operation::End));
    for i in 16..trace_len {
        assert!(contains_op(&trace, i, Operation::Halt));
    }

    // --- check hasher state columns ----------------------------------------
    let program_hash = word_of(&program);
    check_hasher_state(
        &trace,
        vec![
            groups_of(&span, 0),
            vec![build_group(&ops[1..7])], // first group starts
            vec![build_group(&ops[2..7])],
            vec![build_group(&ops[3..7])],
            vec![build_group(&ops[4..7])],
            vec![build_group(&ops[5..7])],
            vec![build_group(&ops[6..7])],
            vec![],
            vec![], // a NOOP inserted after last PUSH
            groups_of(&span, 1),
            vec![build_group(&ops[8..])], // next group starts
            vec![build_group(&ops[9..])],
            vec![],
            vec![],                        // a NOOP is inserted after last PUSH
            vec![],                        // a group with a single NOOP at the end
            program_hash.to_vec(),
        ],
    );

    // --- check in_span column ----------------------------------------------
    assert_eq!(ZERO, trace[IN_SPAN_IDX][0]);
    for i in 1..15 {
        assert_eq!(ONE, trace[IN_SPAN_IDX][i]);
    }
    for i in 15..trace_len {
        assert_eq!(ZERO, trace[IN_SPAN_IDX][i]);
    }

    // --- check group count column ------------------------------------------
    assert_eq!(trace[GROUP_COUNT_IDX][0], 16);
    assert_eq!(trace[GROUP_COUNT_IDX][1], 15);
    assert_eq!(trace[GROUP_COUNT_IDX][2], 14);
    assert_eq!(trace[GROUP_COUNT_IDX][3], 13);
    assert_eq!(trace[GROUP_COUNT_IDX][4], 12);
    assert_eq!(trace[GROUP_COUNT_IDX][5], 11);
    assert_eq!(trace[GROUP_COUNT_IDX][6], 10);
    assert_eq!(trace[GROUP_COUNT_IDX][7], 9);
    assert_eq!(trace[GROUP_COUNT_IDX][8], 8);
    assert_eq!(trace[GROUP_COUNT_IDX][9], 8); // RESPAN
    assert_eq!(trace[GROUP_COUNT_IDX][10], 3);
    assert_eq!(trace[GROUP_COUNT_IDX][11], 2);
    assert_eq!(trace[GROUP_COUNT_IDX][12], 2);
    assert_eq!(trace[GROUP_COUNT_IDX][13], 1);
    assert_eq!(trace[GROUP_COUNT_IDX][14], 0);
    for i in 15..trace_len {
        assert_eq!(ZERO, trace[GROUP_COUNT_IDX][i]);
    }

    // --- check op index column ---------------------------------------------
    assert_eq!(trace[OP_INDEX_IDX][0], 0);
    assert_eq!(trace[OP_INDEX_IDX][1], 0); // push
    assert_eq!(trace[OP_INDEX_IDX][2], 1); // push
    assert_eq!(trace[OP_INDEX_IDX][3], 2); // push
    assert_eq!(trace[OP_INDEX_IDX][4], 3); // push
    assert_eq!(trace[OP_INDEX_IDX][5], 4); // push
    assert_eq!(trace[OP_INDEX_IDX][6], 5); // push
    assert_eq!(trace[OP_INDEX_IDX][7], 6); // push
    assert_eq!(trace[OP_INDEX_IDX][8], 7); // noop
    assert_eq!(trace[OP_INDEX_IDX][9], 0); // respan
    assert_eq!(trace[OP_INDEX_IDX][10], 0); // push
    assert_eq!(trace[OP_INDEX_IDX][11], 1); // add
    assert_eq!(trace[OP_INDEX_IDX][12], 2); // push
    assert_eq!(trace[OP_INDEX_IDX][13], 3); // noop
    assert_eq!(trace[OP_INDEX_IDX][14], 0); // new group - noop
    for i in 15..trace_len {
        assert_eq!(ZERO, trace[OP_INDEX_IDX][i]);
    }
}

// JOIN BLOCK TESTS
// ================================================================================================

#[test]
fn join_block() {
    let span1 = CodeBlock::new_span(vec![Operation::Mul]);
    let span2 = CodeBlock::new_span(vec![Operation::Add]);
    let span1_hash = word_of(&span1);
    let span2_hash = word_of(&span2);
    let program = CodeBlock::new_join(span1, span2);

    let (trace, trace_len) = build_trace(&[], &program);

    // --- check block address column ----------------------------------------
    let init_addr = ZERO;

    assert_eq!(trace[ADDR_IDX][0], ZERO);
    assert_eq!(trace[ADDR_IDX][1], init_addr); // SPAN
    assert_eq!(trace[ADDR_IDX][2], init_addr + 8);
    assert_eq!(trace[ADDR_IDX][3], init_addr + 8);
    assert_eq!(trace[ADDR_IDX][4], init_addr); // SPAN
    assert_eq!(trace[ADDR_IDX][5], init_addr + 16);
    assert_eq!(trace[ADDR_IDX][6], init_addr + 16);
    assert_eq!(trace[ADDR_IDX][7], init_addr);
    for i in 8..trace_len {
        assert_eq!(trace[ADDR_IDX][i], ZERO);
    }

    // --- check op bits columns ---------------------------------------------
    // opcodes should be: JOIN SPAN MUL END SPAN ADD END END
    assert!(contains_op(&trace, 0, Operation::Join));
    assert!(contains_op(&trace, 1, Operation::Span));
    assert!(contains_op(&trace, 2, Operation::Mul));
    assert!(contains_op(&trace, 3, Operation::End));
    assert!(contains_op(&trace, 4, Operation::Span));
    assert!(contains_op(&trace, 5, Operation::Add));
    assert!(contains_op(&trace, 6, Operation::End));
    assert!(contains_op(&trace, 7, Operation::End));
    for i in 8..trace_len {
        assert!(contains_op(&trace, i, Operation::Halt));
    }

    // --- check hasher state columns ----------------------------------------
    // in the first row, the hasher state is set to hashes of both children
    assert_eq!(span1_hash, get_hasher_state1(&trace, 0));
    assert_eq!(span2_hash, get_hasher_state2(&trace, 0));

    // at the end of the first SPAN, the hash of the first child
    assert_eq!(span1_hash, get_hasher_state1(&trace, 3));
    assert_eq!([ZERO, ZERO, ZERO, ZERO], get_hasher_state2(&trace, 3));

    // at the end of the second SPAN, the hash of the second child
    assert_eq!(span2_hash, get_hasher_state1(&trace, 6));
    assert_eq!([ZERO, ZERO, ZERO, ZERO], get_hasher_state2(&trace, 6));

    // at the end of the program, the hash of the entire program
    let program_hash = word_of(&program);
    assert_eq!(program_hash, get_hasher_state1(&trace, 7));
    assert_eq!([ZERO, ZERO, ZERO, ZERO], get_hasher_state2(&trace, 7));
}

// SPLIT BLOCK TESTS
// ================================================================================================

#[test]
fn split_block_true() {
    let span1 = CodeBlock::new_span(vec![Operation::Mul]);
    let span2 = CodeBlock::new_span(vec![Operation::Add]);
    let span1_hash = word_of(&span1);
    let span2_hash = word_of(&span2);
    let program = CodeBlock::new_split(span1, span2);

    let (trace, trace_len) = build_trace(&[1], &program);

    // --- check block address column ----------------------------------------
    let init_addr = ZERO;

    assert_eq!(trace[ADDR_IDX][0], ZERO);
    assert_eq!(trace[ADDR_IDX][1], init_addr); // SPAN
    assert_eq!(trace[ADDR_IDX][2], init_addr + 8);
    assert_eq!(trace[ADDR_IDX][3], init_addr + 8);
    assert_eq!(trace[ADDR_IDX][4], init_addr);
    for i in 5..trace_len {
        assert_eq!(trace[ADDR_IDX][i], ZERO);
    }

    // --- check op bits columns ---------------------------------------------
    // opcodes should be: SPLIT SPAN MUL END END
    assert!(contains_op(&trace, 0, Operation::Split));
    assert!(contains_op(&trace, 1, Operation::Span));
    assert!(contains_op(&trace, 2, Operation::Mul));
    assert!(contains_op(&trace, 3, Operation::End));
    assert!(contains_op(&trace, 4, Operation::End));
    for i in 5..trace_len {
        assert!(contains_op(&trace, i, Operation::Halt));
    }

    // --- check hasher state columns ----------------------------------------
    assert_eq!(span1_hash, get_hasher_state1(&trace, 0));
    assert_eq!(span2_hash, get_hasher_state2(&trace, 0));

    assert_eq!(span1_hash, get_hasher_state1(&trace, 3));
    assert_eq!([ZERO, ZERO, ZERO, ZERO], get_hasher_state2(&trace, 3));

    let program_hash = word_of(&program);
    assert_eq!(program_hash, get_hasher_state1(&trace, 4));
    assert_eq!([ZERO, ZERO, ZERO, ZERO], get_hasher_state2(&trace, 4));
}

#[test]
fn split_block_false() {
    let span1 = CodeBlock::new_span(vec![Operation::Mul]);
    let span2 = CodeBlock::new_span(vec![Operation::Add]);
    let span1_hash = word_of(&span1);
    let span2_hash = word_of(&span2);
    let program = CodeBlock::new_split(span1, span2);

    let (trace, trace_len) = build_trace(&[0], &program);

    // --- check block address column ----------------------------------------
    let init_addr = ZERO;

    assert_eq!(trace[ADDR_IDX][0], ZERO);
    assert_eq!(trace[ADDR_IDX][1], init_addr); // SPAN
    assert_eq!(trace[ADDR_IDX][2], init_addr + 8);
    assert_eq!(trace[ADDR_IDX][3], init_addr + 8);
    assert_eq!(trace[ADDR_IDX][4], init_addr);
    for i in 5..trace_len {
        assert_eq!(trace[ADDR_IDX][i], ZERO);
    }

    // --- check op bits columns ---------------------------------------------
    // opcodes should be: SPLIT SPAN ADD END END
    assert!(contains_op(&trace, 0, Operation::Split));
    assert!(contains_op(&trace, 1, Operation::Span));
    assert!(contains_op(&trace, 2, Operation::Add));
    assert!(contains_op(&trace, 3, Operation::End));
    assert!(contains_op(&trace, 4, Operation::End));
    for i in 5..trace_len {
        assert!(contains_op(&trace, i, Operation::Halt));
    }

    // --- check hasher state columns ----------------------------------------
    assert_eq!(span1_hash, get_hasher_state1(&trace, 0));
    assert_eq!(span2_hash, get_hasher_state2(&trace, 0));

    // at the end of the SPAN, the hash of the second child
    assert_eq!(span2_hash, get_hasher_state1(&trace, 3));
    assert_eq!([ZERO, ZERO, ZERO, ZERO], get_hasher_state2(&trace, 3));

    let program_hash = word_of(&program);
    assert_eq!(program_hash, get_hasher_state1(&trace, 4));
    assert_eq!([ZERO, ZERO, ZERO, ZERO], get_hasher_state2(&trace, 4));
}

// LOOP BLOCK TESTS
// ================================================================================================

#[test]
fn loop_block() {
    let loop_body = CodeBlock::new_span(vec![Operation::Pad, Operation::Drop]);
    let loop_body_hash = word_of(&loop_body);
    let program = CodeBlock::new_loop(loop_body);

    let (trace, trace_len) = build_trace(&[0, 1], &program);

    // --- check block address column ----------------------------------------
    let init_addr = ZERO;

    assert_eq!(trace[ADDR_IDX][0], ZERO);
    assert_eq!(trace[ADDR_IDX][1], init_addr);
    assert_eq!(trace[ADDR_IDX][2], init_addr + 8);
    assert_eq!(trace[ADDR_IDX][3], init_addr + 8);
    assert_eq!(trace[ADDR_IDX][4], init_addr + 8);
    assert_eq!(trace[ADDR_IDX][5], init_addr);
    for i in 6..trace_len {
        assert_eq!(trace[ADDR_IDX][i], ZERO);
    }

    // --- check op bits columns ---------------------------------------------
    assert!(contains_op(&trace, 0, Operation::Loop));
    assert!(contains_op(&trace, 1, Operation::Span));
    assert!(contains_op(&trace, 2, Operation::Pad));
    assert!(contains_op(&trace, 3, Operation::Drop));
    assert!(contains_op(&trace, 4, Operation::End));
    assert!(contains_op(&trace, 5, Operation::End));
    for i in 6..trace_len {
        assert!(contains_op(&trace, i, Operation::Halt));
    }

    // --- check hasher state columns ----------------------------------------
    // in the first row, the hasher state is set to the hash of the loop body
    assert_eq!(loop_body_hash, get_hasher_state1(&trace, 0));
    assert_eq!([ZERO; 4], get_hasher_state2(&trace, 0));

    // at the end of the SPAN block, the hash of the loop's body again, with
    // the is_loop_body flag set
    assert_eq!(loop_body_hash, get_hasher_state1(&trace, 4));
    assert_eq!([ONE, ZERO, ZERO, ZERO], get_hasher_state2(&trace, 4));

    // the program hash sits in the last END row, which carries both the
    // body-ran flag and the is_loop flag
    let program_hash = word_of(&program);
    assert_eq!(program_hash, get_hasher_state1(&trace, 5));
    assert_eq!([ONE, ONE, ZERO, ZERO], get_hasher_state2(&trace, 5));
}

#[test]
fn loop_block_skip() {
    let loop_body = CodeBlock::new_span(vec![Operation::Pad, Operation::Drop]);
    let loop_body_hash = word_of(&loop_body);
    let program = CodeBlock::new_loop(loop_body);

    let (trace, trace_len) = build_trace(&[0], &program);

    // --- check block address column ----------------------------------------
    let init_addr = ZERO;

    assert_eq!(trace[ADDR_IDX][0], ZERO);
    assert_eq!(trace[ADDR_IDX][1], init_addr);
    assert_eq!(trace[ADDR_IDX][2], init_addr);
    for i in 2..trace_len {
        assert_eq!(trace[ADDR_IDX][i], ZERO);
    }

    // --- check op bits columns ---------------------------------------------
    assert!(contains_op(&trace, 0, Operation::Loop));
    assert!(contains_op(&trace, 1, Operation::End));
    for i in 2..trace_len {
        assert!(contains_op(&trace, i, Operation::Halt));
    }

    // --- check hasher state columns ----------------------------------------
    assert_eq!(loop_body_hash, get_hasher_state1(&trace, 0));
    assert_eq!([ZERO; 4], get_hasher_state2(&trace, 0));

    // the program hash sits in the END row; the is_loop flag is set, the
    // body-ran flag is not, since the body never executed
    let program_hash = word_of(&program);
    assert_eq!(program_hash, get_hasher_state1(&trace, 1));
    assert_eq!([ZERO, ONE, ZERO, ZERO], get_hasher_state2(&trace, 1));
}

#[test]
fn loop_block_repeat() {
    let loop_body = CodeBlock::new_span(vec![Operation::Pad, Operation::Drop]);
    let loop_body_hash = word_of(&loop_body);
    let program = CodeBlock::new_loop(loop_body);

    let (trace, trace_len) = build_trace(&[0, 1, 1], &program);

    // --- check block address column ----------------------------------------
    let init_addr = ZERO;

    assert_eq!(trace[ADDR_IDX][0], ZERO);
    assert_eq!(trace[ADDR_IDX][1], init_addr);
    assert_eq!(trace[ADDR_IDX][2], init_addr + 8);
    assert_eq!(trace[ADDR_IDX][3], init_addr + 8);
    assert_eq!(trace[ADDR_IDX][4], init_addr + 8);
    assert_eq!(trace[ADDR_IDX][5], init_addr); // REPEAT
    assert_eq!(trace[ADDR_IDX][6], init_addr);
    assert_eq!(trace[ADDR_IDX][7], init_addr + 16);
    assert_eq!(trace[ADDR_IDX][8], init_addr + 16);
    assert_eq!(trace[ADDR_IDX][9], init_addr + 16);
    assert_eq!(trace[ADDR_IDX][10], init_addr);
    for i in 11..trace_len {
        assert_eq!(trace[ADDR_IDX][i], ZERO);
    }

    // --- check op bits columns ---------------------------------------------
    assert!(contains_op(&trace, 0, Operation::Loop));
    assert!(contains_op(&trace, 1, Operation::Span));
    assert!(contains_op(&trace, 2, Operation::Pad));
    assert!(contains_op(&trace, 3, Operation::Drop));
    assert!(contains_op(&trace, 4, Operation::End));
    assert!(contains_op(&trace, 5, Operation::Repeat));
    assert!(contains_op(&trace, 6, Operation::Span));
    assert!(contains_op(&trace, 7, Operation::Pad));
    assert!(contains_op(&trace, 8, Operation::Drop));
    assert!(contains_op(&trace, 9, Operation::End));
    assert!(contains_op(&trace, 10, Operation::End));
    for i in 11..trace_len {
        assert!(contains_op(&trace, i, Operation::Halt));
    }

    // --- check hasher state columns ----------------------------------------
    assert_eq!(loop_body_hash, get_hasher_state1(&trace, 0));
    assert_eq!([ZERO; 4], get_hasher_state2(&trace, 0));

    // at the end of the first iteration, the hash of the loop's body with
    // the is_loop_body flag set
    assert_eq!(loop_body_hash, get_hasher_state1(&trace, 4));
    assert_eq!([ONE, ZERO, ZERO, ZERO], get_hasher_state2(&trace, 4));

    // the REPEAT row carries the body's digest and zero flags
    assert_eq!(loop_body_hash, get_hasher_state1(&trace, 5));
    assert_eq!([ZERO, ZERO, ZERO, ZERO], get_hasher_state2(&trace, 5));

    // at the end of the second iteration, the body's hash and flag again
    assert_eq!(loop_body_hash, get_hasher_state1(&trace, 9));
    assert_eq!([ONE, ZERO, ZERO, ZERO], get_hasher_state2(&trace, 9));

    // the program hash sits in the last END row, which carries both the
    // body-ran flag and the is_loop flag
    let program_hash = word_of(&program);
    assert_eq!(program_hash, get_hasher_state1(&trace, 10));
    assert_eq!([ONE, ONE, ZERO, ZERO], get_hasher_state2(&trace, 10));
}
