//! Operations of the virtual machine and the packed op-group encoding.

use vstd::prelude::*;
use vstd::arithmetic::power::pow;
use crate::field::Felt;

verus! {

/// Number of bits in an opcode.
pub const NUM_OP_BITS: usize = 7;

/// Number of op groups in an op batch.
pub const OP_BATCH_SIZE: usize = 8;

/// Greatest number of opcodes a single op group can hold.
pub const GROUP_SIZE: usize = 9;

// The 7-bit opcodes. Values 0 through 7 are user operations, values 8 and
// above are control operations; this split is what the `in_span` column of
// the decoder trace reflects.
pub const OPCODE_NOOP: u64 = 0;
pub const OPCODE_DROP: u64 = 1;
pub const OPCODE_PAD: u64 = 2;
pub const OPCODE_ADD: u64 = 3;
pub const OPCODE_MUL: u64 = 4;
pub const OPCODE_INV: u64 = 5;
pub const OPCODE_U32ADD: u64 = 6;
pub const OPCODE_PUSH: u64 = 7;
pub const OPCODE_JOIN: u64 = 8;
pub const OPCODE_SPLIT: u64 = 9;
pub const OPCODE_LOOP: u64 = 10;
pub const OPCODE_REPEAT: u64 = 11;
pub const OPCODE_SPAN: u64 = 12;
pub const OPCODE_RESPAN: u64 = 13;
pub const OPCODE_END: u64 = 14;
pub const OPCODE_HALT: u64 = 15;

/// An operation of the virtual machine.
///
/// User operations execute inside a span; control operations delimit blocks
/// in the decoder trace. `Advice` is a decorator: a pseudo-operation that
/// carries no opcode and consumes no trace row.
#[derive(Clone, Copy, PartialEq, Eq, Structural, Debug)]
pub enum Operation {
    Noop,
    Drop,
    Pad,
    Add,
    Mul,
    Inv,
    U32add,
    Push(Felt),
    Join,
    Split,
    Loop,
    Repeat,
    Span,
    Respan,
    End,
    Halt,
    Advice,
}

impl Operation {
    /// Whether the operation is a decorator (emits no trace row).
    pub open spec fn is_decorator_spec(self) -> bool {
        self is Advice
    }

    /// Whether the operation carries an immediate value that occupies the
    /// next free op-group slot of its batch.
    pub open spec fn has_imm_spec(self) -> bool {
        self is Push
    }

    /// The immediate value carried by the operation, as an integer.
    pub open spec fn imm_val_spec(self) -> u64 {
        match self {
            Operation::Push(v) => v.val(),
            _ => 0,
        }
    }

    /// The 7-bit opcode. Meaningful only for non-decorator operations.
    pub open spec fn op_code_spec(self) -> u64 {
        match self {
            Operation::Noop => OPCODE_NOOP,
            Operation::Drop => OPCODE_DROP,
            Operation::Pad => OPCODE_PAD,
            Operation::Add => OPCODE_ADD,
            Operation::Mul => OPCODE_MUL,
            Operation::Inv => OPCODE_INV,
            Operation::U32add => OPCODE_U32ADD,
            Operation::Push(_) => OPCODE_PUSH,
            Operation::Join => OPCODE_JOIN,
            Operation::Split => OPCODE_SPLIT,
            Operation::Loop => OPCODE_LOOP,
            Operation::Repeat => OPCODE_REPEAT,
            Operation::Span => OPCODE_SPAN,
            Operation::Respan => OPCODE_RESPAN,
            Operation::End => OPCODE_END,
            Operation::Halt => OPCODE_HALT,
            Operation::Advice => OPCODE_NOOP,
        }
    }

    /// Whether the opcode belongs to a user operation (one executed inside a
    /// span).
    pub open spec fn is_user_op_spec(self) -> bool {
        !self.is_decorator_spec() && self.op_code_spec() < 8
    }

    /// Whether the operation is a decorator.
    pub fn is_decorator(&self) -> (r: bool)
        ensures
            r == self.is_decorator_spec(),
    {
        match self {
            Operation::Advice => true,
            _ => false,
        }
    }

    /// The 7-bit opcode of the operation; `None` for decorators.
    pub fn op_code(&self) -> (r: Option<u64>)
        ensures
            self.is_decorator_spec() <==> r is None,
            r is Some ==> r->0 == self.op_code_spec(),
    {
        match self {
            Operation::Noop => Some(OPCODE_NOOP),
            Operation::Drop => Some(OPCODE_DROP),
            Operation::Pad => Some(OPCODE_PAD),
            Operation::Add => Some(OPCODE_ADD),
            Operation::Mul => Some(OPCODE_MUL),
            Operation::Inv => Some(OPCODE_INV),
            Operation::U32add => Some(OPCODE_U32ADD),
            Operation::Push(_) => Some(OPCODE_PUSH),
            Operation::Join => Some(OPCODE_JOIN),
            Operation::Split => Some(OPCODE_SPLIT),
            Operation::Loop => Some(OPCODE_LOOP),
            Operation::Repeat => Some(OPCODE_REPEAT),
            Operation::Span => Some(OPCODE_SPAN),
            Operation::Respan => Some(OPCODE_RESPAN),
            Operation::End => Some(OPCODE_END),
            Operation::Halt => Some(OPCODE_HALT),
            Operation::Advice => None,
        }
    }

    /// The immediate value of the operation, if it carries one.
    pub fn imm_value(&self) -> (r: Option<Felt>)
        ensures
            self.has_imm_spec() <==> r is Some,
            r is Some ==> r->0.val() == self.imm_val_spec(),
    {
        match self {
            Operation::Push(v) => Some(*v),
            _ => None,
        }
    }
}

/// Whether an opcode value decodes to a defined operation.
pub open spec fn opcode_defined(code: u64) -> bool {
    code <= OPCODE_HALT
}

/// The packed value of an op group: the opcodes of `ops`, first operation in
/// the lowest bits, at a 7-bit stride.
pub open spec fn group_val(ops: Seq<Operation>) -> int
    decreases ops.len(),
{
    if ops.len() == 0 {
        0
    } else {
        ops[0].op_code_spec() + 128 * group_val(ops.skip(1))
    }
}

/// The packed value of any sequence of at most `GROUP_SIZE` operations fits
/// in 63 bits.
pub proof fn lemma_group_val_bound(ops: Seq<Operation>)
    ensures
        0 <= group_val(ops) < pow(128, ops.len() as nat),
    decreases ops.len(),
{
    if ops.len() == 0 {
        assert(pow(128, 0nat) == 1) by {
            vstd::arithmetic::power::lemma_pow0(128);
        }
    } else {
        lemma_group_val_bound(ops.skip(1));
        assert(pow(128, ops.len() as nat) == 128 * pow(128, (ops.len() - 1) as nat)) by {
            reveal_with_fuel(pow, 2);
        }
        assert(ops[0].op_code_spec() <= 127);
    }
}

/// `pow(128, n) <= pow(128, 9)` for `n <= 9`, and `pow(128, 9) == 1 << 63`.
pub proof fn lemma_group_val_u64(ops: Seq<Operation>)
    requires
        ops.len() <= GROUP_SIZE,
    ensures
        0 <= group_val(ops) < 0x8000_0000_0000_0000,
{
    lemma_group_val_bound(ops);
    vstd::arithmetic::power::lemma_pow_increases(128, ops.len() as nat, 9nat);
    assert(pow(128, 9nat) == 0x8000_0000_0000_0000) by {
        reveal_with_fuel(pow, 10);
    };
}

/// Computes the packed value of the operations `ops[from..]`.
pub fn build_group(ops: &Vec<Operation>, from: usize) -> (r: u64)
    requires
        from <= ops@.len(),
        ops@.len() - from <= GROUP_SIZE,
    ensures
        r == group_val(ops@.skip(from as int)),
        r < 0x8000_0000_0000_0000,
{
    let mut i: usize = ops.len();
    let mut acc: u64 = 0;
    proof {
        assert(ops@.skip(i as int) =~= Seq::<Operation>::empty());
        lemma_group_val_bound(ops@.skip(i as int));
    }
    while i > from
        invariant
            from <= i <= ops@.len(),
            ops@.len() - from <= GROUP_SIZE,
            acc == group_val(ops@.skip(i as int)),
            0 <= group_val(ops@.skip(i as int)) < pow(128, (ops@.len() - i) as nat),
        decreases i,
    {
        i = i - 1;
        let code = match ops[i].op_code() {
            Some(c) => c,
            None => 0,
        };
        proof {
            lemma_group_val_bound(ops@.skip(i as int));
            assert(ops@.skip(i as int)[0] == ops@[i as int]);
            assert(ops@.skip(i as int).skip(1) =~= ops@.skip(i + 1));
            vstd::arithmetic::power::lemma_pow_increases(
                128,
                (ops@.len() - i - 1) as nat,
                8nat,
            );
            assert(pow(128, 8nat) == 0x0100_0000_0000_0000) by {
                reveal_with_fuel(pow, 9);
            }
        }
        acc = code + 128 * acc;
    }
    proof {
        lemma_group_val_u64(ops@.skip(from as int));
    }
    acc
}

/// The number of operations among `ops` that carry an immediate value.
pub open spec fn count_imms(ops: Seq<Operation>) -> int
    decreases ops.len(),
{
    if ops.len() == 0 {
        0
    } else {
        (if ops[0].has_imm_spec() {
            1int
        } else {
            0int
        }) + count_imms(ops.skip(1))
    }
}

/// `count_imms` is between 0 and the length of the sequence.
pub proof fn lemma_count_imms_bound(ops: Seq<Operation>)
    ensures
        0 <= count_imms(ops) <= ops.len(),
    decreases ops.len(),
{
    if ops.len() > 0 {
        lemma_count_imms_bound(ops.skip(1));
    }
}

} // verus!
