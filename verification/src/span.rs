//! The span packer: groups a straight-line operation list into fixed-size
//! op groups and op batches.
//!
//! Each op group packs up to nine 7-bit opcodes into one field element; an
//! op batch is eight groups, the hasher's absorption unit. An operation
//! with an immediate value reserves the next free group slot of its batch
//! for that value, and must never be the last operation of its group, so a
//! `Noop` is inserted where it otherwise would be. The number of occupied
//! groups of every batch is padded up to a power of two with single-`Noop`
//! groups.

use vstd::prelude::*;
use crate::field::{Felt, Word, FIELD_MODULUS};
use crate::hasher::{hash_elements, hash_elems_spec, DOMAIN_SPAN};
use crate::ops::{build_group, count_imms, group_val, lemma_count_imms_bound, lemma_group_val_u64, Operation, GROUP_SIZE, OP_BATCH_SIZE};

verus! {

// ---------------------------------------------------------------------------
// Specification: well-formedness of groups and batches
// ---------------------------------------------------------------------------

/// A closed op group: between one and nine operations, none a decorator,
/// and the last one carrying no immediate value.
pub open spec fn group_wf(g: Seq<Operation>) -> bool {
    &&& 1 <= g.len() <= GROUP_SIZE
    &&& forall|i: int| 0 <= i < g.len() ==> !(#[trigger] g[i]).is_decorator_spec()
    &&& !g[g.len() - 1].has_imm_spec()
}

/// Group slots consumed by a sequence of closed op groups: one per group
/// plus one per immediate value.
pub open spec fn used_groups(og: Seq<Seq<Operation>>) -> int
    decreases og.len(),
{
    if og.len() == 0 {
        0
    } else {
        1 + count_imms(og[0]) + used_groups(og.skip(1))
    }
}

/// Group slots consumed by closed groups plus a group still being filled.
pub open spec fn used_with_cur(og: Seq<Seq<Operation>>, cur: Seq<Operation>) -> int {
    used_groups(og) + if cur.len() == 0 {
        0int
    } else {
        1 + count_imms(cur)
    }
}

/// The smallest power of two (up to eight) at least `n`.
pub open spec fn pow2_ceil(n: int) -> int {
    if n <= 1 {
        1
    } else if n <= 2 {
        2
    } else if n <= 4 {
        4
    } else {
        8
    }
}

/// The op groups of one finished batch, as executed, in order.
pub open spec fn batch_wf(og: Seq<Seq<Operation>>) -> bool {
    &&& 1 <= og.len()
    &&& used_groups(og) == pow2_ceil(used_groups(og))
    &&& used_groups(og) <= OP_BATCH_SIZE
    &&& forall|j: int| 0 <= j < og.len() ==> group_wf(#[trigger] og[j])
}

// ---------------------------------------------------------------------------
// Specification: the eight group values of a batch
// ---------------------------------------------------------------------------

/// The immediate values carried by the operations of a group, in order.
pub open spec fn imm_vals(g: Seq<Operation>) -> Seq<u64>
    decreases g.len(),
{
    if g.len() == 0 {
        Seq::empty()
    } else {
        (if g[0].has_imm_spec() {
            seq![g[0].imm_val_spec()]
        } else {
            Seq::empty()
        }) + imm_vals(g.skip(1))
    }
}

/// Writes `vals` into `acc` starting at index `pos`.
pub open spec fn write_at(acc: Seq<u64>, pos: int, vals: Seq<u64>) -> Seq<u64>
    decreases vals.len(),
{
    if vals.len() == 0 {
        acc
    } else {
        write_at(acc.update(pos, vals[0]), pos + 1, vals.skip(1))
    }
}

/// Lays the op groups and their immediate values out over the slots of a
/// batch: each op group takes the next free slot, followed by one slot per
/// immediate value it carries.
pub open spec fn place_groups(acc: Seq<u64>, og: Seq<Seq<Operation>>, pos: int) -> Seq<u64>
    decreases og.len(),
{
    if og.len() == 0 {
        acc
    } else {
        let acc1 = acc.update(pos, group_val(og[0]) as u64);
        let acc2 = write_at(acc1, pos + 1, imm_vals(og[0]));
        place_groups(acc2, og.skip(1), pos + 1 + count_imms(og[0]))
    }
}

/// The eight group values of a batch with op groups `og`: packed opcodes
/// and immediate values at their slots, zeros in the unused slots.
pub open spec fn batch_groups_spec(og: Seq<Seq<Operation>>) -> Seq<u64> {
    place_groups(Seq::new(OP_BATCH_SIZE as nat, |i: int| 0u64), og, 0)
}

// ---------------------------------------------------------------------------
// Specification: the packing machine
// ---------------------------------------------------------------------------

/// The state of the packer: finished batches (each its op groups), the
/// closed op groups of the open batch, and the group being filled.
pub struct PackSt {
    pub batches: Seq<Seq<Seq<Operation>>>,
    pub og: Seq<Seq<Operation>>,
    pub cur: Seq<Operation>,
}

/// The initial packer state.
pub open spec fn pack_init() -> PackSt {
    PackSt { batches: Seq::empty(), og: Seq::empty(), cur: Seq::empty() }
}

/// Closes the group being filled.
pub open spec fn close_group(st: PackSt) -> PackSt {
    PackSt { batches: st.batches, og: st.og.push(st.cur), cur: Seq::empty() }
}

/// Pads the op groups of a batch with single-`Noop` groups until the used
/// slot count is a power of two.
pub open spec fn pad_og(og: Seq<Seq<Operation>>) -> Seq<Seq<Operation>> {
    og + Seq::new(
        (pow2_ceil(used_groups(og)) - used_groups(og)) as nat,
        |i: int| seq![Operation::Noop],
    )
}

/// Finishes the open batch: pads it and moves it to the finished batches.
pub open spec fn finalize_batch(st: PackSt) -> PackSt {
    PackSt { batches: st.batches.push(pad_og(st.og)), og: Seq::empty(), cur: Seq::empty() }
}

/// Closes the group being filled, first appending a `Noop` if the group
/// would otherwise end with an immediate-carrying operation.
pub open spec fn close_group_safely(st: PackSt) -> PackSt {
    if st.cur.len() == 0 {
        st
    } else if st.cur[st.cur.len() - 1].has_imm_spec() {
        close_group(PackSt { cur: st.cur.push(Operation::Noop), ..st })
    } else {
        close_group(st)
    }
}

/// Feeds one operation to the packer.
pub open spec fn pack_step(st: PackSt, op: Operation) -> PackSt {
    if op.is_decorator_spec() {
        st
    } else {
        // an immediate-carrying operation must not land in the last slot of
        // its group: close the group behind a Noop first
        let st1 = if op.has_imm_spec() && st.cur.len() == GROUP_SIZE - 1 {
            close_group(PackSt { cur: st.cur.push(Operation::Noop), ..st })
        } else {
            st
        };
        // slots the operation needs: a fresh group if none is open, plus
        // one for an immediate value
        let need = (if st1.cur.len() == 0 {
            1int
        } else {
            0int
        }) + (if op.has_imm_spec() {
            1int
        } else {
            0int
        });
        let st2 = if used_with_cur(st1.og, st1.cur) + need > OP_BATCH_SIZE {
            finalize_batch(close_group_safely(st1))
        } else {
            st1
        };
        let st3 = PackSt { cur: st2.cur.push(op), ..st2 };
        if st3.cur.len() == GROUP_SIZE {
            close_group(st3)
        } else {
            st3
        }
    }
}

/// The packer state after the first `n` operations of `ops`.
pub open spec fn pack_fold(ops: Seq<Operation>, n: int) -> PackSt
    decreases n,
{
    if n <= 0 {
        pack_init()
    } else {
        pack_step(pack_fold(ops, n - 1), ops[n - 1])
    }
}

/// Flushes the packer at the end of the operation list: the final user
/// operation must not fill the last slot of its group nor carry an
/// immediate value into it, so a `Noop` (possibly a whole `Noop` group, in
/// a fresh batch if the open one is full) is appended first.
pub open spec fn pack_finish(st: PackSt) -> Seq<Seq<Seq<Operation>>> {
    if st.cur.len() == 0 && st.og.len() == 0 {
        st.batches
    } else {
        let st1 = if st.cur.len() == 0 {
            if used_groups(st.og) + 1 > OP_BATCH_SIZE {
                PackSt { cur: seq![Operation::Noop], ..finalize_batch(st) }
            } else {
                PackSt { cur: seq![Operation::Noop], ..st }
            }
        } else if st.cur[st.cur.len() - 1].has_imm_spec() {
            PackSt { cur: st.cur.push(Operation::Noop), ..st }
        } else {
            st
        };
        finalize_batch(close_group(st1)).batches
    }
}

/// The op batches (each its op groups, in execution order) that packing
/// `ops` produces.
pub open spec fn pack_spec(ops: Seq<Operation>) -> Seq<Seq<Seq<Operation>>> {
    pack_finish(pack_fold(ops, ops.len() as int))
}

/// The group values of all batches of a span, in order: what the span's
/// structural hash absorbs.
pub open spec fn span_groups_spec(bs: Seq<Seq<Seq<Operation>>>) -> Seq<u64>
    decreases bs.len(),
{
    if bs.len() == 0 {
        Seq::empty()
    } else {
        batch_groups_spec(bs[0]) + span_groups_spec(bs.skip(1))
    }
}

/// The structural digest of a span with batches `bs`.
pub open spec fn span_hash_spec(bs: Seq<Seq<Seq<Operation>>>) -> Seq<u64> {
    hash_elems_spec(span_groups_spec(bs), DOMAIN_SPAN)
}

// ---------------------------------------------------------------------------
// Small lemmas about the counting functions
// ---------------------------------------------------------------------------

/// `count_imms` over a sequence extended at the end.
pub proof fn lemma_count_imms_push(s: Seq<Operation>, x: Operation)
    ensures
        count_imms(s.push(x)) == count_imms(s) + if x.has_imm_spec() {
            1int
        } else {
            0int
        },
    decreases s.len(),
{
    if s.len() == 0 {
        assert(s.push(x).len() == 1);
        assert(s.push(x)[0] == x);
        assert(s.push(x).skip(1) =~= Seq::<Operation>::empty());
        assert(count_imms(s.push(x).skip(1)) == 0);
        assert(count_imms(s) == 0);
        assert(count_imms(s.push(x)) == (if x.has_imm_spec() { 1int } else { 0int }) + count_imms(
            s.push(x).skip(1),
        ));
    } else {
        assert(s.push(x).skip(1) =~= s.skip(1).push(x));
        lemma_count_imms_push(s.skip(1), x);
    }
}

/// `used_groups` over a group list extended at the end.
pub proof fn lemma_used_groups_push(og: Seq<Seq<Operation>>, g: Seq<Operation>)
    ensures
        used_groups(og.push(g)) == used_groups(og) + 1 + count_imms(g),
    decreases og.len(),
{
    if og.len() == 0 {
        assert(og.push(g)[0] == g);
        assert(og.push(g).skip(1) =~= Seq::<Seq<Operation>>::empty());
        assert(used_groups(og.push(g)) == 1 + count_imms(g) + used_groups(og.push(g).skip(1)));
        assert(used_groups(og.push(g).skip(1)) == 0);
    } else {
        assert(og.push(g)[0] == og[0]);
        assert(og.push(g).skip(1) =~= og.skip(1).push(g));
        lemma_used_groups_push(og.skip(1), g);
        assert(used_groups(og.push(g)) == 1 + count_imms(og[0]) + used_groups(
            og.push(g).skip(1),
        ));
    }
}

/// Every closed group consumes at least one slot.
pub proof fn lemma_used_groups_nonneg(og: Seq<Seq<Operation>>)
    ensures
        used_groups(og) >= og.len(),
        (forall|j: int| 0 <= j < og.len() ==> count_imms(#[trigger] og[j]) >= 0) ==> used_groups(
            og,
        ) >= og.len(),
        og.len() == 0 ==> used_groups(og) == 0,
    decreases og.len(),
{
    if og.len() > 0 {
        lemma_count_imms_bound(og[0]);
        lemma_used_groups_nonneg(og.skip(1));
    }
}

/// The number of immediate values of a group equals the length of its
/// immediate-value sequence.
pub proof fn lemma_imm_vals_len(g: Seq<Operation>)
    ensures
        imm_vals(g).len() == count_imms(g),
    decreases g.len(),
{
    if g.len() > 0 {
        lemma_imm_vals_len(g.skip(1));
    }
}

/// `imm_vals` over a group extended at the end.
pub proof fn lemma_imm_vals_push(g: Seq<Operation>, x: Operation)
    ensures
        imm_vals(g.push(x)) == imm_vals(g) + if x.has_imm_spec() {
            seq![x.imm_val_spec()]
        } else {
            Seq::<u64>::empty()
        },
    decreases g.len(),
{
    if g.len() == 0 {
        assert(g.push(x)[0] == x);
        assert(g.push(x).skip(1) =~= Seq::<Operation>::empty());
        assert(imm_vals(g.push(x)) == (if x.has_imm_spec() {
            seq![x.imm_val_spec()]
        } else {
            Seq::<u64>::empty()
        }) + imm_vals(g.push(x).skip(1)));
        assert(imm_vals(g.push(x).skip(1)) =~= Seq::<u64>::empty());
        assert(imm_vals(g) =~= Seq::<u64>::empty());
        if x.has_imm_spec() {
            assert(imm_vals(g.push(x)) =~= imm_vals(g) + seq![x.imm_val_spec()]);
        } else {
            assert(imm_vals(g.push(x)) =~= imm_vals(g));
        }
    } else {
        assert(g.push(x)[0] == g[0]);
        assert(g.push(x).skip(1) =~= g.skip(1).push(x));
        lemma_imm_vals_push(g.skip(1), x);
        assert(imm_vals(g.push(x)) == (if g[0].has_imm_spec() {
            seq![g[0].imm_val_spec()]
        } else {
            Seq::<u64>::empty()
        }) + imm_vals(g.skip(1).push(x)));
        assert(imm_vals(g) == (if g[0].has_imm_spec() {
            seq![g[0].imm_val_spec()]
        } else {
            Seq::<u64>::empty()
        }) + imm_vals(g.skip(1)));
        if x.has_imm_spec() {
            assert(imm_vals(g.push(x)) =~= imm_vals(g) + seq![x.imm_val_spec()]);
        } else {
            assert(imm_vals(g.push(x)) =~= imm_vals(g));
        }
    }
}

// ---------------------------------------------------------------------------
// More lemmas: concatenation and prefixes
// ---------------------------------------------------------------------------

/// `used_groups` distributes over concatenation.
pub proof fn lemma_used_groups_concat(a: Seq<Seq<Operation>>, b: Seq<Seq<Operation>>)
    ensures
        used_groups(a + b) == used_groups(a) + used_groups(b),
    decreases a.len(),
{
    if a.len() == 0 {
        assert(a + b =~= b);
    } else {
        assert((a + b)[0] == a[0]);
        assert((a + b).skip(1) =~= a.skip(1) + b);
        lemma_used_groups_concat(a.skip(1), b);
    }
}

/// `span_groups_spec` over a batch list extended at the end.
pub proof fn lemma_span_groups_push(bs: Seq<Seq<Seq<Operation>>>, b: Seq<Seq<Operation>>)
    ensures
        span_groups_spec(bs.push(b)) == span_groups_spec(bs) + batch_groups_spec(b),
    decreases bs.len(),
{
    if bs.len() == 0 {
        assert(bs.push(b)[0] == b);
        assert(bs.push(b).skip(1) =~= Seq::<Seq<Seq<Operation>>>::empty());
        assert(span_groups_spec(bs.push(b)) == batch_groups_spec(b) + span_groups_spec(
            bs.push(b).skip(1),
        ));
        assert(span_groups_spec(bs.push(b)) =~= span_groups_spec(bs) + batch_groups_spec(b));
    } else {
        assert(bs.push(b)[0] == bs[0]);
        assert(bs.push(b).skip(1) =~= bs.skip(1).push(b));
        lemma_span_groups_push(bs.skip(1), b);
        assert(span_groups_spec(bs.push(b)) == batch_groups_spec(bs[0]) + span_groups_spec(
            bs.skip(1).push(b),
        ));
        assert(span_groups_spec(bs) == batch_groups_spec(bs[0]) + span_groups_spec(bs.skip(1)));
        assert(span_groups_spec(bs.push(b)) =~= span_groups_spec(bs) + batch_groups_spec(b));
    }
}

// ---------------------------------------------------------------------------
// Executable: op batches
// ---------------------------------------------------------------------------

/// The mathematical view of a list of op groups.
pub open spec fn groups_view(og: Seq<Vec<Operation>>) -> Seq<Seq<Operation>> {
    og.map_values(|g: Vec<Operation>| g@)
}

/// An op batch: eight group slots plus the op groups executed against it.
#[derive(Clone)]
pub struct OpBatch {
    /// The eight values of the batch's group slots.
    pub groups: Vec<Felt>,
    /// The operations of each executed op group, in execution order.
    pub op_groups: Vec<Vec<Operation>>,
    /// The number of used group slots, padded to a power of two.
    pub num_groups: usize,
}

impl OpBatch {
    /// The op groups of the batch, as sequences.
    pub open spec fn og_spec(self) -> Seq<Seq<Operation>> {
        groups_view(self.op_groups@)
    }

    /// The eight group-slot values of the batch.
    pub open spec fn group_vals(self) -> Seq<u64> {
        self.groups@.map_values(|f: Felt| f.val())
    }

    /// A finished batch: well-formed op groups whose slot layout and used
    /// count the other two fields reflect exactly.
    pub open spec fn wf(self) -> bool {
        &&& batch_wf(self.og_spec())
        &&& self.groups@.len() == OP_BATCH_SIZE
        &&& self.group_vals() == batch_groups_spec(self.og_spec())
        &&& self.num_groups == used_groups(self.og_spec())
    }

    /// The eight group-slot values.
    pub fn groups(&self) -> (r: &Vec<Felt>)
        ensures
            r@ == self.groups@,
    {
        &self.groups
    }

    /// The executed op groups.
    pub fn op_groups(&self) -> (r: &Vec<Vec<Operation>>)
        ensures
            r@ == self.op_groups@,
    {
        &self.op_groups
    }

    /// The number of used group slots (a power of two up to eight).
    pub fn num_groups(&self) -> (r: usize)
        ensures
            r == self.num_groups,
    {
        self.num_groups
    }
}

/// The smallest power of two (up to eight) at least `n`.
fn pow2_ceil_exec(n: usize) -> (r: usize)
    requires
        n <= 8,
    ensures
        r == pow2_ceil(n as int),
{
    if n <= 1 {
        1
    } else if n <= 2 {
        2
    } else if n <= 4 {
        4
    } else {
        8
    }
}

/// Builds the eight group-slot values for the op groups `og`.
fn build_batch_groups(og: &Vec<Vec<Operation>>) -> (r: Vec<Felt>)
    requires
        forall|j: int| 0 <= j < og@.len() ==> group_wf(#[trigger] groups_view(og@)[j]),
        used_groups(groups_view(og@)) <= OP_BATCH_SIZE,
    ensures
        r@.len() == OP_BATCH_SIZE,
        r@.map_values(|f: Felt| f.val()) == batch_groups_spec(groups_view(og@)),
{
    let ghost ogv = groups_view(og@);
    let mut r: Vec<Felt> = Vec::new();
    let mut z: usize = 0;
    while z < OP_BATCH_SIZE
        invariant
            z == r@.len() <= OP_BATCH_SIZE,
            forall|i: int| 0 <= i < z ==> (#[trigger] r@[i]).val() == 0,
        decreases OP_BATCH_SIZE - z,
    {
        r.push(Felt::zero());
        z = z + 1;
    }
    proof {
        assert(r@.map_values(|f: Felt| f.val()) =~= Seq::new(OP_BATCH_SIZE as nat, |i: int| 0u64));
    }
    proof {
        assert(ogv.take(0) =~= Seq::<Seq<Operation>>::empty());
        assert(ogv.skip(0) =~= ogv);
    }
    let mut j: usize = 0;
    let mut pos: usize = 0;
    while j < og.len()
        invariant
            j <= og@.len(),
            ogv == groups_view(og@),
            forall|jj: int| 0 <= jj < ogv.len() ==> group_wf(#[trigger] ogv[jj]),
            used_groups(ogv) <= OP_BATCH_SIZE,
            pos == used_groups(ogv.take(j as int)),
            pos + used_groups(ogv.skip(j as int)) == used_groups(ogv),
            r@.len() == OP_BATCH_SIZE,
            place_groups(r@.map_values(|f: Felt| f.val()), ogv.skip(j as int), pos as int)
                == batch_groups_spec(ogv),
        decreases og@.len() - j,
    {
        let ghost rest = ogv.skip(j as int);
        let ghost g = ogv[j as int];
        let ghost target = batch_groups_spec(ogv);
        let ghost vals0 = r@.map_values(|f: Felt| f.val());
        proof {
            assert(rest[0] == g);
            assert(rest.skip(1) =~= ogv.skip(j + 1));
            lemma_count_imms_bound(g);
            lemma_used_groups_nonneg(ogv.skip(j + 1));
            assert(used_groups(rest) == 1 + count_imms(g) + used_groups(ogv.skip(j + 1)));
        }
        // the group's packed opcodes take the next slot
        proof {
            assert(g == og@[j as int]@);
            assert(og@[j as int]@.skip(0) =~= og@[j as int]@);
        }
        let gv = build_group(&og[j], 0);
        proof {
            assert(gv < FIELD_MODULUS);
            assert(gv % FIELD_MODULUS == gv);
        }
        r.set(pos, Felt::new(gv));
        proof {
            assert(r@.map_values(|f: Felt| f.val()) =~= vals0.update(pos as int, gv));
            // unfold one step of place_groups
            assert(place_groups(vals0, rest, pos as int) == place_groups(
                write_at(vals0.update(pos as int, group_val(g) as u64), pos as int + 1,
                imm_vals(g)),
                ogv.skip(j + 1),
                pos as int + 1 + count_imms(g),
            ));
            assert(group_val(g) as u64 == gv);
        }
        pos = pos + 1;
        // then one slot per immediate value the group carries
        let ghost pos_after = pos as int + count_imms(g);
        let grp = &og[j];
        let mut i: usize = 0;
        proof {
            lemma_imm_vals_len(g);
            assert(g.take(0) =~= Seq::<Operation>::empty());
            assert(g.skip(0) =~= g);
        }
        while i < grp.len()
            invariant
                i <= grp@.len(),
                grp@ == g,
                r@.len() == OP_BATCH_SIZE,
                pos == pos_after - count_imms(g) + count_imms(g.take(i as int)),
                pos_after + used_groups(ogv.skip(j as int + 1)) + used_groups(
                    ogv.take(j as int),
                ) + 1 + count_imms(g) == used_groups(ogv) + pos_after,
                pos_after <= OP_BATCH_SIZE,
                place_groups(
                    write_at(
                        r@.map_values(|f: Felt| f.val()),
                        pos as int,
                        imm_vals(g.skip(i as int)),
                    ),
                    ogv.skip(j as int + 1),
                    pos_after,
                ) == target,
            decreases grp@.len() - i,
        {
            let ghost valsi = r@.map_values(|f: Felt| f.val());
            proof {
                assert(g.skip(i as int)[0] == g[i as int]);
                assert(g.skip(i as int).skip(1) =~= g.skip(i as int + 1));
                assert(g.take(i as int + 1) =~= g.take(i as int).push(g[i as int]));
                lemma_count_imms_push(g.take(i as int), g[i as int]);
                lemma_count_imms_concat(g.take(i as int), g.skip(i as int));
                assert(g.take(i as int) + g.skip(i as int) =~= g);
                lemma_count_imms_bound(g.skip(i as int + 1));
                lemma_imm_vals_len(g.skip(i as int + 1));
            }
            match grp[i].imm_value() {
                Some(v) => {
                    proof {
                        // the immediate occupies the slot at `pos`
                        assert(imm_vals(g.skip(i as int)) == seq![g[i as int].imm_val_spec()]
                            + imm_vals(g.skip(i as int + 1)));
                        assert(count_imms(g.skip(i as int)) == 1 + count_imms(
                            g.skip(i as int + 1),
                        ));
                        assert(pos < OP_BATCH_SIZE);
                    }
                    r.set(pos, v);
                    proof {
                        let iv = seq![g[i as int].imm_val_spec()] + imm_vals(g.skip(i as int + 1));
                        assert(iv[0] == g[i as int].imm_val_spec());
                        assert(iv.skip(1) =~= imm_vals(g.skip(i as int + 1)));
                        assert(write_at(valsi, pos as int, iv) == write_at(
                            valsi.update(pos as int, g[i as int].imm_val_spec()),
                            pos as int + 1,
                            imm_vals(g.skip(i as int + 1)),
                        ));
                        assert(r@.map_values(|f: Felt| f.val()) =~= valsi.update(
                            pos as int,
                            g[i as int].imm_val_spec(),
                        ));
                    }
                    pos = pos + 1;
                },
                None => {
                    proof {
                        assert(imm_vals(g.skip(i as int)) =~= imm_vals(g.skip(i as int + 1)));
                    }
                },
            }
            i = i + 1;
        }
        proof {
            assert(g.take(i as int) =~= g);
            assert(imm_vals(g.skip(i as int)) =~= Seq::<u64>::empty());
            assert(write_at(
                r@.map_values(|f: Felt| f.val()),
                pos as int,
                imm_vals(g.skip(i as int)),
            ) == r@.map_values(|f: Felt| f.val()));
            assert(ogv.take(j as int + 1) =~= ogv.take(j as int).push(g));
            lemma_used_groups_push(ogv.take(j as int), g);
        }
        j = j + 1;
    }
    proof {
        assert(ogv.skip(j as int) =~= Seq::<Seq<Operation>>::empty());
    }
    r
}

/// `count_imms` distributes over concatenation.
pub proof fn lemma_count_imms_concat(a: Seq<Operation>, b: Seq<Operation>)
    ensures
        count_imms(a + b) == count_imms(a) + count_imms(b),
    decreases a.len(),
{
    if a.len() == 0 {
        assert(a + b =~= b);
    } else {
        assert((a + b)[0] == a[0]);
        assert((a + b).skip(1) =~= a.skip(1) + b);
        lemma_count_imms_concat(a.skip(1), b);
    }
}

// ---------------------------------------------------------------------------
// Executable: the packer
// ---------------------------------------------------------------------------

/// The executable packing machine, mirroring `PackSt`.
struct Packer {
    batches: Vec<OpBatch>,
    og: Vec<Vec<Operation>>,
    cur: Vec<Operation>,
    used: usize,
}

impl Packer {
    /// The abstract packer state.
    spec fn pk_view(self) -> PackSt {
        PackSt {
            batches: self.batches@.map_values(|b: OpBatch| b.og_spec()),
            og: groups_view(self.og@),
            cur: self.cur@,
        }
    }

    /// The invariant between operations, allowing the group being filled to
    /// hold up to `max_cur` operations.
    spec fn inv_cur(self, max_cur: int) -> bool {
        &&& self.used == used_with_cur(groups_view(self.og@), self.cur@)
        &&& self.used <= OP_BATCH_SIZE
        &&& self.cur@.len() <= max_cur
        &&& forall|i: int|
            0 <= i < self.cur@.len() ==> !(#[trigger] self.cur@[i]).is_decorator_spec()
        &&& forall|j: int|
            0 <= j < self.og@.len() ==> group_wf(#[trigger] groups_view(self.og@)[j])
        &&& forall|k: int| 0 <= k < self.batches@.len() ==> (#[trigger] self.batches@[k]).wf()
    }

    /// The invariant between operations.
    spec fn inv(self) -> bool {
        self.inv_cur(GROUP_SIZE - 1)
    }

    fn new() -> (r: Packer)
        ensures
            r.inv(),
            r.pk_view() == pack_init(),
    {
        let r = Packer { batches: Vec::new(), og: Vec::new(), cur: Vec::new(), used: 0 };
        proof {
            assert(r.pk_view().batches =~= pack_init().batches);
            assert(r.pk_view().og =~= pack_init().og);
            assert(r.pk_view().cur =~= pack_init().cur);
        }
        r
    }

    /// Closes the group being filled.
    fn close_cur(&mut self)
        requires
            old(self).inv_cur(GROUP_SIZE as int),
            1 <= old(self).cur@.len(),
            !old(self).cur@[old(self).cur@.len() - 1].has_imm_spec(),
        ensures
            final(self).inv_cur(0),
            final(self).pk_view() == close_group(old(self).pk_view()),
            final(self).used == old(self).used,
            final(self).cur@.len() == 0,
    {
        let ghost ogv0 = groups_view(self.og@);
        let ghost c0 = self.cur@;
        let mut c: Vec<Operation> = Vec::new();
        core::mem::swap(&mut c, &mut self.cur);
        self.og.push(c);
        proof {
            assert(groups_view(self.og@) =~= ogv0.push(c0));
            lemma_used_groups_push(ogv0, c0);
            assert(group_wf(c0));
            assert(forall|j: int|
                0 <= j < self.og@.len() - 1 ==> groups_view(self.og@)[j] == ogv0[j]);
            assert(self.pk_view().batches =~= close_group(old(self).pk_view()).batches);
            assert(self.pk_view().cur =~= close_group(old(self).pk_view()).cur);
        }
    }

    /// Pads the open batch to a power of two of used slots and moves it to
    /// the finished batches.
    fn finalize_open_batch(&mut self)
        requires
            old(self).inv_cur(0),
            old(self).cur@.len() == 0,
            1 <= old(self).og@.len(),
        ensures
            final(self).inv_cur(0),
            final(self).pk_view() == finalize_batch(old(self).pk_view()),
            final(self).used == 0,
            final(self).cur@.len() == 0,
            final(self).og@.len() == 0,
    {
        let ghost ogv0 = groups_view(self.og@);
        let ghost u0 = used_groups(ogv0) as int;
        let target = pow2_ceil_exec(self.used);
        proof {
            assert(self.used == u0);
        }
        while self.used < target
            invariant
                u0 <= self.used <= target,
                target == pow2_ceil(u0),
                target <= OP_BATCH_SIZE,
                self.cur@.len() == 0,
                self.used == used_groups(groups_view(self.og@)),
                groups_view(self.og@) == ogv0 + Seq::new(
                    (self.used - u0) as nat,
                    |i: int| seq![Operation::Noop],
                ),
                forall|j: int|
                    0 <= j < self.og@.len() ==> group_wf(#[trigger] groups_view(self.og@)[j]),
                self.batches@ == old(self).batches@,
            decreases target - self.used,
        {
            let ghost ogv_pre = groups_view(self.og@);
            let mut ng: Vec<Operation> = Vec::new();
            ng.push(Operation::Noop);
            self.og.push(ng);
            proof {
                let noopg = seq![Operation::Noop];
                assert(ng@ =~= noopg);
                assert(groups_view(self.og@) =~= ogv_pre.push(noopg));
                assert(count_imms(noopg) == 0) by {
                    assert(noopg[0] == Operation::Noop);
                    assert(!Operation::Noop.has_imm_spec());
                    assert(noopg.skip(1) =~= Seq::<Operation>::empty());
                    assert(count_imms(noopg.skip(1)) == 0);
                }
                lemma_used_groups_push(ogv_pre, noopg);
                assert(group_wf(noopg));
                assert(forall|j: int|
                    0 <= j < self.og@.len() - 1 ==> groups_view(self.og@)[j] == ogv_pre[j]);
                assert(groups_view(self.og@) =~= ogv0 + Seq::new(
                    (self.used + 1 - u0) as nat,
                    |i: int| seq![Operation::Noop],
                ));
            }
            self.used = self.used + 1;
        }
        proof {
            assert(groups_view(self.og@) =~= pad_og(ogv0));
        }
        let groups = build_batch_groups(&self.og);
        let ng_count = self.used;
        let mut og_out: Vec<Vec<Operation>> = Vec::new();
        core::mem::swap(&mut og_out, &mut self.og);
        let ghost bview0 = self.batches@.map_values(|b: OpBatch| b.og_spec());
        let batch = OpBatch { groups, op_groups: og_out, num_groups: ng_count };
        proof {
            assert(batch.og_spec() == pad_og(ogv0));
            assert(batch.wf());
        }
        self.batches.push(batch);
        self.used = 0;
        proof {
            assert(self.batches@.map_values(|b: OpBatch| b.og_spec()) =~= bview0.push(
                pad_og(ogv0),
            ));
            assert(groups_view(self.og@) =~= Seq::<Seq<Operation>>::empty());
            assert(self.pk_view().batches =~= finalize_batch(old(self).pk_view()).batches);
            assert(self.pk_view().og =~= finalize_batch(old(self).pk_view()).og);
            assert(self.pk_view().cur =~= finalize_batch(old(self).pk_view()).cur);
            assert(forall|k: int|
                0 <= k < self.batches@.len() - 1 ==> self.batches@[k] == old(self).batches@[k]);
        }
    }

    /// Feeds one operation to the packer.
    fn add_op(&mut self, op: Operation)
        requires
            old(self).inv(),
        ensures
            final(self).inv(),
            final(self).pk_view() == pack_step(old(self).pk_view(), op),
    {
        let ghost st0 = self.pk_view();
        if op.is_decorator() {
            return ;
        }
        let has_imm = op.imm_value().is_some();
        // an immediate must not land in the last slot of its group
        if has_imm && self.cur.len() == GROUP_SIZE - 1 {
            let ghost c_pre = self.cur@;
            self.cur.push(Operation::Noop);
            proof {
                lemma_count_imms_push(c_pre, Operation::Noop);
            }
            self.close_cur();
        }
        let ghost st1 = self.pk_view();
        proof {
            if op.has_imm_spec() && st0.cur.len() == GROUP_SIZE - 1 {
                assert(st1 == close_group(PackSt { cur: st0.cur.push(Operation::Noop), ..st0 }));
            } else {
                assert(st1 == st0);
            }
        }
        let need: usize = (if self.cur.len() == 0 {
            1
        } else {
            0
        }) + (if has_imm {
            1
        } else {
            0
        });
        if self.used + need > OP_BATCH_SIZE {
            // the open batch cannot take the operation: close it
            if self.cur.len() > 0 {
                let last_imm = self.cur[self.cur.len() - 1].imm_value().is_some();
                if last_imm {
                    let ghost c_pre = self.cur@;
                    self.cur.push(Operation::Noop);
                    proof {
                        lemma_count_imms_push(c_pre, Operation::Noop);
                    }
                }
                self.close_cur();
            }
            proof {
                assert(self.pk_view() == close_group_safely(st1));
                assert(self.used > OP_BATCH_SIZE - need);
                assert(used_groups(groups_view(self.og@)) > 0);
                if self.og@.len() == 0 {
                    assert(groups_view(self.og@) =~= Seq::<Seq<Operation>>::empty());
                    assert(used_groups(groups_view(self.og@)) == 0);
                }
            }
            self.finalize_open_batch();
        }
        let ghost st2 = self.pk_view();
        proof {
            if used_with_cur(st1.og, st1.cur) + (if st1.cur.len() == 0 {
                1int
            } else {
                0int
            }) + (if op.has_imm_spec() {
                1int
            } else {
                0int
            }) > OP_BATCH_SIZE {
                assert(st2 == finalize_batch(close_group_safely(st1)));
            } else {
                assert(st2 == st1);
            }
        }
        // append the operation, and account for its slots
        let was_empty = self.cur.len() == 0;
        let ghost c_pre = self.cur@;
        self.cur.push(op);
        proof {
            lemma_count_imms_push(c_pre, op);
        }
        if was_empty {
            self.used = self.used + 1;
        }
        if has_imm {
            self.used = self.used + 1;
        }
        let ghost st3 = PackSt { cur: st2.cur.push(op), ..st2 };
        proof {
            assert(self.pk_view() == st3);
        }
        if self.cur.len() == GROUP_SIZE {
            proof {
                assert(!op.has_imm_spec());
            }
            self.close_cur();
            proof {
                assert(self.pk_view() == close_group(st3));
            }
        }
    }

    /// Flushes the final group and batch and returns the finished batches.
    fn finish(self) -> (r: Vec<OpBatch>)
        requires
            self.inv(),
        ensures
            r@.map_values(|b: OpBatch| b.og_spec()) == pack_finish(self.pk_view()),
            forall|k: int| 0 <= k < r@.len() ==> (#[trigger] r@[k]).wf(),
    {
        let ghost st0 = self.pk_view();
        let mut this = self;
        if this.cur.len() == 0 && this.og.len() == 0 {
            proof {
                assert(groups_view(this.og@) =~= Seq::<Seq<Operation>>::empty());
                assert(pack_finish(st0) == st0.batches);
            }
            return this.batches;
        }
        proof {
            if this.og@.len() == 0 {
                assert(groups_view(this.og@) =~= Seq::<Seq<Operation>>::empty());
            }
        }
        if this.cur.len() == 0 {
            // the packed operations end exactly at a group boundary: a lone
            // Noop group follows, in a fresh batch if this one is full
            if this.used + 1 > OP_BATCH_SIZE {
                this.finalize_open_batch();
            }
            this.cur.push(Operation::Noop);
            this.used = this.used + 1;
            proof {
                assert(count_imms(this.cur@) == 0) by {
                    assert(this.cur@[0] == Operation::Noop);
                    assert(!Operation::Noop.has_imm_spec());
                    assert(this.cur@.skip(1) =~= Seq::<Operation>::empty());
                    assert(count_imms(this.cur@.skip(1)) == 0);
                }
                assert(this.cur@ =~= seq![Operation::Noop]);
            }
        } else {
            let last_imm = this.cur[this.cur.len() - 1].imm_value().is_some();
            if last_imm {
                let ghost c_pre = this.cur@;
                this.cur.push(Operation::Noop);
                proof {
                    lemma_count_imms_push(c_pre, Operation::Noop);
                }
            }
        }
        let ghost st1 = this.pk_view();
        this.close_cur();
        this.finalize_open_batch();
        proof {
            assert(this.pk_view().batches == finalize_batch(close_group(st1)).batches);
            assert(pack_finish(st0) == finalize_batch(close_group(st1)).batches);
        }
        this.batches
    }
}

// ---------------------------------------------------------------------------
// Executable: spans
// ---------------------------------------------------------------------------

/// A straight-line block of user operations, packed into op batches, with
/// its structural digest.
#[derive(Clone)]
pub struct Span {
    op_batches: Vec<OpBatch>,
    hash: Word,
}

impl Span {
    /// The op groups of every batch of the span.
    pub closed spec fn batches_og(self) -> Seq<Seq<Seq<Operation>>> {
        self.op_batches@.map_values(|b: OpBatch| b.og_spec())
    }

    /// The batches of the span.
    pub closed spec fn batches_spec(self) -> Seq<OpBatch> {
        self.op_batches@
    }

    /// The structural digest of the span.
    pub closed spec fn hash_spec(self) -> Seq<u64> {
        self.hash.vals()
    }

    /// A well-formed span: finished batches whose digest matches.
    pub open spec fn wf(self) -> bool {
        &&& forall|k: int|
            0 <= k < self.batches_spec().len() ==> (#[trigger] self.batches_spec()[k]).wf()
        &&& self.batches_og() == self.batches_spec().map_values(|b: OpBatch| b.og_spec())
        &&& self.hash_spec() == span_hash_spec(self.batches_og())
    }

    /// Packs `ops` into op batches and computes the span's digest.
    pub fn new(ops: Vec<Operation>) -> (r: Span)
        ensures
            r.wf(),
            r.batches_og() == pack_spec(ops@),
    {
        let mut p = Packer::new();
        let mut i: usize = 0;
        while i < ops.len()
            invariant
                i <= ops@.len(),
                p.inv(),
                p.pk_view() == pack_fold(ops@, i as int),
            decreases ops@.len() - i,
        {
            p.add_op(ops[i]);
            i = i + 1;
        }
        let batches = p.finish();
        let ghost bog = batches@.map_values(|b: OpBatch| b.og_spec());
        // absorb all group values, batch after batch, into the digest
        let mut elems: Vec<Felt> = Vec::new();
        let mut k: usize = 0;
        proof {
            assert(bog.take(0) =~= Seq::<Seq<Seq<Operation>>>::empty());
            assert(elems@.map_values(|f: Felt| f.val()) =~= span_groups_spec(bog.take(0)));
        }
        while k < batches.len()
            invariant
                k <= batches@.len(),
                bog == batches@.map_values(|b: OpBatch| b.og_spec()),
                forall|kk: int| 0 <= kk < batches@.len() ==> (#[trigger] batches@[kk]).wf(),
                elems@.map_values(|f: Felt| f.val()) == span_groups_spec(bog.take(k as int)),
            decreases batches@.len() - k,
        {
            let ghost pre = elems@;
            let b = &batches[k];
            let mut g: usize = 0;
            while g < b.groups.len()
                invariant
                    g <= b.groups@.len(),
                    b == batches@[k as int],
                    elems@ == pre + b.groups@.take(g as int),
                decreases b.groups@.len() - g,
            {
                elems.push(b.groups[g]);
                proof {
                    assert(pre + b.groups@.take(g as int + 1) =~= (pre + b.groups@.take(
                        g as int,
                    )).push(b.groups@[g as int]));
                }
                g = g + 1;
            }
            proof {
                assert(b.groups@.take(g as int) =~= b.groups@);
                assert(bog.take(k as int + 1) =~= bog.take(k as int).push(bog[k as int]));
                lemma_span_groups_push(bog.take(k as int), bog[k as int]);
                assert(elems@.map_values(|f: Felt| f.val()) =~= pre.map_values(|f: Felt| f.val())
                    + batches@[k as int].group_vals());
                assert(batches@[k as int].group_vals() == batch_groups_spec(bog[k as int]));
            }
            k = k + 1;
        }
        proof {
            assert(bog.take(k as int) =~= bog);
        }
        let hash = hash_elements(&elems, DOMAIN_SPAN);
        let r = Span { op_batches: batches, hash };
        proof {
            assert(r.batches_og() == bog);
        }
        r
    }

    /// The op batches of the span.
    pub fn op_batches(&self) -> (r: &Vec<OpBatch>)
        ensures
            r@ == self.batches_spec(),
    {
        &self.op_batches
    }

    /// The structural digest of the span.
    pub fn hash(&self) -> (r: Word)
        ensures
            r.vals() == self.hash_spec(),
    {
        self.hash
    }
}

} // verus!
