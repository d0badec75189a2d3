//! The invariants the decoder trace promises, proved once and for all:
//! opcode well-formedness and halt padding of the finalized columns, the
//! in-span discipline, address continuity, group-count monotonicity and the
//! op-index schedule over the rows a span emits, and that a walk over
//! binary conditions and executable blocks never fails.

use vstd::prelude::*;
use crate::field::fadd;
use crate::ops::{
    count_imms, lemma_count_imms_bound, opcode_defined, Operation, OPCODE_HALT, OPCODE_RESPAN,
    OP_BATCH_SIZE,
};
use crate::blocks::CodeBlock;
use crate::process::{
    batch_rows, batches_rows, blocks_executable, capped, cond_rest, cond_top, group_base,
    group_rows, lemma_remaining_deltas_nonneg, lemma_remaining_deltas_total, remaining_deltas,
    run, run_loop_rest, span_ops_user, span_seg_rows, MAX_SPAN_BATCHES,
};
use crate::rows::{bit_of, is_user_code, row_wf, rows_wf, TraceRow};
use crate::span::{
    batch_wf, group_wf, lemma_count_imms_push, used_groups,
};
use crate::trace::{cell_spec, pad_cell};

verus! {

// ---------------------------------------------------------------------------
// Opcode well-formedness and halt padding of the finalized columns
// ---------------------------------------------------------------------------

/// The value the seven op-bit cells of row `i` of a finalized trace decode
/// to.
pub open spec fn decoded_opcode(rows: Seq<TraceRow>, i: int) -> u64 {
    (cell_spec(rows, 1, i) + 2 * cell_spec(rows, 2, i) + 4 * cell_spec(rows, 3, i) + 8 * cell_spec(
        rows,
        4,
        i,
    ) + 16 * cell_spec(rows, 5, i) + 32 * cell_spec(rows, 6, i) + 64 * cell_spec(rows, 7, i)) as u64
}

/// Opcode well-formedness: in every row of a finalized trace built from
/// well-formed rows, each op-bit cell is zero or one, and the seven bits
/// decode to a defined operation.
pub proof fn lemma_opcode_wellformed(rows: Seq<TraceRow>, i: int)
    requires
        rows_wf(rows),
        0 <= i,
    ensures
        forall|c: int| 1 <= c < 8 ==> #[trigger] cell_spec(rows, c, i) <= 1,
        opcode_defined(decoded_opcode(rows, i)),
        i < rows.len() ==> decoded_opcode(rows, i) == rows[i].op,
        i >= rows.len() ==> decoded_opcode(rows, i) == OPCODE_HALT,
{
    let code: u64 = if i < rows.len() {
        rows[i].op
    } else {
        OPCODE_HALT
    };
    assert(code < 128);
    crate::rows::lemma_bits_decode(code);
    assert forall|c: int| 1 <= c < 8 implies #[trigger] cell_spec(rows, c, i) <= 1 by {
        assert(cell_spec(rows, c, i) == bit_of(code, c - 1));
    }
    assert(decoded_opcode(rows, i) == code);
}

/// Halt padding: past the last real row, the op-bit columns decode to
/// `Halt` and every other column holds zero.
pub proof fn lemma_halt_padding(rows: Seq<TraceRow>, i: int)
    requires
        rows.len() <= i,
    ensures
        decoded_opcode(rows, i) == OPCODE_HALT,
        forall|c: int|
            (c == 0 || 8 <= c < 19) ==> #[trigger] cell_spec(rows, c, i) == 0,
{
    crate::rows::lemma_bits_decode(OPCODE_HALT);
    assert forall|c: int| (c == 0 || 8 <= c < 19) implies #[trigger] cell_spec(rows, c, i)
        == 0 by {
        assert(cell_spec(rows, c, i) == pad_cell(c));
    }
}

/// In-span discipline: a row's in-span flag is one exactly when the row
/// carries a user operation or a `Respan`, and zero on every other control
/// row.
pub proof fn lemma_in_span_discipline(rows: Seq<TraceRow>, i: int)
    requires
        rows_wf(rows),
        0 <= i < rows.len(),
    ensures
        rows[i].in_span == 1 <==> (is_user_code(rows[i].op) || rows[i].op == OPCODE_RESPAN),
        rows[i].in_span <= 1,
{
    assert(row_wf(rows[i]));
}

// ---------------------------------------------------------------------------
// Row-to-row invariants of a span's trace segment
// ---------------------------------------------------------------------------

/// What any two consecutive rows of a span's segment satisfy: the address
/// is copied onto a `Respan` row and advances by exactly eight right after
/// one, and stays constant between user rows of one batch; the group count
/// never increases; the op index either advances by one or resets to zero.
pub open spec fn span_pair_ok(r1: TraceRow, r2: TraceRow) -> bool {
    &&& (r2.op == OPCODE_RESPAN ==> r2.addr == r1.addr && r2.group_count == r1.group_count)
    &&& (r1.op == OPCODE_RESPAN ==> r2.addr == fadd(r1.addr, 8))
    &&& (r1.in_span == 1 && r1.op != OPCODE_RESPAN && r2.in_span == 1 && r2.op != OPCODE_RESPAN
        ==> r2.addr == r1.addr)
    &&& r2.group_count <= r1.group_count
    &&& (r2.op_idx == r1.op_idx + 1 || r2.op_idx == 0)
}

/// Every consecutive pair of the segment satisfies `span_pair_ok`.
pub open spec fn pairs_ok(s: Seq<TraceRow>) -> bool {
    forall|i: int| 0 <= i < s.len() - 1 ==> span_pair_ok(#[trigger] s[i], s[i + 1])
}

/// Pairwise facts survive concatenation when the junction pair holds too.
pub proof fn lemma_pairs_concat(a: Seq<TraceRow>, b: Seq<TraceRow>)
    requires
        pairs_ok(a),
        pairs_ok(b),
        a.len() > 0 && b.len() > 0 ==> span_pair_ok(a.last(), b[0]),
    ensures
        pairs_ok(a + b),
{
    let s = a + b;
    assert forall|i: int| 0 <= i < s.len() - 1 implies span_pair_ok(#[trigger] s[i], s[i + 1]) by {
        if i < a.len() - 1 {
            assert(s[i] == a[i]);
            assert(s[i + 1] == a[i + 1]);
            assert(span_pair_ok(a[i], a[i + 1]));
        } else if i == a.len() - 1 {
            assert(s[i] == a.last());
            assert(s[i + 1] == b[0]);
        } else {
            assert(s[i] == b[i - a.len()]);
            assert(s[i + 1] == b[i - a.len() + 1]);
            assert(span_pair_ok(b[i - a.len()], b[i - a.len() + 1]));
        }
    }
}

/// The rows of one op group: constant address inside the span, in-span flag
/// set, op indices counting up from zero, group count falling exactly with
/// the scheduled decrements and never below the group's exit value.
pub proof fn lemma_group_rows_ok(g: Seq<Operation>, gc_entry: int, base: int, a: u64, p: u64)
    requires
        group_wf(g),
        forall|i: int| 0 <= i < g.len() ==> (#[trigger] g[i]).is_user_op_spec(),
        1 <= base,
        gc_entry <= 0xffff_ffff,
        gc_entry - base - count_imms(g) >= 0,
    ensures
        ({
            let s = group_rows(g, gc_entry, base, a, p);
            &&& s.len() == g.len()
            &&& pairs_ok(s)
            &&& forall|i: int|
                0 <= i < s.len() ==> (#[trigger] s[i]).in_span == 1 && s[i].addr == a && s[i].op
                    != OPCODE_RESPAN && is_user_code(s[i].op) && s[i].op_idx <= 8
                    && s[i].group_count <= gc_entry - base
            &&& s[0].group_count == gc_entry - base
            &&& s[0].op_idx == 0
            &&& s.last().group_count == gc_entry - base - count_imms(g)
        }),
{
    let s = group_rows(g, gc_entry, base, a, p);
    assert forall|i: int| 0 <= i < g.len() implies 0 <= count_imms(g.take(i)) <= count_imms(
        g.take(i),
    ) + 0 && count_imms(#[trigger] g.take(i)) <= count_imms(g) && count_imms(g.take(i)) >= 0 by {
        crate::span::lemma_count_imms_concat(g.take(i), g.skip(i));
        assert(g.take(i) + g.skip(i) =~= g);
        lemma_count_imms_bound(g.take(i));
        lemma_count_imms_bound(g.skip(i));
    }
    assert(g.take(0) =~= Seq::<Operation>::empty());
    assert(g.take(g.len() - 1).push(g[g.len() - 1]) =~= g);
    lemma_count_imms_push(g.take(g.len() - 1), g[g.len() - 1]);
    assert(count_imms(g.take(g.len() as int - 1)) == count_imms(g));
    assert forall|i: int| 0 <= i < s.len() - 1 implies span_pair_ok(#[trigger] s[i], s[i + 1]) by {
        assert(g.take(i + 1) =~= g.take(i).push(g[i]));
        lemma_count_imms_push(g.take(i), g[i]);
        assert(count_imms(g.take(i + 1)) >= count_imms(g.take(i)));
    }
    assert forall|i: int|
        0 <= i < s.len() implies (#[trigger] s[i]).in_span == 1 && s[i].addr == a && s[i].op
        != OPCODE_RESPAN && is_user_code(s[i].op) && s[i].op_idx <= 8 && s[i].group_count
        <= gc_entry - base by {
        assert(g[i].is_user_op_spec());
        assert(s[i].op == g[i].op_code_spec());
    }
}

/// The user rows of a batch from group `j` on: pairwise well-behaved, at a
/// constant address, entering at `gc_entry` minus the first group's base
/// and leaving at `gc_entry` minus all remaining decrements.
pub proof fn lemma_batch_rows_ok(
    og: Seq<Seq<Operation>>,
    j: int,
    gc_entry: int,
    ng: int,
    a: u64,
    p: u64,
)
    requires
        0 <= j <= og.len(),
        forall|jj: int| 0 <= jj < og.len() ==> group_wf(#[trigger] og[jj]),
        forall|jj: int, i: int|
            0 <= jj < og.len() && 0 <= i < og[jj].len() ==> (#[trigger] og[jj][
            i]).is_user_op_spec(),
        1 <= ng <= OP_BATCH_SIZE,
        gc_entry <= 0xffff_ffff,
        gc_entry - remaining_deltas(og, j, ng) >= 0,
    ensures
        ({
            let s = batch_rows(og, j, gc_entry, ng, a, p);
            &&& (j < og.len() ==> s.len() >= 1)
            &&& pairs_ok(s)
            &&& forall|i: int|
                0 <= i < s.len() ==> (#[trigger] s[i]).in_span == 1 && s[i].addr == a && s[i].op
                    != OPCODE_RESPAN && is_user_code(s[i].op) && s[i].op_idx <= 8
                    && s[i].group_count <= gc_entry - group_base(j, ng)
            &&& (j < og.len() ==> s[0].group_count == gc_entry - group_base(j, ng) && s[0].op_idx
                == 0)
            &&& (j < og.len() ==> s.last().group_count == gc_entry - remaining_deltas(og, j, ng))
        }),
    decreases og.len() - j,
{
    if j >= og.len() {
        return ;
    }
    let s = batch_rows(og, j, gc_entry, ng, a, p);
    let g = og[j];
    let base = group_base(j, ng);
    let gs = group_rows(g, gc_entry, base, a, p);
    let gc_next = gc_entry - base - count_imms(g);
    let rest = batch_rows(og, j + 1, gc_next, ng, a, p);
    lemma_remaining_deltas_nonneg(og, j + 1, ng);
    lemma_count_imms_bound(g);
    assert(remaining_deltas(og, j, ng) == base + count_imms(g) + remaining_deltas(og, j + 1, ng));
    lemma_group_rows_ok(g, gc_entry, base, a, p);
    lemma_batch_rows_ok(og, j + 1, gc_next, ng, a, p);
    assert(s == gs + rest);
    if j + 1 < og.len() {
        assert(rest[0].group_count == gc_next - group_base(j + 1, ng));
        assert(rest[0].op_idx == 0);
        assert(span_pair_ok(gs.last(), rest[0]));
        assert(s.last() == rest.last());
    } else {
        assert(rest.len() == 0);
        assert(s =~= gs);
    }
    lemma_pairs_concat(gs, rest);
    assert forall|i: int|
        0 <= i < s.len() implies (#[trigger] s[i]).in_span == 1 && s[i].addr == a && s[i].op
        != OPCODE_RESPAN && is_user_code(s[i].op) && s[i].op_idx <= 8 && s[i].group_count
        <= gc_entry - base by {
        if i < gs.len() {
            assert(s[i] == gs[i]);
        } else {
            assert(s[i] == rest[i - gs.len()]);
            assert(rest[i - gs.len()].group_count <= gc_next - group_base(j + 1, ng));
        }
    }
}

/// The rows of batches `k..` of a span: pairwise well-behaved; opening with
/// a user row at `cur` (first batch) or a `Respan` row at `cur` whose next
/// rows run eight higher; closing on a user row with group count eight
/// times the batches still to come after the last.
pub proof fn lemma_batches_rows_ok(
    bog: Seq<Seq<Seq<Operation>>>,
    k: int,
    cur: u64,
    p: u64,
    num_batches: int,
)
    requires
        0 <= k <= bog.len(),
        num_batches == bog.len(),
        bog.len() <= MAX_SPAN_BATCHES,
        forall|kk: int| 0 <= kk < bog.len() ==> batch_wf(#[trigger] bog[kk]),
        span_ops_user(bog),
    ensures
        ({
            let s = batches_rows(bog, k, cur, p, num_batches);
            &&& (k < bog.len() ==> s.len() >= 1)
            &&& pairs_ok(s)
            &&& (k < bog.len() && k == 0 ==> s[0].in_span == 1 && s[0].op != OPCODE_RESPAN && s[
                0].addr == cur && s[0].group_count <= 8 * (num_batches - k))
            &&& (k < bog.len() && k > 0 ==> s[0].op == OPCODE_RESPAN && s[0].addr == cur && s[
                0].group_count == 8 * (num_batches - k))
            &&& (k < bog.len() ==> s.last().in_span == 1 && s.last().op != OPCODE_RESPAN
                && s.last().group_count == 0)
        }),
    decreases bog.len() - k,
{
    if k >= bog.len() {
        return ;
    }
    let s = batches_rows(bog, k, cur, p, num_batches);
    let og = bog[k];
    let ng = used_groups(og);
    let gc_entry = 8 * (num_batches - k);
    let a = if k == 0 {
        cur
    } else {
        fadd(cur, 8)
    };
    lemma_remaining_deltas_total(og, ng);
    assert(gc_entry - remaining_deltas(og, 0, ng) == 8 * (num_batches - k - 1) >= 0);
    assert forall|jj: int, i: int|
        0 <= jj < og.len() && 0 <= i < og[jj].len() implies (#[trigger] og[jj][
    i]).is_user_op_spec() by {
        assert(bog[k][jj][i] == og[jj][i]);
    }
    assert(gc_entry <= 8 * MAX_SPAN_BATCHES <= 0xffff_ffff);
    lemma_batch_rows_ok(og, 0, gc_entry, ng, a, p);
    let bs = batch_rows(og, 0, gc_entry, ng, a, p);
    let rest = batches_rows(bog, k + 1, a, p, num_batches);
    lemma_batches_rows_ok(bog, k + 1, a, p, num_batches);
    assert(bs.last().group_count == gc_entry - remaining_deltas(og, 0, ng));
    if k + 1 < bog.len() {
        assert(span_pair_ok(bs.last(), rest[0]));
    }
    lemma_pairs_concat(bs, rest);
    if k == 0 {
        assert(s == bs + rest);
        if rest.len() > 0 {
            assert(s.last() == rest.last());
        } else {
            assert(s =~= bs);
        }
    } else {
        let rr = crate::rows::respan_row(
            cur,
            crate::span::batch_groups_spec(og),
            gc_entry as u64,
        );
        assert(s == seq![rr] + bs + rest);
        assert((seq![rr] + bs)[0] == rr);
        assert(span_pair_ok(rr, bs[0])) by {
            assert((rr.op == OPCODE_RESPAN));
            assert(bs[0].addr == fadd(cur, 8));
            assert(bs[0].group_count <= gc_entry - group_base(0, ng));
        }
        assert forall|i: int| 0 <= i < (seq![rr] + bs).len() - 1 implies span_pair_ok(
            #[trigger] (seq![rr] + bs)[i],
            (seq![rr] + bs)[i + 1],
        ) by {
            if i == 0 {
                assert((seq![rr] + bs)[0] == rr);
                assert((seq![rr] + bs)[1] == bs[0]);
            } else {
                assert((seq![rr] + bs)[i] == bs[i - 1]);
                assert((seq![rr] + bs)[i + 1] == bs[i]);
                assert(span_pair_ok(bs[i - 1], bs[i]));
            }
        }
        lemma_pairs_concat(seq![rr] + bs, rest);
        assert(s =~= (seq![rr] + bs) + rest);
        if rest.len() > 0 {
            assert(s.last() == rest.last());
        } else {
            assert(s.last() == bs.last());
        }
    }
}

/// Address continuity, group-count monotonicity and the op-index schedule
/// over the rows a span emits, from its `Span` row to its last user row:
/// the address is constant within a batch and advances by exactly eight
/// across a `Respan`; the group count never increases and is exactly zero
/// on the row preceding the span's `End` row; the op index stays within
/// zero and eight and resets to zero at every group boundary.
pub proof fn lemma_span_trace_properties(bog: Seq<Seq<Seq<Operation>>>, span_addr: u64, parent: u64)
    requires
        1 <= bog.len() <= MAX_SPAN_BATCHES,
        forall|kk: int| 0 <= kk < bog.len() ==> batch_wf(#[trigger] bog[kk]),
        span_ops_user(bog),
    ensures
        ({
            let seg = span_seg_rows(bog, span_addr, parent);
            &&& pairs_ok(seg)
            &&& seg.last().group_count == 0
            &&& seg.len() >= 2
        }),
{
    let seg = span_seg_rows(bog, span_addr, parent);
    let sr = crate::rows::span_row(
        parent,
        crate::span::batch_groups_spec(bog[0]),
        (8 * bog.len()) as u64,
    );
    let body = batches_rows(bog, 0, span_addr, parent, bog.len() as int);
    lemma_batches_rows_ok(bog, 0, span_addr, parent, bog.len() as int);
    assert(seg == seq![sr] + body);
    assert(span_pair_ok(sr, body[0])) by {
        assert(sr.group_count == 8 * bog.len());
        assert(body[0].group_count <= 8 * bog.len());
        assert(sr.op_idx == 0);
    }
    assert forall|i: int| 0 <= i < seg.len() - 1 implies span_pair_ok(
        #[trigger] seg[i],
        seg[i + 1],
    ) by {
        if i == 0 {
            assert(seg[0] == sr);
            assert(seg[1] == body[0]);
        } else {
            assert(seg[i] == body[i - 1]);
            assert(seg[i + 1] == body[i]);
            assert(span_pair_ok(body[i - 1], body[i]));
        }
    }
    assert(seg.last() == body.last());
}


// ---------------------------------------------------------------------------
// When success is owed
// ---------------------------------------------------------------------------

/// Every value on the condition stack is zero or one.
pub open spec fn all_binary(conds: Seq<u64>) -> bool {
    forall|i: int| 0 <= i < conds.len() ==> #[trigger] conds[i] <= 1
}

/// A walk never adds conditions: what it leaves is a prefix of what it was
/// given. In particular the cap inside `run` never bites.
pub proof fn lemma_run_conds_prefix(
    b: CodeBlock,
    conds: Seq<u64>,
    pos: u64,
    parent: u64,
    is_loop_body: bool,
)
    ensures
        ({
            let o = run(b, conds, pos, parent, is_loop_body);
            o.conds.len() <= conds.len() && o.conds == conds.take(o.conds.len() as int)
        }),
    decreases conds.len(), b.height(), 1int,
{
    let o = run(b, conds, pos, parent, is_loop_body);
    match b {
        CodeBlock::Span(_) => {
            assert(conds.take(conds.len() as int) =~= conds);
        },
        CodeBlock::Join(j) => {
            lemma_run_conds_prefix(j.first, conds, fadd(pos, 8), pos, false);
            let o1 = run(j.first, conds, fadd(pos, 8), pos, false);
            assert(capped(o1.conds, conds) == o1.conds);
            if o1.error is None {
                lemma_run_conds_prefix(j.second, o1.conds, o1.pos, pos, false);
                let o2 = run(j.second, o1.conds, o1.pos, pos, false);
                assert(o2.conds =~= conds.take(o2.conds.len() as int));
            }
        },
        CodeBlock::Split(s) => {
            let rest = cond_rest(conds);
            assert(rest =~= conds.take(rest.len() as int));
            let c = cond_top(conds);
            if c < 2 {
                let taken = if c == 1 {
                    s.on_true
                } else {
                    s.on_false
                };
                lemma_run_conds_prefix(taken, rest, fadd(pos, 8), pos, false);
                let ob = run(taken, rest, fadd(pos, 8), pos, false);
                assert(ob.conds =~= conds.take(ob.conds.len() as int));
            }
        },
        CodeBlock::Loop(l) => {
            let rest = cond_rest(conds);
            assert(rest =~= conds.take(rest.len() as int));
            let c = cond_top(conds);
            if c == 1 {
                lemma_run_conds_prefix(l.body, rest, fadd(pos, 8), pos, true);
                let ob = run(l.body, rest, fadd(pos, 8), pos, true);
                assert(capped(ob.conds, rest) == ob.conds);
                assert(ob.conds =~= conds.take(ob.conds.len() as int));
                if ob.error is None {
                    lemma_loop_rest_conds_prefix(*l, ob.conds, ob.pos, pos);
                    let or = run_loop_rest(*l, ob.conds, ob.pos, pos);
                    assert(or.conds =~= conds.take(or.conds.len() as int));
                }
            }
        },
    }
}

/// The re-check walk of an open loop also leaves a prefix of its conditions.
pub proof fn lemma_loop_rest_conds_prefix(
    l: crate::blocks::Loop,
    conds: Seq<u64>,
    pos: u64,
    loop_addr: u64,
)
    ensures
        ({
            let o = run_loop_rest(l, conds, pos, loop_addr);
            o.conds.len() <= conds.len() && o.conds == conds.take(o.conds.len() as int)
        }),
    decreases conds.len(), l.body.height(), 0int,
{
    let rest = cond_rest(conds);
    assert(rest =~= conds.take(rest.len() as int));
    let c = cond_top(conds);
    if c == 1 {
        lemma_run_conds_prefix(l.body, rest, pos, loop_addr, true);
        let ob = run(l.body, rest, pos, loop_addr, true);
        assert(capped(ob.conds, rest) == ob.conds);
        assert(ob.conds =~= conds.take(ob.conds.len() as int));
        if ob.error is None {
            lemma_loop_rest_conds_prefix(l, ob.conds, ob.pos, loop_addr);
            let or = run_loop_rest(l, ob.conds, ob.pos, loop_addr);
            assert(or.conds =~= conds.take(or.conds.len() as int));
        }
    }
}

/// Success is owed: over a condition stack of zeros and ones, the walk of
/// an executable block tree never fails — and so, by the driver's contract,
/// neither does the driver.
pub proof fn lemma_run_ok(b: CodeBlock, conds: Seq<u64>, pos: u64, parent: u64, is_loop_body: bool)
    requires
        all_binary(conds),
        blocks_executable(b),
    ensures
        run(b, conds, pos, parent, is_loop_body).error is None,
    decreases conds.len(), b.height(), 1int,
{
    match b {
        CodeBlock::Span(_) => {
        },
        CodeBlock::Join(j) => {
            lemma_run_ok(j.first, conds, fadd(pos, 8), pos, false);
            lemma_run_conds_prefix(j.first, conds, fadd(pos, 8), pos, false);
            let o1 = run(j.first, conds, fadd(pos, 8), pos, false);
            assert(capped(o1.conds, conds) == o1.conds);
            assert(all_binary(o1.conds)) by {
                assert(forall|i: int|
                    0 <= i < o1.conds.len() ==> #[trigger] o1.conds[i] == conds[i]);
            }
            lemma_run_ok(j.second, o1.conds, o1.pos, pos, false);
        },
        CodeBlock::Split(s) => {
            let c = cond_top(conds);
            let rest = cond_rest(conds);
            assert(c <= 1);
            assert(all_binary(rest)) by {
                assert(forall|i: int| 0 <= i < rest.len() ==> #[trigger] rest[i] == conds[i]);
            }
            if c == 1 {
                lemma_run_ok(s.on_true, rest, fadd(pos, 8), pos, false);
            } else {
                lemma_run_ok(s.on_false, rest, fadd(pos, 8), pos, false);
            }
        },
        CodeBlock::Loop(l) => {
            let c = cond_top(conds);
            let rest = cond_rest(conds);
            assert(c <= 1);
            assert(all_binary(rest)) by {
                assert(forall|i: int| 0 <= i < rest.len() ==> #[trigger] rest[i] == conds[i]);
            }
            if c == 1 {
                lemma_run_ok(l.body, rest, fadd(pos, 8), pos, true);
                lemma_run_conds_prefix(l.body, rest, fadd(pos, 8), pos, true);
                let ob = run(l.body, rest, fadd(pos, 8), pos, true);
                assert(capped(ob.conds, rest) == ob.conds);
                assert(all_binary(ob.conds)) by {
                    assert(forall|i: int|
                        0 <= i < ob.conds.len() ==> #[trigger] ob.conds[i] == rest[i]);
                }
                lemma_loop_rest_ok(*l, ob.conds, ob.pos, pos);
            }
        },
    }
}

/// Success is owed of the loop re-check walk too, over binary conditions.
pub proof fn lemma_loop_rest_ok(l: crate::blocks::Loop, conds: Seq<u64>, pos: u64, loop_addr: u64)
    requires
        all_binary(conds),
        blocks_executable(l.body),
    ensures
        run_loop_rest(l, conds, pos, loop_addr).error is None,
    decreases conds.len(), l.body.height(), 0int,
{
    let c = cond_top(conds);
    let rest = cond_rest(conds);
    assert(c <= 1);
    assert(all_binary(rest)) by {
        assert(forall|i: int| 0 <= i < rest.len() ==> #[trigger] rest[i] == conds[i]);
    }
    if c == 1 {
        lemma_run_ok(l.body, rest, pos, loop_addr, true);
        lemma_run_conds_prefix(l.body, rest, pos, loop_addr, true);
        let ob = run(l.body, rest, pos, loop_addr, true);
        assert(capped(ob.conds, rest) == ob.conds);
        assert(all_binary(ob.conds)) by {
            assert(forall|i: int| 0 <= i < ob.conds.len() ==> #[trigger] ob.conds[i] == rest[i]);
        }
        lemma_loop_rest_ok(l, ob.conds, ob.pos, loop_addr);
    }
}

} // verus!
