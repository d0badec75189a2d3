//! Structural hashing of code blocks, and the hasher address oracle.
//!
//! The cryptographic hash chiplet is an external collaborator: the decoder
//! only needs a digest that is stable and re-derivable from the block
//! structure alone, and a row address for each hashing sub-computation. The
//! digest here is a deterministic sponge-style combiner over the field; the
//! address oracle hands out successive multiples of eight, matching the
//! eight hasher-trace rows each absorption consumes.

use vstd::prelude::*;
use crate::field::{fadd, fmul, Felt, Word, FIELD_MODULUS};

verus! {

/// Multiplier used to diffuse the running digest state between absorptions.
pub const MIX_MULT: u64 = 0x9e37_79b9_7f4a_7c15;

/// Domain tags keep the digests of the four block variants apart.
pub const DOMAIN_SPAN: u64 = 1;
pub const DOMAIN_JOIN: u64 = 2;
pub const DOMAIN_SPLIT: u64 = 3;
pub const DOMAIN_LOOP: u64 = 4;

/// One absorption step: rotate the four lanes and fold `x` into the last.
pub open spec fn mix(st: Seq<u64>, x: u64) -> Seq<u64> {
    seq![st[1], st[2], st[3], fadd(fmul(st[0], MIX_MULT), x)]
}

/// Absorb `elems[i..]` into the state, one element per step.
pub open spec fn absorb_seq(st: Seq<u64>, elems: Seq<u64>) -> Seq<u64>
    decreases elems.len(),
{
    if elems.len() == 0 {
        st
    } else {
        absorb_seq(mix(st, elems[0]), elems.skip(1))
    }
}

/// The structural digest of `elems` under the given domain tag.
pub open spec fn hash_elems_spec(elems: Seq<u64>, domain: u64) -> Seq<u64> {
    absorb_seq(seq![domain, 0, 0, 0], elems)
}

/// Computes the structural digest of `elems` under the given domain tag.
pub fn hash_elements(elems: &Vec<Felt>, domain: u64) -> (r: Word)
    requires
        domain < FIELD_MODULUS,
    ensures
        r.vals() == hash_elems_spec(elems@.map_values(|e: Felt| e.val()), domain),
{
    let mut st = Word {
        f0: Felt::new(domain),
        f1: Felt::zero(),
        f2: Felt::zero(),
        f3: Felt::zero(),
    };
    proof {
        assert(st.vals() =~= seq![domain, 0u64, 0u64, 0u64]);
    }
    let ghost all = elems@.map_values(|e: Felt| e.val());
    let mut i: usize = 0;
    proof {
        assert(all.skip(0) =~= all);
    }
    while i < elems.len()
        invariant
            i <= elems@.len(),
            all == elems@.map_values(|e: Felt| e.val()),
            absorb_seq(st.vals(), all.skip(i as int)) == absorb_seq(seq![domain, 0, 0, 0], all),
        decreases elems@.len() - i,
    {
        let ghost pre = st.vals();
        let x = elems[i];
        st = Word {
            f0: st.f1,
            f1: st.f2,
            f2: st.f3,
            f3: st.f0.mul(Felt::new(MIX_MULT)).add(x),
        };
        proof {
            assert(st.vals() =~= mix(pre, all[i as int]));
            assert(all.skip(i as int)[0] == all[i as int]);
            assert(all.skip(i as int).skip(1) =~= all.skip(i + 1));
        }
        i = i + 1;
    }
    proof {
        assert(all.skip(i as int) =~= Seq::<u64>::empty());
    }
    st
}

/// Computes the digest of two words under the given domain tag.
pub fn hash_merge(a: &Word, b: &Word, domain: u64) -> (r: Word)
    requires
        domain < FIELD_MODULUS,
    ensures
        r.vals() == hash_elems_spec(a.vals() + b.vals(), domain),
{
    let mut elems: Vec<Felt> = Vec::new();
    elems.push(a.f0);
    elems.push(a.f1);
    elems.push(a.f2);
    elems.push(a.f3);
    elems.push(b.f0);
    elems.push(b.f1);
    elems.push(b.f2);
    elems.push(b.f3);
    proof {
        assert(elems@.map_values(|e: Felt| e.val()) =~= a.vals() + b.vals());
    }
    hash_elements(&elems, domain)
}

/// Absorbing keeps the state four cells wide.
pub proof fn lemma_absorb_len(st: Seq<u64>, elems: Seq<u64>)
    requires
        st.len() == 4,
    ensures
        absorb_seq(st, elems).len() == 4,
    decreases elems.len(),
{
    if elems.len() > 0 {
        assert(mix(st, elems[0]).len() == 4);
        lemma_absorb_len(mix(st, elems[0]), elems.skip(1));
    }
}

/// Every structural digest is four cells wide.
pub proof fn lemma_hash_elems_len(elems: Seq<u64>, domain: u64)
    ensures
        hash_elems_spec(elems, domain).len() == 4,
{
    lemma_absorb_len(seq![domain, 0, 0, 0], elems);
}

/// The hasher address oracle.
///
/// Each hashing sub-computation occupies eight rows of the external hasher
/// trace; the oracle returns the first row of the next free slot, so
/// addresses handed out are successive multiples of eight (in the field).
pub struct Hasher {
    ctr: Felt,
}

impl Hasher {
    /// The address the next call will return.
    pub closed spec fn next_addr(self) -> u64 {
        self.ctr.val()
    }

    pub fn new() -> (r: Hasher)
        ensures
            r.next_addr() == 0,
    {
        Hasher { ctr: Felt::zero() }
    }

    /// Reserves one absorption (eight hasher rows) and returns its address.
    pub fn block_addr(&mut self) -> (r: Felt)
        ensures
            r.val() == old(self).next_addr(),
            final(self).next_addr() == fadd(old(self).next_addr(), 8),
    {
        let addr = self.ctr;
        self.ctr = self.ctr.add(Felt::new(8));
        addr
    }

    /// Reserves one absorption per op batch of a span and returns the
    /// address of the first.
    pub fn span_addr(&mut self, num_batches: usize) -> (r: Felt)
        ensures
            r.val() == old(self).next_addr(),
            final(self).next_addr() == fadd(
                old(self).next_addr(),
                fmul(8, (num_batches as u64) % FIELD_MODULUS),
            ),
    {
        let addr = self.ctr;
        let step = Felt::new(8).mul(Felt::new(num_batches as u64));
        self.ctr = self.ctr.add(step);
        addr
    }
}

} // verus!
