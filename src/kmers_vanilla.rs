//! Scalar sketch generation over one byte slice.
use std::collections::HashSet;
use vstd::prelude::*;

use crate::kmers_utils::{byte_to_seq, SketchError};
use crate::model::{
    canonical, fwd_code, hashes_in, kmer_hash, lemma_fwd_bits, lemma_hashes_extend, lemma_pow4_pos,
    lemma_rev_bits, lemma_roll_step, lemma_rolled_facts, lemma_shl_pow4, mix, pow4, rev_code, rolled,
    sketch, threshold, valid_k, MAX_KMER_SIZE, MIN_KMER_SIZE,
};

verus! {

broadcast use vstd::std_specs::hash::group_hash_axioms;

/// The avalanche hash mix of a packed k-mer code.
pub fn mm_hash64(kmer: u64) -> (r: u64)
    ensures
        r == mix(kmer),
{
    let mut key = kmer;
    key = !key.wrapping_add(key << 21);
    key = key ^ key >> 24;
    key = key.wrapping_add(key << 3).wrapping_add(key << 8);
    key = key ^ key >> 14;
    key = key.wrapping_add(key << 2).wrapping_add(key << 4);
    key = key ^ key >> 28;
    key = key.wrapping_add(key << 31);
    key
}

/// Adds the sketch of a slice of any length to `hashes` (a slice shorter
/// than `k` has no k-mer and adds nothing).
pub(crate) fn add_slice_kmers(
    k: usize,
    ds_factor: u64,
    nt_string: &[u8],
    hashes: &mut HashSet<u64>,
)
    requires
        valid_k(k),
        ds_factor >= 1,
    ensures
        final(hashes)@ == old(hashes)@.union(sketch(nt_string@, k as nat, ds_factor)),
{
    let ghost start = hashes@;
    let nbits: u64 = 2 * (k as u64);
    let shift: u64 = nbits - 2;
    proof {
        lemma_shl_pow4(k as u64);
        lemma_shl_pow4((k - 1) as u64);
        lemma_pow4_pos(k as nat);
        assert(shift == (2 * ((k - 1) as u64)) as u64);
    }
    let mask: u64 = (1u64 << nbits) - 1;
    let thr: u64 = u64::MAX / ds_factor;
    let mut kmer_forward: u64 = 0;
    let mut kmer_reverse: u64 = 0;
    let mut n: usize = 0;
    proof {
        assert(fwd_code(nt_string@, 0, 0) == 0);
        assert(rev_code(nt_string@, 0, 0) == 0);
        assert(0 * pow4(k as nat) == 0);
        assert(hashes@ =~= start.union(hashes_in(nt_string@, k as nat, ds_factor, 0, 0)));
    }
    while n < nt_string.len()
        invariant
            n <= nt_string@.len(),
            valid_k(k),
            ds_factor >= 1,
            nbits == 2 * k,
            shift == nbits - 2,
            mask == (1u64 << nbits) - 1,
            (1u64 << nbits) as nat == pow4(k as nat),
            (1u64 << shift) as nat == pow4((k - 1) as nat),
            thr == threshold(ds_factor),
            rolled(nt_string@, n as nat, k as nat, kmer_forward as nat, kmer_reverse as nat),
            hashes@ == start.union(hashes_in(nt_string@, k as nat, ds_factor, 0, n as int)),
        decreases nt_string@.len() - n,
    {
        let nt: u64 = byte_to_seq(nt_string[n]) as u64;
        proof {
            lemma_rolled_facts(
                nt_string@,
                n as nat,
                k as nat,
                kmer_forward as nat,
                kmer_reverse as nat,
            );
            lemma_roll_step(
                nt_string@,
                n as nat,
                k as nat,
                kmer_forward as nat,
                kmer_reverse as nat,
            );
            lemma_fwd_bits(kmer_forward, nt, nbits);
            lemma_rev_bits(kmer_reverse, (3 - nt) as u64, nbits);
        }
        kmer_forward = ((kmer_forward << 2) | nt) & mask;
        kmer_reverse = (kmer_reverse >> 2) | ((3 - nt) << shift);
        n = n + 1;
        proof {
            lemma_rolled_facts(
                nt_string@,
                n as nat,
                k as nat,
                kmer_forward as nat,
                kmer_reverse as nat,
            );
            lemma_hashes_extend(nt_string@, k as nat, ds_factor, 0, n - 1);
        }
        if n >= k {
            let canon: u64 = if kmer_forward < kmer_reverse {
                kmer_forward
            } else {
                kmer_reverse
            };
            assert(canon as nat == canonical(nt_string@, n - k, k as nat));
            let h = mm_hash64(canon);
            assert(h == kmer_hash(nt_string@, n - k, k as nat));
            if h <= thr {
                hashes.insert(h);
            }
        }
        assert(hashes@ =~= start.union(hashes_in(nt_string@, k as nat, ds_factor, 0, n as int)));
    }
}

/// Sketch of one slice by the scalar rolling encoder.
pub fn kmerize(k: usize, ds_factor: u64, nt_string: &[u8]) -> (r: Result<HashSet<u64>, SketchError>)
    requires
        ds_factor >= 1,
    ensures
        !valid_k(k) ==> r is Err && r->Err_0 == SketchError::KmerSizeOutOfRange,
        valid_k(k) && k >= nt_string@.len() ==> r is Err && r->Err_0
            == SketchError::SequenceTooShort,
        valid_k(k) && k < nt_string@.len() ==> r is Ok && r->Ok_0@ == sketch(
            nt_string@,
            k as nat,
            ds_factor,
        ),
{
    if k < MIN_KMER_SIZE || k > MAX_KMER_SIZE {
        return Err(SketchError::KmerSizeOutOfRange);
    }
    if k >= nt_string.len() {
        return Err(SketchError::SequenceTooShort);
    }
    let mut hashes: HashSet<u64> = HashSet::new();
    add_slice_kmers(k, ds_factor, nt_string, &mut hashes);
    assert(hashes@ =~= sketch(nt_string@, k as nat, ds_factor));
    Ok(hashes)
}

} // verus!
