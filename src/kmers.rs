//! The sketch of a whole sequence: 64 overlapping windows through the
//! lane-parallel generator, the rest through the scalar one.
use std::collections::HashSet;
use vstd::prelude::*;

use crate::kmers_simd::{simd_u64_64_encoding, LANES};
use crate::kmers_utils::{chunk_pos, SketchError};
use crate::kmers_vanilla::add_slice_kmers;
use crate::laws::lemma_chunk_plan_lossless;
use crate::model::{
    chunk_len, is_chunk_plan, lanes_sketch, sketch, slice_views, valid_k, windows_sketch,
    MAX_KMER_SIZE, MIN_KMER_SIZE,
};

verus! {

broadcast use vstd::std_specs::hash::group_hash_axioms;

/// Slices the planned equal windows out of the sequence.
fn simd_windows<'a>(nt_string: &'a [u8], simd_pos_chunks: &Vec<(usize, usize)>) -> (r: Vec<
    &'a [u8],
>)
    requires
        forall|j: int|
            0 <= j < simd_pos_chunks@.len() ==> (#[trigger] simd_pos_chunks@[j]).0
                <= simd_pos_chunks@[j].1 <= nt_string@.len(),
    ensures
        r@.len() == simd_pos_chunks@.len(),
        forall|j: int|
            0 <= j < r@.len() ==> (#[trigger] r@[j])@ == nt_string@.subrange(
                simd_pos_chunks@[j].0 as int,
                simd_pos_chunks@[j].1 as int,
            ),
{
    let mut chunks: Vec<&[u8]> = Vec::new();
    let mut j: usize = 0;
    while j < simd_pos_chunks.len()
        invariant
            j <= simd_pos_chunks@.len(),
            chunks@.len() == j,
            forall|i: int|
                0 <= i < simd_pos_chunks@.len() ==> (#[trigger] simd_pos_chunks@[i]).0
                    <= simd_pos_chunks@[i].1 <= nt_string@.len(),
            forall|i: int|
                0 <= i < j ==> (#[trigger] chunks@[i])@ == nt_string@.subrange(
                    simd_pos_chunks@[i].0 as int,
                    simd_pos_chunks@[i].1 as int,
                ),
        decreases simd_pos_chunks@.len() - j,
    {
        let (start, end) = simd_pos_chunks[j];
        chunks.push(&nt_string[start..end]);
        j = j + 1;
    }
    chunks
}

/// Sketch of the 64 equal-length windows that `simd_pos_chunks` marks,
/// through the lane-parallel generator.
fn generate_simd_kmers(
    nt_string: &[u8],
    simd_pos_chunks: &Vec<(usize, usize)>,
    kmer_size: usize,
    ds_factor: u64,
) -> (r: HashSet<u64>)
    requires
        valid_k(kmer_size),
        ds_factor >= 1,
        simd_pos_chunks@.len() == LANES,
        forall|j: int|
            0 <= j < LANES ==> (#[trigger] simd_pos_chunks@[j]).0 <= simd_pos_chunks@[j].1
                <= nt_string@.len(),
        forall|j: int|
            0 <= j < LANES ==> (#[trigger] simd_pos_chunks@[j]).1 - simd_pos_chunks@[j].0
                == simd_pos_chunks@[0].1 - simd_pos_chunks@[0].0,
    ensures
        r@ == windows_sketch(nt_string@, simd_pos_chunks@, kmer_size as nat, ds_factor),
{
    let windows = simd_windows(nt_string, simd_pos_chunks);
    assert forall|j: int| 0 <= j < LANES implies (#[trigger] windows@[j])@.len()
        == windows@[0]@.len() by {
        assert(simd_pos_chunks@[j].1 - simd_pos_chunks@[j].0 == simd_pos_chunks@[0].1
            - simd_pos_chunks@[0].0);
    }
    let ghost ws = slice_views(windows@);
    let kmer_hash_set = simd_u64_64_encoding(kmer_size, windows, ds_factor);
    proof {
        let k = kmer_size as nat;
        let s = nt_string@;
        let v = simd_pos_chunks@;
        assert forall|j: int| 0 <= j < LANES implies #[trigger] ws[j] == s.subrange(
            v[j].0 as int,
            v[j].1 as int,
        ) by {}
        let a = lanes_sketch(ws, k, ds_factor);
        let b = windows_sketch(s, v, k, ds_factor);
        assert forall|h: u64| a.contains(h) implies b.contains(h) by {
            let l = choose|l: int| 0 <= l < ws.len() && #[trigger] sketch(ws[l], k, ds_factor).contains(h);
            assert(ws[l] == s.subrange(v[l].0 as int, v[l].1 as int));
        }
        assert forall|h: u64| b.contains(h) implies a.contains(h) by {
            let l = choose|l: int|
                0 <= l < v.len() && #[trigger] sketch(
                    s.subrange(v[l].0 as int, v[l].1 as int),
                    k,
                    ds_factor,
                ).contains(h);
            assert(ws[l] == s.subrange(v[l].0 as int, v[l].1 as int));
            assert(sketch(ws[l], k, ds_factor).contains(h));
        }
        assert(a =~= b);
    }
    kmer_hash_set
}

/// Adds the sketch of the window `last_pos_chunk` of any length, through
/// the scalar generator.
fn generate_residual_kmers(
    nt_string: &[u8],
    last_pos_chunk: &(usize, usize),
    kmer_size: usize,
    ds_factor: u64,
    kmer_hash_set: &mut HashSet<u64>,
)
    requires
        valid_k(kmer_size),
        ds_factor >= 1,
        last_pos_chunk.0 <= last_pos_chunk.1 <= nt_string@.len(),
    ensures
        final(kmer_hash_set)@ == old(kmer_hash_set)@.union(
            sketch(
                nt_string@.subrange(last_pos_chunk.0 as int, last_pos_chunk.1 as int),
                kmer_size as nat,
                ds_factor,
            ),
        ),
{
    let (last_start, last_end) = *last_pos_chunk;
    add_slice_kmers(kmer_size, ds_factor, &nt_string[last_start..last_end], kmer_hash_set);
}

/// Sketch of a sequence: the hashes of its canonical k-mers that pass the
/// downsampling threshold. Fails when `kmer_size` lies outside [7, 31], or
/// when the sequence is too short to split into 64 windows that each hold
/// a k-mer.
pub fn generate_kmers(nt_string: &[u8], kmer_size: usize, ds_factor: u64) -> (r: Result<
    HashSet<u64>,
    SketchError,
>)
    requires
        ds_factor >= 1,
    ensures
        !valid_k(kmer_size) ==> r is Err && r->Err_0 == SketchError::KmerSizeOutOfRange,
        valid_k(kmer_size) && kmer_size > chunk_len(nt_string@.len(), 64, kmer_size as nat)
            ==> r is Err && r->Err_0 == SketchError::SequenceTooShort,
        valid_k(kmer_size) && kmer_size <= chunk_len(nt_string@.len(), 64, kmer_size as nat)
            ==> r is Ok && r->Ok_0@ == sketch(nt_string@, kmer_size as nat, ds_factor),
{
    if kmer_size < MIN_KMER_SIZE || kmer_size > MAX_KMER_SIZE {
        return Err(SketchError::KmerSizeOutOfRange);
    }
    let chunks = match chunk_pos(nt_string.len(), LANES, kmer_size) {
        Ok(c) => c,
        Err(e) => {
            return Err(e);
        },
    };
    let ghost s = nt_string@;
    let ghost k = kmer_size as nat;
    let ghost v = chunks@;
    let mut simd_pos_chunks: Vec<(usize, usize)> = Vec::new();
    let mut j: usize = 0;
    while j < LANES
        invariant
            j <= LANES,
            v == chunks@,
            is_chunk_plan(v, s.len(), 64, k),
            simd_pos_chunks@ == v.subrange(0, j as int),
        decreases LANES - j,
    {
        simd_pos_chunks.push(chunks[j]);
        j = j + 1;
        assert(simd_pos_chunks@ =~= v.subrange(0, j as int));
    }
    let mut kmer_hash_set = generate_simd_kmers(
        nt_string,
        &simd_pos_chunks,
        kmer_size,
        ds_factor,
    );
    let ghost lanes = kmer_hash_set@;
    generate_residual_kmers(nt_string, &chunks[LANES], kmer_size, ds_factor, &mut kmer_hash_set);
    proof {
        let rest = s.subrange(v[64].0 as int, v[64].1 as int);
        let w = simd_pos_chunks@;
        lemma_chunk_plan_lossless(s, 64, k, ds_factor, v);
        let y = windows_sketch(s, v, k, ds_factor);
        assert forall|h: u64| kmer_hash_set@.contains(h) implies y.contains(h) by {
            if lanes.contains(h) {
                let l = choose|l: int|
                    0 <= l < w.len() && #[trigger] sketch(
                        s.subrange(w[l].0 as int, w[l].1 as int),
                        k,
                        ds_factor,
                    ).contains(h);
                assert(w[l] == v[l]);
            } else {
                assert(sketch(s.subrange(v[64].0 as int, v[64].1 as int), k, ds_factor).contains(h));
            }
        }
        assert forall|h: u64| y.contains(h) implies kmer_hash_set@.contains(h) by {
            let l = choose|l: int|
                0 <= l < v.len() && #[trigger] sketch(
                    s.subrange(v[l].0 as int, v[l].1 as int),
                    k,
                    ds_factor,
                ).contains(h);
            if l < 64 {
                assert(w[l] == v[l]);
                assert(sketch(s.subrange(w[l].0 as int, w[l].1 as int), k, ds_factor).contains(h));
            }
        }
        assert(kmer_hash_set@ =~= sketch(s, k, ds_factor));
    }
    Ok(kmer_hash_set)
}

} // verus!
