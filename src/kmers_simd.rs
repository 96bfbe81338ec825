//! Sketch generation over 64 equal-length windows at once: the rolling
//! encoders of all lanes advance one symbol per step.
use std::collections::HashSet;
use vstd::prelude::*;

use crate::kmers_utils::byte_to_seq;
use crate::kmers_vanilla::mm_hash64;
use crate::model::{
    canonical, hashes_in, kmer_hash, lane_end, lanes_in, lanes_sketch, lemma_fwd_bits,
    lemma_hashes_extend, lemma_lanes_step, lemma_pow4_pos, lemma_rev_bits, lemma_roll_step,
    lemma_rolled_facts, lemma_shl_pow4, mix, pow4, rev_code, fwd_code, rolled, sketch,
    slice_views, threshold, valid_k,
};

verus! {

broadcast use vstd::std_specs::hash::group_hash_axioms;

/// Number of lanes.
pub const LANES: usize = 64;

/// The hash mix applied to each lane.
fn mm_hash64_simd(kmer: &Vec<u64>) -> (r: Vec<u64>)
    ensures
        r@.len() == kmer@.len(),
        forall|j: int| 0 <= j < kmer@.len() ==> r@[j] == mix(#[trigger] kmer@[j]),
{
    let mut r: Vec<u64> = Vec::new();
    let mut j: usize = 0;
    while j < kmer.len()
        invariant
            j <= kmer@.len(),
            r@.len() == j,
            forall|i: int| 0 <= i < j ==> r@[i] == mix(#[trigger] kmer@[i]),
        decreases kmer@.len() - j,
    {
        r.push(mm_hash64(kmer[j]));
        j = j + 1;
    }
    r
}

/// Sketch of 64 equal-length windows: the union of the sketches of the
/// windows, each computed as the scalar encoder would.
pub fn simd_u64_64_encoding(kmer_size: usize, simd_nt_chunks: Vec<&[u8]>, ds_factor: u64) -> (r:
    HashSet<u64>)
    requires
        valid_k(kmer_size),
        ds_factor >= 1,
        simd_nt_chunks@.len() == LANES,
        forall|j: int|
            0 <= j < LANES ==> (#[trigger] simd_nt_chunks@[j])@.len() == simd_nt_chunks@[0]@.len(),
    ensures
        r@ == lanes_sketch(slice_views(simd_nt_chunks@), kmer_size as nat, ds_factor),
{
    let ghost ws = slice_views(simd_nt_chunks@);
    let ghost k = kmer_size as nat;
    let nbits: u64 = 2 * (kmer_size as u64);
    let shift: u64 = nbits - 2;
    proof {
        lemma_shl_pow4(kmer_size as u64);
        lemma_shl_pow4((kmer_size - 1) as u64);
        lemma_pow4_pos(k);
        assert(shift == (2 * ((kmer_size - 1) as u64)) as u64);
        assert(fwd_code(ws[0], 0, 0) == 0);
        assert(0 * pow4(k) == 0);
        assert forall|j: int| 0 <= j < LANES implies rolled(#[trigger] ws[j], 0, k, 0, 0) by {
            assert(fwd_code(ws[j], 0, 0) == 0);
            assert(rev_code(ws[j], 0, 0) == 0);
        }
    }
    let mask: u64 = (1u64 << nbits) - 1;
    let thr: u64 = u64::MAX / ds_factor;
    let chunk_len: usize = simd_nt_chunks[0].len();
    let mut kmer_fwd: Vec<u64> = Vec::new();
    let mut kmer_reverse: Vec<u64> = Vec::new();
    while kmer_fwd.len() < LANES
        invariant
            kmer_fwd@.len() <= LANES,
            kmer_reverse@.len() == kmer_fwd@.len(),
            forall|j: int| 0 <= j < kmer_fwd@.len() ==> kmer_fwd@[j] == 0 && kmer_reverse@[j] == 0,
        decreases LANES - kmer_fwd@.len(),
    {
        kmer_fwd.push(0);
        kmer_reverse.push(0);
    }
    let mut hash_set: HashSet<u64> = HashSet::new();
    proof {
        assert(hash_set@ =~= lanes_in(ws, k, ds_factor, 0, 0));
    }
    let mut i: usize = 0;
    while i < chunk_len
        invariant
            valid_k(kmer_size),
            k == kmer_size,
            ds_factor >= 1,
            ws == slice_views(simd_nt_chunks@),
            simd_nt_chunks@.len() == LANES,
            forall|j: int| 0 <= j < LANES ==> (#[trigger] ws[j]).len() == chunk_len,
            i <= chunk_len,
            nbits == 2 * kmer_size,
            shift == nbits - 2,
            mask == (1u64 << nbits) - 1,
            (1u64 << nbits) as nat == pow4(k),
            (1u64 << shift) as nat == pow4((k - 1) as nat),
            thr == threshold(ds_factor),
            kmer_fwd@.len() == LANES,
            kmer_reverse@.len() == LANES,
            forall|j: int|
                0 <= j < LANES ==> rolled(
                    #[trigger] ws[j],
                    i as nat,
                    k,
                    kmer_fwd@[j] as nat,
                    kmer_reverse@[j] as nat,
                ),
            hash_set@ == lanes_in(ws, k, ds_factor, i as int, 0),
        decreases chunk_len - i,
    {
        // Advance every lane by the symbol at position `i` of its window.
        let mut j: usize = 0;
        while j < LANES
            invariant
                valid_k(kmer_size),
                k == kmer_size,
                ds_factor >= 1,
                ws == slice_views(simd_nt_chunks@),
                simd_nt_chunks@.len() == LANES,
                forall|l: int| 0 <= l < LANES ==> (#[trigger] ws[l]).len() == chunk_len,
                i < chunk_len,
                thr == threshold(ds_factor),
                kmer_fwd@.len() == LANES,
                kmer_reverse@.len() == LANES,
                j <= LANES,
                nbits == 2 * kmer_size,
                shift == nbits - 2,
                mask == (1u64 << nbits) - 1,
                (1u64 << nbits) as nat == pow4(k),
                (1u64 << shift) as nat == pow4((k - 1) as nat),
                forall|l: int|
                    0 <= l < LANES ==> rolled(
                        #[trigger] ws[l],
                        lane_end(i as int, j as int, l) as nat,
                        k,
                        kmer_fwd@[l] as nat,
                        kmer_reverse@[l] as nat,
                    ),
            decreases LANES - j,
        {
            let ghost w = ws[j as int];
            let f: u64 = kmer_fwd[j];
            let rv: u64 = kmer_reverse[j];
            proof {
                assert(lane_end(i as int, j as int, j as int) == i);
                assert(w == simd_nt_chunks@[j as int]@);
            }
            let nt: u64 = byte_to_seq(simd_nt_chunks[j][i]) as u64;
            proof {
                lemma_rolled_facts(w, i as nat, k, f as nat, rv as nat);
                lemma_roll_step(w, i as nat, k, f as nat, rv as nat);
                lemma_fwd_bits(f, nt, nbits);
                lemma_rev_bits(rv, (3 - nt) as u64, nbits);
            }
            kmer_fwd.set(j, ((f << 2) | nt) & mask);
            kmer_reverse.set(j, (rv >> 2) | ((3 - nt) << shift));
            proof {
                assert forall|l: int| 0 <= l < LANES implies rolled(
                    #[trigger] ws[l],
                    lane_end(i as int, j + 1, l) as nat,
                    k,
                    kmer_fwd@[l] as nat,
                    kmer_reverse@[l] as nat,
                ) by {
                    if l != j {
                        assert(lane_end(i as int, j + 1, l) == lane_end(i as int, j as int, l));
                    }
                }
            }
            j = j + 1;
        }
        proof {
            assert forall|l: int| 0 <= l < LANES implies rolled(
                #[trigger] ws[l],
                (i + 1) as nat,
                k,
                kmer_fwd@[l] as nat,
                kmer_reverse@[l] as nat,
            ) by {
                assert(lane_end(i as int, LANES as int, l) == i + 1);
            }
        }
        if i + 1 >= kmer_size {
            // Every lane holds a whole k-mer: keep the smaller strand code,
            // hash all lanes, and keep the hashes under the threshold.
            let mut smallest: Vec<u64> = Vec::new();
            let mut j: usize = 0;
            while j < LANES
                invariant
                valid_k(kmer_size),
                k == kmer_size,
                ds_factor >= 1,
                ws == slice_views(simd_nt_chunks@),
                simd_nt_chunks@.len() == LANES,
                forall|l: int| 0 <= l < LANES ==> (#[trigger] ws[l]).len() == chunk_len,
                i < chunk_len,
                thr == threshold(ds_factor),
                kmer_fwd@.len() == LANES,
                kmer_reverse@.len() == LANES,
                    j <= LANES,
                    i + 1 >= k,
                    smallest@.len() == j,
                    forall|l: int|
                        0 <= l < LANES ==> rolled(
                            #[trigger] ws[l],
                            (i + 1) as nat,
                            k,
                            kmer_fwd@[l] as nat,
                            kmer_reverse@[l] as nat,
                        ),
                    forall|l: int|
                        0 <= l < j ==> #[trigger] smallest@[l] as nat == canonical(
                            ws[l],
                            i + 1 - k,
                            k,
                        ),
                decreases LANES - j,
            {
                proof {
                    lemma_rolled_facts(
                        ws[j as int],
                        (i + 1) as nat,
                        k,
                        kmer_fwd@[j as int] as nat,
                        kmer_reverse@[j as int] as nat,
                    );
                }
                let f: u64 = kmer_fwd[j];
                let rv: u64 = kmer_reverse[j];
                smallest.push(
                    if f < rv {
                        f
                    } else {
                        rv
                    },
                );
                j = j + 1;
            }
            let simd_hash = mm_hash64_simd(&smallest);
            assert forall|l: int| 0 <= l < LANES implies #[trigger] simd_hash@[l] == kmer_hash(
                ws[l],
                i + 1 - k,
                k,
            ) by {
                assert(smallest@[l] as nat == canonical(ws[l], i + 1 - k, k));
                assert(canonical(ws[l], i + 1 - k, k) as u64 == smallest@[l]);
            }
            let mut j: usize = 0;
            while j < LANES
                invariant
                valid_k(kmer_size),
                k == kmer_size,
                ds_factor >= 1,
                ws == slice_views(simd_nt_chunks@),
                simd_nt_chunks@.len() == LANES,
                forall|l: int| 0 <= l < LANES ==> (#[trigger] ws[l]).len() == chunk_len,
                i < chunk_len,
                thr == threshold(ds_factor),
                kmer_fwd@.len() == LANES,
                kmer_reverse@.len() == LANES,
                    j <= LANES,
                    i + 1 >= k,
                    simd_hash@.len() == LANES,
                    forall|l: int|
                        0 <= l < LANES ==> #[trigger] simd_hash@[l] == kmer_hash(
                            ws[l],
                            i + 1 - k,
                            k,
                        ),
                    hash_set@ == lanes_in(ws, k, ds_factor, i as int, j as int),
                decreases LANES - j,
            {
                proof {
                    lemma_hashes_extend(ws[j as int], k, ds_factor, 0, i as int);
                    lemma_lanes_step(ws, k, ds_factor, i as int, j as int);
                }
                let h: u64 = simd_hash[j];
                if h <= thr {
                    hash_set.insert(h);
                }
                assert(hash_set@ =~= lanes_in(ws, k, ds_factor, i as int, j + 1));
                j = j + 1;
            }
            proof {
                let a = lanes_in(ws, k, ds_factor, i as int, LANES as int);
                let b = lanes_in(ws, k, ds_factor, i + 1, 0);
                assert forall|h: u64| a.contains(h) implies b.contains(h) by {
                    let l = choose|l: int|
                        0 <= l < ws.len() && #[trigger] hashes_in(
                            ws[l],
                            k,
                            ds_factor,
                            0,
                            lane_end(i as int, LANES as int, l),
                        ).contains(h);
                    assert(lane_end(i + 1, 0, l) == i + 1);
                }
                assert forall|h: u64| b.contains(h) implies a.contains(h) by {
                    let l = choose|l: int|
                        0 <= l < ws.len() && #[trigger] hashes_in(
                            ws[l],
                            k,
                            ds_factor,
                            0,
                            lane_end(i + 1, 0, l),
                        ).contains(h);
                    assert(lane_end(i as int, LANES as int, l) == i + 1);
                }
                assert(a =~= b);
            }
        } else {
            proof {
                // No lane holds a whole k-mer yet: nothing has been read.
                let a = lanes_in(ws, k, ds_factor, i as int, 0);
                let b = lanes_in(ws, k, ds_factor, i + 1, 0);
                assert forall|h: u64| !b.contains(h) by {
                    if b.contains(h) {
                        let l = choose|l: int|
                            0 <= l < ws.len() && #[trigger] hashes_in(
                                ws[l],
                                k,
                                ds_factor,
                                0,
                                lane_end(i + 1, 0, l),
                            ).contains(h);
                        assert(lane_end(i + 1, 0, l) == i + 1);
                        let p = choose|p: int|
                            0 <= p && p + k <= i + 1 && #[trigger] kmer_hash(ws[l], p, k) == h && h
                                <= threshold(ds_factor);
                    }
                }
                assert forall|h: u64| !a.contains(h) by {
                    if a.contains(h) {
                        let l = choose|l: int|
                            0 <= l < ws.len() && #[trigger] hashes_in(
                                ws[l],
                                k,
                                ds_factor,
                                0,
                                lane_end(i as int, 0, l),
                            ).contains(h);
                        assert(lane_end(i as int, 0, l) == i);
                        let p = choose|p: int|
                            0 <= p && p + k <= i && #[trigger] kmer_hash(ws[l], p, k) == h && h
                                <= threshold(ds_factor);
                    }
                }
                assert(a =~= b);
            }
        }
        i = i + 1;
    }
    proof {
        let a = lanes_in(ws, k, ds_factor, chunk_len as int, 0);
        let b = lanes_sketch(ws, k, ds_factor);
        assert forall|h: u64| a.contains(h) implies b.contains(h) by {
            let l = choose|l: int|
                0 <= l < ws.len() && #[trigger] hashes_in(
                    ws[l],
                    k,
                    ds_factor,
                    0,
                    lane_end(chunk_len as int, 0, l),
                ).contains(h);
            assert(sketch(ws[l], k, ds_factor).contains(h));
        }
        assert forall|h: u64| b.contains(h) implies a.contains(h) by {
            let l = choose|l: int| 0 <= l < ws.len() && #[trigger] sketch(ws[l], k, ds_factor).contains(h);
            assert(lane_end(chunk_len as int, 0, l) == chunk_len);
            assert(hashes_in(ws[l], k, ds_factor, 0, lane_end(chunk_len as int, 0, l)).contains(h));
        }
        assert(hash_set@ =~= b);
    }
    hash_set
}

} // verus!
