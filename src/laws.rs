//! Laws of the sketch: statements over several calls or over all inputs.
use vstd::prelude::*;

use crate::model::{
    canonical, chunk_len, chunk_step, fwd_code, hashes_in, is_chunk_plan, is_reverse_complement,
    kmer_hash, lemma_hashes_extend, lemma_sketch_of_window, nt_code, rev_code, sketch, threshold,
    windows_sketch,
};
use vstd::arithmetic::div_mod::{lemma_div_is_ordered_by_denominator, lemma_fundamental_div_mod};
use vstd::set_lib::lemma_len_subset;

verus! {

/// Splitting a sequence by a chunk plan loses no k-mer: the union of the
/// sketches of the planned windows is the sketch of the whole sequence.
pub proof fn lemma_chunk_plan_lossless(s: Seq<u8>, c: nat, k: nat, ds: u64, v: Seq<(usize, usize)>)
    requires
        c >= 1,
        k >= 1,
        k <= chunk_len(s.len(), c, k),
        is_chunk_plan(v, s.len(), c, k),
    ensures
        windows_sketch(s, v, k, ds) == sketch(s, k, ds),
{
    let n = s.len() as int;
    let l = chunk_len(s.len(), c, k);
    let st = chunk_step(s.len(), c, k);
    let x = windows_sketch(s, v, k, ds);
    let y = sketch(s, k, ds);
    assert forall|h: u64| x.contains(h) implies y.contains(h) by {
        let j = choose|j: int|
            0 <= j < v.len() && #[trigger] sketch(
                s.subrange(v[j].0 as int, v[j].1 as int),
                k,
                ds,
            ).contains(h);
        lemma_sketch_of_window(s, k, ds, v[j].0 as int, v[j].1 as int);
        let i = choose|i: int|
            v[j].0 <= i && i + k <= v[j].1 && #[trigger] kmer_hash(s, i, k) == h && h <= threshold(
                ds,
            );
    }
    assert forall|h: u64| y.contains(h) implies x.contains(h) by {
        let i = choose|i: int|
            0 <= i && i + k <= n && #[trigger] kmer_hash(s, i, k) == h && h <= threshold(ds);
        lemma_fundamental_div_mod(i, st);
        let j = i / st;
        let r = i % st;
        assert(j >= 0) by (nonlinear_arith)
            requires
                i >= 0,
                st >= 1,
                j == i / st,
        ;
        if j < c {
            assert(v[j].0 == j * st && v[j].1 == j * st + l);
            assert(i + k <= j * st + l) by (nonlinear_arith)
                requires
                    i == st * j + r,
                    r < st,
                    st == l - (k - 1),
            ;
            lemma_sketch_of_window(s, k, ds, v[j].0 as int, v[j].1 as int);
            assert(hashes_in(s, k, ds, v[j].0 as int, v[j].1 as int).contains(h));
        } else {
            assert(c * st <= i) by (nonlinear_arith)
                requires
                    i == st * j + r,
                    r >= 0,
                    j >= c,
                    st >= 1,
            ;
            let cc = c as int;
            lemma_sketch_of_window(s, k, ds, v[cc].0 as int, v[cc].1 as int);
            assert(hashes_in(s, k, ds, v[cc].0 as int, v[cc].1 as int).contains(h));
        }
    }
    assert(x =~= y);
}

/// The hashes of the k-mers of `s` that end at or before `hi` form a
/// finite set.
pub proof fn lemma_hashes_finite(s: Seq<u8>, k: nat, ds: u64, hi: nat)
    requires
        k >= 1,
    ensures
        hashes_in(s, k, ds, 0, hi as int).finite(),
    decreases hi,
{
    if hi == 0 {
        assert(hashes_in(s, k, ds, 0, 0) =~= Set::<u64>::empty());
    } else {
        lemma_hashes_finite(s, k, ds, (hi - 1) as nat);
        lemma_hashes_extend(s, k, ds, 0, hi - 1);
    }
}

/// With no downsampling, a sequence whose `n - k + 1` k-mers all hash
/// apart has a sketch of exactly `n - k + 1` hashes.
pub proof fn lemma_full_sketch_size(s: Seq<u8>, k: nat)
    requires
        1 <= k <= s.len(),
        forall|i: int, j: int|
            0 <= i < j && j + k <= s.len() ==> kmer_hash(s, i, k) != kmer_hash(s, j, k),
    ensures
        sketch(s, k, 1).finite(),
        sketch(s, k, 1).len() == s.len() - k + 1,
{
    lemma_prefix_size(s, k, s.len());
}

proof fn lemma_prefix_size(s: Seq<u8>, k: nat, hi: nat)
    requires
        1 <= k,
        k - 1 <= hi <= s.len(),
        forall|i: int, j: int|
            0 <= i < j && j + k <= s.len() ==> kmer_hash(s, i, k) != kmer_hash(s, j, k),
    ensures
        hashes_in(s, k, 1, 0, hi as int).finite(),
        hashes_in(s, k, 1, 0, hi as int).len() == hi - k + 1,
    decreases hi,
{
    if hi == k - 1 {
        assert(hashes_in(s, k, 1, 0, hi as int) =~= Set::<u64>::empty());
    } else {
        let p = hi - k;
        lemma_prefix_size(s, k, (hi - 1) as nat);
        lemma_hashes_extend(s, k, 1, 0, hi - 1);
        assert(threshold(1) == u64::MAX);
        let prev = hashes_in(s, k, 1, 0, hi - 1);
        if prev.contains(kmer_hash(s, p, k)) {
            let i = choose|i: int|
                0 <= i && i + k <= hi - 1 && #[trigger] kmer_hash(s, i, k) == kmer_hash(s, p, k)
                    && kmer_hash(s, p, k) <= threshold(1);
            assert(kmer_hash(s, i, k) != kmer_hash(s, p, k));
        }
    }
}

/// A k-mer of the reverse complement has as forward code the reverse code
/// of the mirrored k-mer, and the other way round.
proof fn lemma_mirror_codes(t: Seq<u8>, s: Seq<u8>, p: int, len: nat)
    requires
        is_reverse_complement(t, s),
        0 <= p,
        p + len <= s.len(),
    ensures
        fwd_code(t, p, len) == rev_code(s, s.len() - p - len, len),
        rev_code(t, p, len) == fwd_code(s, s.len() - p - len, len),
    decreases len,
{
    if len > 0 {
        let n = s.len() as int;
        lemma_mirror_codes(t, s, p, (len - 1) as nat);
        lemma_mirror_codes(t, s, p + 1, (len - 1) as nat);
        assert(nt_code(t[p + len - 1]) + nt_code(s[n - 1 - (p + len - 1)]) == 3);
        assert(nt_code(t[p]) + nt_code(s[n - 1 - p]) == 3);
        assert(n - p - (len - 1) == n - p - len + 1);
        assert(n - (p + 1) - (len - 1) == n - p - len);
    }
}

/// Strand symmetry: a sequence and its reverse complement have the same
/// sketch.
pub proof fn lemma_strand_symmetry(s: Seq<u8>, t: Seq<u8>, k: nat, ds: u64)
    requires
        is_reverse_complement(t, s),
    ensures
        sketch(t, k, ds) == sketch(s, k, ds),
{
    let n = s.len() as int;
    assert forall|h: u64| sketch(t, k, ds).contains(h) implies sketch(s, k, ds).contains(h) by {
        let p = choose|p: int|
            0 <= p && p + k <= n && #[trigger] kmer_hash(t, p, k) == h && h <= threshold(ds);
        lemma_mirror_codes(t, s, p, k);
        assert(canonical(t, p, k) == canonical(s, n - p - k, k));
        assert(kmer_hash(s, n - p - k, k) == h);
    }
    assert forall|h: u64| sketch(s, k, ds).contains(h) implies sketch(t, k, ds).contains(h) by {
        let i = choose|i: int|
            0 <= i && i + k <= n && #[trigger] kmer_hash(s, i, k) == h && h <= threshold(ds);
        let p = n - i - k;
        lemma_mirror_codes(t, s, p, k);
        assert(n - p - k == i);
        assert(canonical(t, p, k) == canonical(s, i, k));
        assert(kmer_hash(t, p, k) == h);
    }
    assert(sketch(t, k, ds) =~= sketch(s, k, ds));
}

/// Monotone downsampling: a larger factor keeps a subset of the hashes, so
/// never more of them.
pub proof fn lemma_downsampling_monotone(s: Seq<u8>, k: nat, ds1: u64, ds2: u64)
    requires
        k >= 1,
        1 <= ds1 <= ds2,
    ensures
        sketch(s, k, ds2).subset_of(sketch(s, k, ds1)),
        sketch(s, k, ds2).len() <= sketch(s, k, ds1).len(),
{
    lemma_div_is_ordered_by_denominator(u64::MAX as int, ds1 as int, ds2 as int);
    assert(threshold(ds2) <= threshold(ds1));
    assert forall|h: u64| sketch(s, k, ds2).contains(h) implies sketch(s, k, ds1).contains(h) by {
        let i = choose|i: int|
            0 <= i && i + k <= s.len() && #[trigger] kmer_hash(s, i, k) == h && h <= threshold(
                ds2,
            );
    }
    lemma_hashes_finite(s, k, ds1, s.len());
    lemma_len_subset(sketch(s, k, ds2), sketch(s, k, ds1));
}

/// A k-mer longer than the sequence always leaves the 64 windows too short,
/// so sketch generation fails on it.
pub proof fn lemma_long_kmer_fails(n: nat, k: nat)
    requires
        k > n,
    ensures
        k > chunk_len(n, 64, k),
{
    assert((n + 63 * (k - 1)) / 64 < k as int) by (nonlinear_arith)
        requires
            k > n,
    ;
}

} // verus!
