//! Nucleotide codec and the chunk planner.
use vstd::prelude::*;

use crate::model::{chunk_len, chunk_step, is_chunk_plan, nt_code};
use vstd::arithmetic::div_mod::{lemma_fundamental_div_mod, lemma_fundamental_div_mod_converse};

verus! {

/// Why a sketch cannot be computed.
#[derive(Debug, Clone, Copy, PartialEq, Eq, Structural)]
pub enum SketchError {
    /// The k-mer size lies outside [7, 31].
    KmerSizeOutOfRange,
    /// The sequence is too short to hold a k-mer of the given size in each
    /// of its windows.
    SequenceTooShort,
}

/// Two-bit code of a nucleotide byte: A=0, C=1, G=2, T/U=3 in either
/// case; any other byte (`N` included) reads as 0.
pub fn byte_to_seq(b: u8) -> (c: u8)
    ensures
        c as nat == nt_code(b),
{
    match b {
        0x43 | 0x63 => 1,
        0x47 | 0x67 => 2,
        0x54 | 0x74 | 0x55 | 0x75 => 3,
        _ => 0,
    }
}

/// Upper-case nucleotide letter (ASCII `A`, `C`, `G`, `T`) of a two-bit code.
pub fn decode(code: u64) -> (b: u8)
    requires
        code < 4,
    ensures
        code == 0 ==> b == 0x41,
        code == 1 ==> b == 0x43,
        code == 2 ==> b == 0x47,
        code == 3 ==> b == 0x54,
{
    match code {
        0 => 0x41,
        1 => 0x43,
        2 => 0x47,
        _ => 0x54,
    }
}

/// Splits `seq_len` symbols into `num_chunks` windows of one length that
/// overlap by `kmer_size - 1`, so that every k-mer lies in one of them,
/// followed by a window over what is left. Fails when the windows would be
/// shorter than a k-mer.
pub fn chunk_pos(seq_len: usize, num_chunks: usize, kmer_size: usize) -> (r: Result<
    Vec<(usize, usize)>,
    SketchError,
>)
    requires
        num_chunks >= 1,
        kmer_size >= 1,
        (num_chunks - 1) * (kmer_size - 1) + num_chunks <= usize::MAX,
    ensures
        r is Err <==> kmer_size > chunk_len(seq_len as nat, num_chunks as nat, kmer_size as nat),
        r is Err ==> r->Err_0 == SketchError::SequenceTooShort,
        r is Ok ==> is_chunk_plan(r->Ok_0@, seq_len as nat, num_chunks as nat, kmer_size as nat),
{
    let ghost n = seq_len as int;
    let ghost c = num_chunks as int;
    let overlap: usize = (num_chunks - 1) * (kmer_size - 1);
    let rem: usize = seq_len % num_chunks;
    let q1: usize = seq_len / num_chunks;
    let q2: usize = (rem + overlap) / num_chunks;
    proof {
        let r2 = (rem + overlap) % c;
        lemma_fundamental_div_mod(n, c);
        lemma_fundamental_div_mod(rem + overlap, c);
        assert(n + overlap == (q1 + q2) * c + r2) by (nonlinear_arith)
            requires
                n == c * q1 + rem,
                rem + overlap == c * q2 + r2,
        ;
        if c == 1 {
            assert(overlap == 0) by (nonlinear_arith)
                requires
                    overlap == (c - 1) * (kmer_size - 1),
                    c == 1,
            ;
            assert(q2 == 0);
        } else {
            assert(q1 + q2 <= usize::MAX) by (nonlinear_arith)
                requires
                    n + overlap == (q1 + q2) * c + r2,
                    r2 >= 0,
                    c >= 2,
                    n <= usize::MAX,
                    overlap <= usize::MAX,
            ;
        }
        lemma_fundamental_div_mod_converse(n + overlap, c, q1 + q2, r2);
    }
    let len: usize = q1 + q2;
    assert(len == chunk_len(seq_len as nat, num_chunks as nat, kmer_size as nat));
    if kmer_size > len {
        return Err(SketchError::SequenceTooShort);
    }
    let step: usize = len - (kmer_size - 1);
    let ghost st = step as int;
    proof {
        lemma_fundamental_div_mod(n + overlap, c);
        assert(c * len <= n + overlap) by (nonlinear_arith)
            requires
                n + overlap == c * len + (n + overlap) % c,
                (n + overlap) % c >= 0,
        ;
        assert((c - 1) * st + len <= n) by (nonlinear_arith)
            requires
                c * len <= n + overlap,
                overlap == (c - 1) * (kmer_size - 1),
                st == len - (kmer_size - 1),
        ;
        assert(c * st <= n) by (nonlinear_arith)
            requires
                (c - 1) * st + len <= n,
                st >= 1,
                len >= st,
        ;
    }
    let mut chunk_index: Vec<(usize, usize)> = Vec::new();
    let mut start: usize = 0;
    let mut j: usize = 0;
    while j < num_chunks
        invariant
            j <= num_chunks,
            c == num_chunks,
            n == seq_len,
            st == step,
            st >= 1,
            len >= st,
            (c - 1) * st + len <= n,
            c * st <= n,
            start == j * st,
            len == chunk_len(seq_len as nat, num_chunks as nat, kmer_size as nat),
            step == chunk_step(seq_len as nat, num_chunks as nat, kmer_size as nat),
            chunk_index@.len() == j,
            forall|i: int|
                0 <= i < j ==> (#[trigger] chunk_index@[i]).0 == i * st && chunk_index@[i].1 == i
                    * st + len,
            forall|i: int|
                0 <= i < j ==> #[trigger] chunk_index@[i].0 <= chunk_index@[i].1
                    && chunk_index@[i].1 <= n,
        decreases num_chunks - j,
    {
        assert(j * st + len <= n) by (nonlinear_arith)
            requires
                j < c,
                (c - 1) * st + len <= n,
                st >= 1,
        ;
        chunk_index.push((start, start + len));
        assert(j * st + st == (j + 1) * st) by (nonlinear_arith);
        start = start + step;
        j = j + 1;
    }
    chunk_index.push((start, seq_len));
    Ok(chunk_index)
}

} // verus!
