//! Mathematical model of sketches: nucleotide codes, k-mer codes as base-4
//! numbers, canonical k-mers, the hash mix and the accepted hash sets.
use vstd::prelude::*;
use vstd::wrapping::u64_specs::wrapping_add;

verus! {

/// Smallest accepted k-mer size.
pub const MIN_KMER_SIZE: usize = 7;

/// Largest accepted k-mer size (2k bits must fit a 64-bit code).
pub const MAX_KMER_SIZE: usize = 31;

/// Two-bit code of a nucleotide byte: A=0, C=1, G=2, T/U=3 (either case);
/// every other byte reads as 0.
pub open spec fn nt_code(b: u8) -> nat {
    if b == 0x43 || b == 0x63 {
        1
    } else if b == 0x47 || b == 0x67 {
        2
    } else if b == 0x54 || b == 0x74 || b == 0x55 || b == 0x75 {
        3
    } else {
        0
    }
}

/// Four to the power `n`.
pub open spec fn pow4(n: nat) -> nat
    decreases n,
{
    if n == 0 {
        1
    } else {
        4 * pow4((n - 1) as nat)
    }
}

/// Forward code of the `len` symbols starting at `i`: a base-4 number whose
/// most significant digit is the first symbol.
pub open spec fn fwd_code(s: Seq<u8>, i: int, len: nat) -> nat
    decreases len,
{
    if len == 0 {
        0
    } else {
        fwd_code(s, i, (len - 1) as nat) * 4 + nt_code(s[i + len - 1])
    }
}

/// Reverse-complement code of the `len` symbols starting at `i`: the
/// complement `3 - code` of each symbol, the first symbol least significant.
pub open spec fn rev_code(s: Seq<u8>, i: int, len: nat) -> nat
    decreases len,
{
    if len == 0 {
        0
    } else {
        (3 - nt_code(s[i])) as nat + 4 * rev_code(s, i + 1, (len - 1) as nat)
    }
}

/// Canonical code of the k-mer at `i`: the smaller of its two strand codes.
pub open spec fn canonical(s: Seq<u8>, i: int, k: nat) -> nat {
    let f = fwd_code(s, i, k);
    let r = rev_code(s, i, k);
    if f < r {
        f
    } else {
        r
    }
}

/// The avalanche mix, all arithmetic modulo 2^64.
pub open spec fn mix(x: u64) -> u64 {
    let a = !wrapping_add(x, x << 21u64);
    let b = a ^ (a >> 24u64);
    let c = wrapping_add(wrapping_add(b, b << 3u64), b << 8u64);
    let d = c ^ (c >> 14u64);
    let e = wrapping_add(wrapping_add(d, d << 2u64), d << 4u64);
    let f = e ^ (e >> 28u64);
    wrapping_add(f, f << 31u64)
}

/// Acceptance threshold of downsample factor `ds`.
pub open spec fn threshold(ds: u64) -> u64
    recommends
        ds >= 1,
{
    (u64::MAX / ds) as u64
}

/// Hash of the k-mer at `i`.
pub open spec fn kmer_hash(s: Seq<u8>, i: int, k: nat) -> u64 {
    mix(canonical(s, i, k) as u64)
}

/// Hashes of the k-mers of `s` that start at or after `lo` and end at or
/// before `hi`, and pass the threshold of `ds`.
pub open spec fn hashes_in(s: Seq<u8>, k: nat, ds: u64, lo: int, hi: int) -> Set<u64> {
    Set::new(
        |h: u64|
            exists|i: int|
                lo <= i && i + k <= hi && #[trigger] kmer_hash(s, i, k) == h && h <= threshold(
                    ds,
                ),
    )
}

/// Sketch of `s`: the hashes of all its canonical k-mers that pass the
/// threshold of `ds`.
pub open spec fn sketch(s: Seq<u8>, k: nat, ds: u64) -> Set<u64> {
    hashes_in(s, k, ds, 0, s.len() as int)
}

/// The byte sequences that a list of slices views.
pub open spec fn slice_views(c: Seq<&[u8]>) -> Seq<Seq<u8>> {
    c.map_values(|x: &[u8]| x@)
}

/// Union of the sketches of the lanes `ws`.
pub open spec fn lanes_sketch(ws: Seq<Seq<u8>>, k: nat, ds: u64) -> Set<u64> {
    Set::new(|h: u64| exists|j: int| 0 <= j < ws.len() && #[trigger] sketch(ws[j], k, ds).contains(h))
}

/// End of what a lane has read midway through a step: lanes below `m` have
/// read `n + 1` symbols, the others `n`.
pub open spec fn lane_end(n: int, m: int, j: int) -> int {
    if j < m {
        n + 1
    } else {
        n
    }
}

/// Union, over the lanes, of the hashes of the k-mers each lane has read.
pub open spec fn lanes_in(ws: Seq<Seq<u8>>, k: nat, ds: u64, n: int, m: int) -> Set<u64> {
    Set::new(
        |h: u64|
            exists|j: int|
                0 <= j < ws.len() && #[trigger] hashes_in(ws[j], k, ds, 0, lane_end(n, m, j)).contains(
                    h,
                ),
    )
}

/// Length of each of the `c` equal windows that split `n` symbols with
/// overlaps of `k - 1`.
pub open spec fn chunk_len(n: nat, c: nat, k: nat) -> int {
    (n + (c - 1) * (k - 1)) / (c as int)
}

/// Distance between the starts of consecutive equal windows.
pub open spec fn chunk_step(n: nat, c: nat, k: nat) -> int {
    chunk_len(n, c, k) - (k - 1)
}

/// The windows of a chunk plan: `c` equal windows, each starting one step
/// after the previous, then the rest of the sequence.
pub open spec fn is_chunk_plan(v: Seq<(usize, usize)>, n: nat, c: nat, k: nat) -> bool {
    let l = chunk_len(n, c, k);
    let st = chunk_step(n, c, k);
    &&& v.len() == c + 1
    &&& forall|j: int| 0 <= j < c ==> (#[trigger] v[j]).0 == j * st && v[j].1 == j * st + l
    &&& v[c as int].0 == c * st && v[c as int].1 == n
    &&& forall|j: int| 0 <= j <= c ==> #[trigger] v[j].0 <= v[j].1 && v[j].1 <= n
}

/// Union of the sketches of the windows of `s` that the ranges `v` mark.
pub open spec fn windows_sketch(s: Seq<u8>, v: Seq<(usize, usize)>, k: nat, ds: u64) -> Set<u64> {
    Set::new(
        |h: u64|
            exists|j: int|
                0 <= j < v.len() && #[trigger] sketch(s.subrange(v[j].0 as int, v[j].1 as int), k, ds).contains(
                    h,
                ),
    )
}

/// Whether `t` reads as the reverse complement of `s`: same length, and each
/// symbol of `t` complements the mirrored symbol of `s`.
pub open spec fn is_reverse_complement(t: Seq<u8>, s: Seq<u8>) -> bool {
    &&& t.len() == s.len()
    &&& forall|i: int| 0 <= i < s.len() ==> #[trigger] nt_code(t[i]) + nt_code(s[s.len() - 1 - i]) == 3
}

/// Whether `k` is an accepted k-mer size.
pub open spec fn valid_k(k: usize) -> bool {
    MIN_KMER_SIZE <= k <= MAX_KMER_SIZE
}

/// Where a rolling encoder stands after reading `n` symbols: the window
/// of the last `k` symbols read, or all of them while fewer than `k`.
pub open spec fn roll_start(n: nat, k: nat) -> int {
    if n >= k {
        n - k
    } else {
        0
    }
}

pub open spec fn roll_len(n: nat, k: nat) -> nat {
    if n >= k {
        k
    } else {
        n
    }
}

/// The forward and reverse rolling codes `f` and `r` of `s` after `n`
/// symbols: the reverse code of a partial window sits in the high digits.
pub open spec fn rolled(s: Seq<u8>, n: nat, k: nat, f: nat, r: nat) -> bool {
    &&& f == fwd_code(s, roll_start(n, k), roll_len(n, k))
    &&& r == rev_code(s, roll_start(n, k), roll_len(n, k)) * pow4((k - roll_len(n, k)) as nat)
}

pub proof fn lemma_pow4_pos(n: nat)
    ensures
        pow4(n) >= 1,
    decreases n,
{
    if n > 0 {
        lemma_pow4_pos((n - 1) as nat);
    }
}

pub proof fn lemma_pow4_add(a: nat, b: nat)
    ensures
        pow4(a + b) == pow4(a) * pow4(b),
    decreases a,
{
    if a > 0 {
        let a1 = (a - 1) as nat;
        lemma_pow4_add(a1, b);
        let p = pow4(a1);
        let q = pow4(b);
        assert(pow4(a1 + b + 1) == 4 * pow4(a1 + b));
        assert(a1 + b + 1 == a + b);
        assert(pow4(a) == 4 * p);
        assert(4 * (p * q) == (4 * p) * q) by (nonlinear_arith);
    } else {
        assert(pow4(0) == 1);
        assert(a + b == b);
        assert(1 * pow4(b) == pow4(b));
    }
}

pub proof fn lemma_code_bounds(s: Seq<u8>, i: int, len: nat)
    ensures
        fwd_code(s, i, len) < pow4(len),
        rev_code(s, i, len) < pow4(len),
    decreases len,
{
    if len > 0 {
        lemma_code_bounds(s, i, (len - 1) as nat);
        lemma_code_bounds(s, i + 1, (len - 1) as nat);
        let p = pow4((len - 1) as nat);
        let a = fwd_code(s, i, (len - 1) as nat);
        let b = rev_code(s, i + 1, (len - 1) as nat);
        let c = nt_code(s[i + len - 1]);
        let d = (3 - nt_code(s[i])) as nat;
        assert(a * 4 + c < 4 * p) by (nonlinear_arith)
            requires
                a < p,
                c < 4,
        ;
        assert(d + 4 * b < 4 * p) by (nonlinear_arith)
            requires
                b < p,
                d < 4,
        ;
    }
}

/// The forward code with its first symbol split off.
pub proof fn lemma_fwd_first(s: Seq<u8>, i: int, len: nat)
    requires
        len >= 1,
    ensures
        fwd_code(s, i, len) == nt_code(s[i]) * pow4((len - 1) as nat) + fwd_code(
            s,
            i + 1,
            (len - 1) as nat,
        ),
    decreases len,
{
    if len == 1 {
        assert(fwd_code(s, i, 0) == 0);
        assert(fwd_code(s, i + 1, 0) == 0);
    } else {
        lemma_fwd_first(s, i, (len - 1) as nat);
        let c = nt_code(s[i]);
        let p = pow4((len - 2) as nat);
        let t = fwd_code(s, i + 1, (len - 2) as nat);
        assert(pow4((len - 1) as nat) == 4 * p);
        assert(fwd_code(s, i + 1, (len - 1) as nat) == t * 4 + nt_code(s[i + len - 1]));
        assert((c * p + t) * 4 == c * (4 * p) + t * 4) by (nonlinear_arith);
    }
}

/// The reverse code with its last symbol split off.
pub proof fn lemma_rev_last(s: Seq<u8>, i: int, len: nat)
    requires
        len >= 1,
    ensures
        rev_code(s, i, len) == rev_code(s, i, (len - 1) as nat) + (3 - nt_code(s[i + len - 1]))
            * pow4((len - 1) as nat),
    decreases len,
{
    if len == 1 {
        assert(rev_code(s, i + 1, 0) == 0);
        assert(rev_code(s, i, 0) == 0);
    } else {
        lemma_rev_last(s, i + 1, (len - 1) as nat);
        let d = (3 - nt_code(s[i + len - 1])) as nat;
        let p = pow4((len - 2) as nat);
        let t = rev_code(s, i + 1, (len - 2) as nat);
        assert(pow4((len - 1) as nat) == 4 * p);
        assert(rev_code(s, i, (len - 1) as nat) == (3 - nt_code(s[i])) as nat + 4 * t);
        assert(rev_code(s, i + 1, (len - 1) as nat) == t + d * p);
        assert(rev_code(s, i, len) == (3 - nt_code(s[i])) as nat + 4 * rev_code(
            s,
            i + 1,
            (len - 1) as nat,
        ));
        assert(4 * (t + d * p) == 4 * t + d * (4 * p)) by (nonlinear_arith);
    }
}

/// One step of the rolling encoders: the forward code takes the new symbol
/// in its low digit and drops the oldest, the reverse code takes its
/// complement in its high digit.
pub proof fn lemma_roll_step(s: Seq<u8>, n: nat, k: nat, f: nat, r: nat)
    requires
        k >= 1,
        n < s.len(),
        rolled(s, n, k, f, r),
    ensures
        rolled(
            s,
            n + 1,
            k,
            (f * 4 + nt_code(s[n as int])) % pow4(k),
            r / 4 + ((3 - nt_code(s[n as int])) as nat) * pow4((k - 1) as nat),
        ),
{
    let c = nt_code(s[n as int]);
    let d = (3 - c) as nat;
    let pk = pow4(k);
    let pk1 = pow4((k - 1) as nat);
    assert(pk == 4 * pk1);
    lemma_pow4_pos((k - 1) as nat);
    if n < k {
        lemma_code_bounds(s, 0, n + 1);
        assert(fwd_code(s, 0, n + 1) == f * 4 + c);
        if n + 1 < k {
            lemma_pow4_add(n + 1, (k - n - 1) as nat);
            lemma_pow4_pos((k - n - 1) as nat);
            assert(pow4(n + 1) <= pk) by (nonlinear_arith)
                requires
                    pk == pow4(n + 1) * pow4((k - n - 1) as nat),
                    pow4((k - n - 1) as nat) >= 1,
            ;
        }
        assert((f * 4 + c) % pk == f * 4 + c) by (nonlinear_arith)
            requires
                f * 4 + c < pk,
                f * 4 + c >= 0,
        ;
        let q = pow4((k - n - 1) as nat);
        let rv = rev_code(s, 0, n);
        assert(pow4((k - n) as nat) == 4 * q);
        assert(r == (rv * q) * 4) by (nonlinear_arith)
            requires
                r == rv * (4 * q),
        ;
        assert(r / 4 == rv * q) by (nonlinear_arith)
            requires
                r == (rv * q) * 4,
        ;
        lemma_rev_last(s, 0, n + 1);
        lemma_pow4_add(n, (k - n - 1) as nat);
        assert((rv + d * pow4(n)) * q == rv * q + d * (pow4(n) * q)) by (nonlinear_arith);
    } else {
        let st = n - k;
        lemma_code_bounds(s, st + 1, k);
        assert(fwd_code(s, st, k + 1) == f * 4 + c);
        lemma_fwd_first(s, st, k + 1);
        let t = fwd_code(s, st + 1, k);
        let a = nt_code(s[st]);
        assert((a * pk + t) % pk == t) by (nonlinear_arith)
            requires
                0 <= t < pk,
                a >= 0,
        ;
        let rt = rev_code(s, st + 1, (k - 1) as nat);
        let e = (3 - nt_code(s[st])) as nat;
        assert(pow4(0) == 1);
        assert(roll_len(n, k) == k && roll_start(n, k) == st);
        assert(r == rev_code(s, st, k) * pow4(0));
        assert(r == rev_code(s, st, k)) by (nonlinear_arith)
            requires
                r == rev_code(s, st, k) * pow4(0),
                pow4(0) == 1,
        ;
        assert(r == e + 4 * rt);
        assert(r / 4 == rt) by (nonlinear_arith)
            requires
                r == e + 4 * rt,
                e < 4,
        ;
        lemma_rev_last(s, st + 1, k);
    }
}

/// What the rolling invariant gives: both codes stay below `4^k`, and once
/// `k` symbols are read the reverse code is that of the last window.
pub proof fn lemma_rolled_facts(s: Seq<u8>, n: nat, k: nat, f: nat, r: nat)
    requires
        k >= 1,
        rolled(s, n, k, f, r),
    ensures
        f < pow4(k),
        r < pow4(k),
        n >= k ==> r == rev_code(s, n - k, k),
{
    let len = roll_len(n, k);
    let st = roll_start(n, k);
    lemma_code_bounds(s, st, len);
    lemma_pow4_add(len, (k - len) as nat);
    lemma_pow4_pos((k - len) as nat);
    let q = pow4((k - len) as nat);
    let pl = pow4(len);
    let rv = rev_code(s, st, len);
    assert(f < pow4(k)) by (nonlinear_arith)
        requires
            f < pl,
            q >= 1,
            pow4(k) == pl * q,
    ;
    assert(r < pow4(k)) by (nonlinear_arith)
        requires
            r == rv * q,
            rv < pl,
            q >= 1,
            pow4(k) == pl * q,
    ;
    if n >= k {
        assert(pow4(0) == 1);
        assert(r == rv) by (nonlinear_arith)
            requires
                r == rv * q,
                q == 1,
        ;
    }
}

/// Adding the k-mer that ends at `hi + 1` to the hashes of the k-mers that
/// end at or before `hi`.
pub proof fn lemma_hashes_extend(s: Seq<u8>, k: nat, ds: u64, lo: int, hi: int)
    ensures
        hi + 1 - k >= lo && kmer_hash(s, hi + 1 - k, k) <= threshold(ds) ==> hashes_in(
            s,
            k,
            ds,
            lo,
            hi + 1,
        ) == hashes_in(s, k, ds, lo, hi).insert(kmer_hash(s, hi + 1 - k, k)),
        !(hi + 1 - k >= lo && kmer_hash(s, hi + 1 - k, k) <= threshold(ds)) ==> hashes_in(
            s,
            k,
            ds,
            lo,
            hi + 1,
        ) == hashes_in(s, k, ds, lo, hi),
{
    let p = hi + 1 - k;
    let a = hashes_in(s, k, ds, lo, hi + 1);
    let b = hashes_in(s, k, ds, lo, hi);
    if p >= lo && kmer_hash(s, p, k) <= threshold(ds) {
        assert(a.contains(kmer_hash(s, p, k)));
        assert(a =~= b.insert(kmer_hash(s, p, k)));
    } else {
        assert forall|h: u64| a.contains(h) implies b.contains(h) by {
            let i = choose|i: int|
                lo <= i && i + k <= hi + 1 && #[trigger] kmer_hash(s, i, k) == h && h
                    <= threshold(ds);
            assert(i != p);
        }
        assert(a =~= b);
    }
}

/// Lane `m` reading its next symbol adds what its own hashes gain.
pub proof fn lemma_lanes_step(ws: Seq<Seq<u8>>, k: nat, ds: u64, n: int, m: int)
    requires
        0 <= m < ws.len(),
    ensures
        hashes_in(ws[m], k, ds, 0, n) <= lanes_in(ws, k, ds, n, m),
        lanes_in(ws, k, ds, n, m + 1) == lanes_in(ws, k, ds, n, m).union(
            hashes_in(ws[m], k, ds, 0, n + 1),
        ),
{
    let a = lanes_in(ws, k, ds, n, m);
    let b = lanes_in(ws, k, ds, n, m + 1);
    let hm = hashes_in(ws[m], k, ds, 0, n + 1);
    assert forall|h: u64| hashes_in(ws[m], k, ds, 0, n).contains(h) implies a.contains(h) by {
        assert(lane_end(n, m, m) == n);
    }
    assert forall|h: u64| b.contains(h) implies a.union(hm).contains(h) by {
        let j = choose|j: int|
            0 <= j < ws.len() && #[trigger] hashes_in(ws[j], k, ds, 0, lane_end(n, m + 1, j)).contains(
                h,
            );
        if j != m {
            assert(lane_end(n, m + 1, j) == lane_end(n, m, j));
        }
    }
    assert forall|h: u64| a.union(hm).contains(h) implies b.contains(h) by {
        if a.contains(h) {
            let j = choose|j: int|
                0 <= j < ws.len() && #[trigger] hashes_in(ws[j], k, ds, 0, lane_end(n, m, j)).contains(
                    h,
                );
            if j == m {
                assert(lane_end(n, m, j) == n);
                assert(hashes_in(ws[m], k, ds, 0, n).contains(h));
                let i = choose|i: int|
                    0 <= i && i + k <= n && #[trigger] kmer_hash(ws[m], i, k) == h && h <= threshold(
                        ds,
                    );
                assert(hm.contains(h));
            } else {
                assert(lane_end(n, m + 1, j) == lane_end(n, m, j));
            }
        } else {
            assert(lane_end(n, m + 1, m) == n + 1);
        }
    }
    assert(b =~= a.union(hm));
}

/// A k-mer read inside a window of `s` has the codes it has in `s`.
pub proof fn lemma_codes_in_window(s: Seq<u8>, a: int, b: int, i: int, len: nat)
    requires
        0 <= a <= b <= s.len(),
        0 <= i,
        i + len <= b - a,
    ensures
        fwd_code(s.subrange(a, b), i, len) == fwd_code(s, a + i, len),
        rev_code(s.subrange(a, b), i, len) == rev_code(s, a + i, len),
    decreases len,
{
    if len > 0 {
        lemma_codes_in_window(s, a, b, i, (len - 1) as nat);
        lemma_codes_in_window(s, a, b, i + 1, (len - 1) as nat);
        assert(s.subrange(a, b)[i + len - 1] == s[a + i + len - 1]);
        assert(s.subrange(a, b)[i] == s[a + i]);
    }
}

/// The sketch of a window of `s` is the set of hashes of the k-mers of `s`
/// that lie in that window.
pub proof fn lemma_sketch_of_window(s: Seq<u8>, k: nat, ds: u64, a: int, b: int)
    requires
        0 <= a <= b <= s.len(),
    ensures
        sketch(s.subrange(a, b), k, ds) == hashes_in(s, k, ds, a, b),
{
    let w = s.subrange(a, b);
    let x = sketch(w, k, ds);
    let y = hashes_in(s, k, ds, a, b);
    assert forall|h: u64| x.contains(h) implies y.contains(h) by {
        let i = choose|i: int|
            0 <= i && i + k <= w.len() && #[trigger] kmer_hash(w, i, k) == h && h <= threshold(ds);
        lemma_codes_in_window(s, a, b, i, k);
        assert(kmer_hash(s, a + i, k) == h);
    }
    assert forall|h: u64| y.contains(h) implies x.contains(h) by {
        let i = choose|i: int|
            a <= i && i + k <= b && #[trigger] kmer_hash(s, i, k) == h && h <= threshold(ds);
        lemma_codes_in_window(s, a, b, i - a, k);
        assert(kmer_hash(w, i - a, k) == h);
    }
    assert(x =~= y);
}

/// `1 << 2j` as a base-4 power.
pub proof fn lemma_shl_pow4(j: u64)
    requires
        j <= 31,
    ensures
        (1u64 << ((2 * j) as u64)) as nat == pow4(j as nat),
    decreases j,
{
    if j == 0 {
        assert((1u64 << 0u64) == 1) by (bit_vector);
    } else {
        let b = (2 * (j - 1)) as u64;
        lemma_shl_pow4((j - 1) as u64);
        lemma_shl_step(b);
        assert((b + 2) as u64 == (2 * j) as u64);
    }
}

proof fn lemma_shl_step(b: u64)
    by (bit_vector)
    requires
        b <= 60,
    ensures
        (1u64 << ((b + 2) as u64)) == (1u64 << b) * 4,
{
}

/// The forward update `(f << 2 | nt) & mask` on a code of `b` bits.
pub proof fn lemma_fwd_bits(f: u64, nt: u64, b: u64)
    by (bit_vector)
    requires
        2 <= b <= 62,
        f < (1u64 << b),
        nt < 4,
    ensures
        ((f << 2u64) | nt) & (((1u64 << b) - 1u64) as u64) == (f * 4 + nt) % ((1u64 << b) as int),
{
}

/// The reverse update `(r >> 2) | (d << (b - 2))` on a code of `b` bits.
pub proof fn lemma_rev_bits(r: u64, d: u64, b: u64)
    by (bit_vector)
    requires
        2 <= b <= 62,
        r < (1u64 << b),
        d < 4,
    ensures
        (r >> 2u64) | (d << ((b - 2) as u64)) == r / 4 + d * (1u64 << ((b - 2) as u64)),
{
}

} // verus!
