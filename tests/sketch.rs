use std::collections::HashSet;

use nt_sketch::fastx::{fastx_file_type, FastxFile, FileType};
use nt_sketch::kmers::generate_kmers;
use nt_sketch::kmers_simd::simd_u64_64_encoding;
use nt_sketch::kmers_utils::{byte_to_seq, chunk_pos, decode, SketchError};
use nt_sketch::kmers_vanilla::{kmerize, mm_hash64};

/// A sequence of 1000 symbols whose 994 canonical 7-mers are all distinct.
const DISTINCT_7MERS: &str = "GCTAAACTGGCTCCTTTCCAATTTACTGGTAAGCTATCCCAGAAATTGAGATAATCGGCGGAACAGGTGTCAGCGGCTTACGGCACCGTGTGACCGGGAGATGCGTCGGGCAAGGGGAGGCGGAGTTCACGCTTAGGCCGGGCGCAAAGCGTACGACTCTCTGGAGGTTTGGGCCAGTATGTCAGTGCAGACCAGTCAACTTTTTATTACTGATTCTTGAGTGAATTTCAGAACACGAGTGTCTGATCGAGGAGGCTCCCACGATTAGGCAGGGAGGGGTCACCCCACGGTATGTATTAAGAGCCACATCTAGGTACGGTGGGATGTAAGTGTCCCGTTTGAGGCGTAACAGCCAAGAGAGGTCCGGCGGGTCAGGACTTAGAATGAACAGCTGGCGGTTAAACGTCTAACTCTACGAGTCTCAGCCCAGTAGCCTCGCTTTCTCTTTCGGAACGTCGCCCCGTCTCTTAGATACGTCTGGTGACTCGAGCTTCCAAACATTGCTCGAACTCGTTCATAACGAGCTCCTCATATCCACTAGCGTGGGCATGTACTCTCGCTGGTGTCTATAGGAAGACTCAGAAAGAATGCTTTCGCCCTGGATGCCTCCGTTCCCGCGTACCGCCTAGAAATCAGAATTGACGGGCGTATTGACTTCCTCCATTGCCGCTTGCGCTCCATATGTCCTGCAGTTAGTTATGGTATACTCCAGTGGTTTCTCCTAGGGGTGGGGGCGCCTATGTCGTAGCGTATCCGGCTGGCTGGTCGCACTGCACGGGATCTCACACCGCCGCAAAATAAAGCTCAAAATCGAGACATGAATCGCCTCGAGAGAACCTGGACCCTTTACCACCTTTAGCGTCGTGACTGTGACATCCTCGGCCTTCCAGACTGGCGTACTCAGCAGAACCCCATAGGGTACGAGCGTTTCATCGATATTCCGTGTTTCGGGCTGCGAGGTTCATGACCTATTGGGACTGAGTGCTGGGGCGGTCCCAGT";

fn seq() -> &'static [u8] {
    DISTINCT_7MERS.as_bytes()
}

fn reverse_complement(s: &[u8]) -> Vec<u8> {
    s.iter()
        .rev()
        .map(|b| match b {
            b'A' => b'T',
            b'C' => b'G',
            b'G' => b'C',
            b'T' => b'A',
            _ => b'T',
        })
        .collect()
}

#[test]
fn codec_maps_letters_and_folds_others_to_zero() {
    assert_eq!(byte_to_seq(b'A'), 0);
    assert_eq!(byte_to_seq(b'a'), 0);
    assert_eq!(byte_to_seq(b'C'), 1);
    assert_eq!(byte_to_seq(b'c'), 1);
    assert_eq!(byte_to_seq(b'G'), 2);
    assert_eq!(byte_to_seq(b'g'), 2);
    assert_eq!(byte_to_seq(b'T'), 3);
    assert_eq!(byte_to_seq(b'u'), 3);
    assert_eq!(byte_to_seq(b'U'), 3);
    assert_eq!(byte_to_seq(b'N'), 0);
    assert_eq!(byte_to_seq(b'n'), 0);
    assert_eq!(byte_to_seq(2), 0);
    assert_eq!(byte_to_seq(255), 0);
}

#[test]
fn decode_gives_upper_case_letters() {
    assert_eq!(decode(0), b'A');
    assert_eq!(decode(1), b'C');
    assert_eq!(decode(2), b'G');
    assert_eq!(decode(3), b'T');
}

#[test]
fn hash_mix_exact_values() {
    assert_eq!(mm_hash64(0), 8633297058295171728);
    assert_eq!(mm_hash64(1), 2277233599615942273);
    assert_eq!(mm_hash64(12345), 16633984923663670725);
    assert_eq!(mm_hash64(u64::MAX), mm_hash64(u64::MAX));
}

#[test]
fn chunk_plan_of_a_thousand_symbols() {
    let plan = chunk_pos(1000, 64, 7).unwrap();
    assert_eq!(plan.len(), 65);
    // window length (1000 + 63 * 6) / 64 = 21, step 21 - 6 = 15
    for (j, &(start, end)) in plan.iter().take(64).enumerate() {
        assert_eq!(start, 15 * j);
        assert_eq!(end, 15 * j + 21);
    }
    assert_eq!(plan[64], (960, 1000));
}

#[test]
fn chunk_plan_with_windows_exactly_k_long() {
    // (100 + 63 * 20) / 64 = 21 == k
    let plan = chunk_pos(100, 64, 21).unwrap();
    assert_eq!(plan[0], (0, 21));
    assert_eq!(plan[63], (63, 84));
    assert_eq!(plan[64], (64, 100));
}

#[test]
fn chunk_plan_rejects_too_short_sequence() {
    // (50 + 63 * 20) / 64 = 20 < 21
    assert_eq!(chunk_pos(50, 64, 21), Err(SketchError::SequenceTooShort));
    assert_eq!(chunk_pos(0, 64, 7), Err(SketchError::SequenceTooShort));
}

#[test]
fn kmerize_exact_sketch() {
    let s = b"ACGTTGCAAGGCTTAC";
    let got = kmerize(7, 1, s).unwrap();
    let want: HashSet<u64> = [
        2323283837405721722,
        3100301287708319884,
        7061064553047058632,
        8637440308020897123,
        10154513209685788175,
        11811770384361256684,
        13227901405515390622,
        16070750346792286143,
        16434467264421592047,
        18175752624571628841,
    ]
    .into_iter()
    .collect();
    assert_eq!(got, want);
}

#[test]
fn kmerize_exact_downsampled_sketch() {
    let s = b"ACGTTGCAAGGCTTAC";
    let got = kmerize(7, 2, s).unwrap();
    let want: HashSet<u64> = [
        2323283837405721722,
        3100301287708319884,
        7061064553047058632,
        8637440308020897123,
    ]
    .into_iter()
    .collect();
    assert_eq!(got, want);
}

#[test]
fn kmerize_rejects_bad_sizes() {
    let s = b"ACGTTGCAAGGCTTAC";
    assert_eq!(kmerize(6, 1, s), Err(SketchError::KmerSizeOutOfRange));
    assert_eq!(kmerize(32, 1, s), Err(SketchError::KmerSizeOutOfRange));
    assert_eq!(kmerize(16, 1, s), Err(SketchError::SequenceTooShort));
    assert_eq!(kmerize(7, 1, b""), Err(SketchError::SequenceTooShort));
}

#[test]
fn no_downsampling_keeps_every_distinct_kmer() {
    assert_eq!(generate_kmers(seq(), 7, 1).unwrap().len(), 994);
    assert_eq!(generate_kmers(&seq()[..867], 21, 1).unwrap().len(), 847);
    assert_eq!(generate_kmers(&seq()[..999], 31, 1).unwrap().len(), 969);
}

#[test]
fn whole_sequence_matches_scalar_sketch() {
    for k in [7usize, 13, 21, 31] {
        for ds in [1u64, 2, 10] {
            assert_eq!(generate_kmers(seq(), k, ds).unwrap(), kmerize(k, ds, seq()).unwrap());
        }
    }
}

#[test]
fn reverse_complement_has_same_sketch() {
    let rc = reverse_complement(seq());
    for k in [7usize, 21, 31] {
        assert_eq!(generate_kmers(&rc, k, 1).unwrap(), generate_kmers(seq(), k, 1).unwrap());
    }
}

#[test]
fn planned_windows_lose_no_kmer() {
    let k = 21;
    let plan = chunk_pos(seq().len(), 64, k).unwrap();
    let mut union: HashSet<u64> = HashSet::new();
    for &(start, end) in &plan {
        union.extend(kmerize(k, 1, &seq()[start..end]).unwrap());
    }
    assert_eq!(union, kmerize(k, 1, seq()).unwrap());
}

#[test]
fn lanes_match_scalar_windows() {
    for k in [7usize, 19, 31] {
        let len = 40;
        let windows: Vec<&[u8]> = (0..64).map(|j| &seq()[j * 15..j * 15 + len]).collect();
        for ds in [1u64, 2, 10] {
            let mut want: HashSet<u64> = HashSet::new();
            for w in &windows {
                want.extend(kmerize(k, ds, w).unwrap());
            }
            assert_eq!(simd_u64_64_encoding(k, windows.clone(), ds), want);
        }
    }
}

#[test]
fn larger_factor_keeps_a_subset() {
    let s1 = generate_kmers(seq(), 21, 1).unwrap();
    let s2 = generate_kmers(seq(), 21, 2).unwrap();
    let s10 = generate_kmers(seq(), 21, 10).unwrap();
    assert_eq!(s1.len(), 980);
    assert_eq!(s2.len(), 474);
    assert_eq!(s10.len(), 112);
    assert!(s2.is_subset(&s1));
    assert!(s10.is_subset(&s2));
}

#[test]
fn repeated_calls_agree() {
    let a = generate_kmers(seq(), 17, 3).unwrap();
    let b = generate_kmers(seq(), 17, 3).unwrap();
    assert_eq!(a, b);
}

#[test]
fn generation_fails_on_bad_parameters() {
    assert_eq!(generate_kmers(seq(), 6, 1), Err(SketchError::KmerSizeOutOfRange));
    assert_eq!(generate_kmers(seq(), 32, 1), Err(SketchError::KmerSizeOutOfRange));
    assert_eq!(generate_kmers(&seq()[..20], 21, 1), Err(SketchError::SequenceTooShort));
    assert_eq!(generate_kmers(b"", 7, 1), Err(SketchError::SequenceTooShort));
    assert_eq!(generate_kmers(&seq()[..50], 21, 1), Err(SketchError::SequenceTooShort));
}

#[test]
fn residual_window_shorter_than_k_is_handled() {
    // 262 + 63 * 6 = 640 = 64 * 10: the last window holds only k - 1 symbols
    let s = &seq()[..262];
    let plan = chunk_pos(s.len(), 64, 7).unwrap();
    assert_eq!(plan[64].1 - plan[64].0, 6);
    assert_eq!(generate_kmers(s, 7, 1).unwrap(), kmerize(7, 1, s).unwrap());
    assert_eq!(generate_kmers(s, 7, 1).unwrap().len(), 256);
}

#[test]
fn ambiguous_symbols_read_as_a() {
    let mut with_n = seq()[..300].to_vec();
    let mut with_a = with_n.clone();
    with_n[100] = b'N';
    with_a[100] = b'A';
    assert_eq!(generate_kmers(&with_n, 9, 1).unwrap(), generate_kmers(&with_a, 9, 1).unwrap());
    let lower: Vec<u8> = seq()[..300].iter().map(|b| b.to_ascii_lowercase()).collect();
    assert_eq!(generate_kmers(&lower, 9, 1).unwrap(), generate_kmers(&seq()[..300], 9, 1).unwrap());
}

#[test]
fn file_kinds_by_name() {
    assert_eq!(fastx_file_type("reads.fastq.gz"), Some(FastxFile::Fastq(FileType::Gzip)));
    assert_eq!(fastx_file_type("reads.fq.gz"), Some(FastxFile::Fastq(FileType::Gzip)));
    assert_eq!(fastx_file_type("ref.fasta"), Some(FastxFile::Fasta(FileType::Plain)));
    assert_eq!(fastx_file_type("ref.fa"), Some(FastxFile::Fasta(FileType::Plain)));
    assert_eq!(fastx_file_type("ref.fna.gz"), Some(FastxFile::Fasta(FileType::Gzip)));
    assert_eq!(fastx_file_type("ref.fsa.gz"), Some(FastxFile::Fasta(FileType::Gzip)));
    assert_eq!(fastx_file_type("reads.fastq"), None);
    assert_eq!(fastx_file_type("notes.txt.gz"), None);
    assert_eq!(fastx_file_type("fa"), None);
    assert_eq!(fastx_file_type(""), None);
}
