//! Sequence file kinds, told apart by the file name's ending.
use vstd::prelude::*;
use vstd::string::StringSliceAdditionalSpecFns;

verus! {

/// Whether a file is compressed.
#[derive(Debug, Clone, Copy, PartialEq, Eq, Structural)]
pub enum FileType {
    Plain,
    Gzip,
}

/// The record format of a sequence file, and its compression.
#[derive(Debug, Clone, Copy, PartialEq, Eq, Structural)]
pub enum FastxFile {
    Fastq(FileType),
    Fasta(FileType),
}

/// Whether `s` ends with `suf`.
pub open spec fn ends_with(s: Seq<u8>, suf: Seq<u8>) -> bool {
    suf.len() <= s.len() && s.subrange(s.len() - suf.len(), s.len() as int) == suf
}

/// `.gz`
pub open spec fn dot_gz() -> Seq<u8> {
    seq![0x2eu8, 0x67u8, 0x7au8]
}

/// `.fastq`
pub open spec fn dot_fastq() -> Seq<u8> {
    seq![0x2eu8, 0x66u8, 0x61u8, 0x73u8, 0x74u8, 0x71u8]
}

/// `.fq`
pub open spec fn dot_fq() -> Seq<u8> {
    seq![0x2eu8, 0x66u8, 0x71u8]
}

/// `.fasta`
pub open spec fn dot_fasta() -> Seq<u8> {
    seq![0x2eu8, 0x66u8, 0x61u8, 0x73u8, 0x74u8, 0x61u8]
}

/// `.fna`
pub open spec fn dot_fna() -> Seq<u8> {
    seq![0x2eu8, 0x66u8, 0x6eu8, 0x61u8]
}

/// `.fsa`
pub open spec fn dot_fsa() -> Seq<u8> {
    seq![0x2eu8, 0x66u8, 0x73u8, 0x61u8]
}

/// `.fa`
pub open spec fn dot_fa() -> Seq<u8> {
    seq![0x2eu8, 0x66u8, 0x61u8]
}

/// The kind of a file by its name: `.fastq.gz` and `.fq.gz` are gzipped
/// FASTQ; `.fasta`, `.fna`, `.fsa` and `.fa`, each optionally followed by
/// `.gz`, are FASTA, plain or gzipped; any other name has no kind.
pub open spec fn file_kind(name: Seq<u8>) -> Option<FastxFile> {
    let gz = ends_with(name, dot_gz());
    let base = if gz {
        name.subrange(0, name.len() - 3)
    } else {
        name
    };
    if gz && (ends_with(base, dot_fastq()) || ends_with(base, dot_fq())) {
        Some(FastxFile::Fastq(FileType::Gzip))
    } else if ends_with(base, dot_fasta()) || ends_with(base, dot_fna()) || ends_with(
        base,
        dot_fsa(),
    ) || ends_with(base, dot_fa()) {
        Some(
            FastxFile::Fasta(
                if gz {
                    FileType::Gzip
                } else {
                    FileType::Plain
                },
            ),
        )
    } else {
        None
    }
}

/// Whether the first `end` bytes of `name` end with `suf`.
fn ends_with_at(name: &[u8], end: usize, suf: &[u8]) -> (r: bool)
    requires
        end <= name@.len(),
    ensures
        r == ends_with(name@.subrange(0, end as int), suf@),
{
    let ghost head = name@.subrange(0, end as int);
    if suf.len() > end {
        return false;
    }
    let off: usize = end - suf.len();
    let mut i: usize = 0;
    while i < suf.len()
        invariant
            off + suf@.len() == end,
            end <= name@.len(),
            head == name@.subrange(0, end as int),
            i <= suf@.len(),
            forall|j: int| 0 <= j < i ==> name@[off + j] == suf@[j],
        decreases suf@.len() - i,
    {
        if name[off + i] != suf[i] {
            assert(head.subrange(off as int, end as int)[i as int] != suf@[i as int]);
            return false;
        }
        i = i + 1;
    }
    assert(head.subrange(off as int, end as int) =~= suf@);
    true
}

/// Whether a file name ends with `.gz`.
fn file_is_gzip(name: &[u8]) -> (r: bool)
    ensures
        r == ends_with(name@, dot_gz()),
{
    let gz: [u8; 3] = [0x2e, 0x67, 0x7a];
    assert(gz@ =~= dot_gz());
    assert(name@.subrange(0, name@.len() as int) =~= name@);
    ends_with_at(name, name.len(), gz.as_slice())
}

/// Gzipped FASTQ, or nothing.
fn file_is_fastq(name: &[u8]) -> (r: Option<FastxFile>)
    ensures
        r == (if file_kind(name@) == Some(FastxFile::Fastq(FileType::Gzip)) {
            file_kind(name@)
        } else {
            None
        }),
{
    let fastq: [u8; 6] = [0x2e, 0x66, 0x61, 0x73, 0x74, 0x71];
    let fq: [u8; 3] = [0x2e, 0x66, 0x71];
    assert(fastq@ =~= dot_fastq());
    assert(fq@ =~= dot_fq());
    if !file_is_gzip(name) {
        return None;
    }
    let end: usize = name.len() - 3;
    if ends_with_at(name, end, fastq.as_slice()) || ends_with_at(name, end, fq.as_slice()) {
        Some(FastxFile::Fastq(FileType::Gzip))
    } else {
        None
    }
}

/// FASTA, plain or gzipped, or nothing.
fn file_is_fasta(name: &[u8]) -> (r: Option<FastxFile>)
    ensures
        file_kind(name@) != Some(FastxFile::Fastq(FileType::Gzip)) ==> r == file_kind(name@),
{
    let fasta: [u8; 6] = [0x2e, 0x66, 0x61, 0x73, 0x74, 0x61];
    let fna: [u8; 4] = [0x2e, 0x66, 0x6e, 0x61];
    let fsa: [u8; 4] = [0x2e, 0x66, 0x73, 0x61];
    let fa: [u8; 3] = [0x2e, 0x66, 0x61];
    assert(fasta@ =~= dot_fasta());
    assert(fna@ =~= dot_fna());
    assert(fsa@ =~= dot_fsa());
    assert(fa@ =~= dot_fa());
    let is_gzip = file_is_gzip(name);
    let end: usize = if is_gzip {
        name.len() - 3
    } else {
        name.len()
    };
    assert(name@.subrange(0, name@.len() as int) =~= name@);
    if ends_with_at(name, end, fasta.as_slice()) || ends_with_at(name, end, fna.as_slice())
        || ends_with_at(name, end, fsa.as_slice()) || ends_with_at(name, end, fa.as_slice()) {
        if is_gzip {
            Some(FastxFile::Fasta(FileType::Gzip))
        } else {
            Some(FastxFile::Fasta(FileType::Plain))
        }
    } else {
        None
    }
}

/// The kind of a sequence file by its name (see `file_kind`); `None` when
/// the name has no recognised ending.
pub fn fastx_file_type(fastx: &str) -> (r: Option<FastxFile>)
    ensures
        r == file_kind(fastx.spec_bytes()),
{
    let name = fastx.as_bytes();
    if let Some(fastxfile) = file_is_fastq(name) {
        return Some(fastxfile);
    }
    file_is_fasta(name)
}

} // verus!
