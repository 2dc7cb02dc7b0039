pub mod png;
pub mod zip;
pub mod png2;
pub mod jpeg;
pub mod jpg;

use std::ops::Range;

use vstd::prelude::*;

use crate::search::pairing::MatchPair;
use crate::search::Match;
use crate::searchlight::config::{FileTypeId, SearchlightConfig};
use crate::validation::jpeg::JpegValidator;
use crate::validation::png::PngValidator;
use crate::validation::zip::ZipValidator;
use crate::utils::fragments_index::{flat_index, frags_len, lemma_frags_len_first};
use crate::utils::spec_simplify;

verus! {

/// A fragment of a carved file: a range of indices into the image.
pub type Fragment = Range<u64>;

/// How valid a potential file was found to be, from best to worst: `Correct`, `Partial`,
/// `FormatError`, `Corrupt`, then `Unrecognised` and `Unanalysed`, which rank alike.
#[derive(Debug, PartialEq, Eq, Clone, Copy, Structural)]
pub enum FileValidationType {
    /// Data is recognised as completely valid for the file format
    Correct,
    /// There is some data missing, but what has been recovered is correct
    Partial,
    /// Mostly correct, but the data doesn't conform to the expectations of the format
    FormatError,
    /// The data is partially recognised, but there are miscellaneous errors
    Corrupt,
    /// The data does not resemble the file format at all
    Unrecognised,
    /// The data has not been analysed
    Unanalysed,
}

/// The rank of a validation type: lower is better; `Unrecognised` and `Unanalysed` rank alike.
pub open spec fn rank(t: FileValidationType) -> int {
    match t {
        FileValidationType::Correct => 0,
        FileValidationType::Partial => 1,
        FileValidationType::FormatError => 2,
        FileValidationType::Corrupt => 3,
        _ => 4,
    }
}

impl FileValidationType {
    /// The worse of the two outcomes; between two outcomes of the worst rank, `self`.
    pub fn worst_of(self, other: FileValidationType) -> (r: FileValidationType)
        ensures
            rank(r) == if rank(self) >= rank(other) { rank(self) } else { rank(other) },
            r == worse(self, other),
    {
        if self == FileValidationType::Correct {
            other
        } else if self == FileValidationType::Partial && other != FileValidationType::Correct {
            other
        } else if self == FileValidationType::FormatError && other != FileValidationType::Correct
            && other != FileValidationType::Partial {
            other
        } else if self == FileValidationType::Corrupt && other != FileValidationType::Correct
            && other != FileValidationType::Partial && other != FileValidationType::FormatError {
            other
        } else {
            self
        }
    }

    /// The snake_case name of the outcome.
    pub fn to_str(&self) -> (s: &'static str)
        ensures
            s@ == match self {
                FileValidationType::Correct => "correct"@,
                FileValidationType::Partial => "partial"@,
                FileValidationType::FormatError => "format_error"@,
                FileValidationType::Corrupt => "corrupt"@,
                FileValidationType::Unrecognised => "unrecognised"@,
                FileValidationType::Unanalysed => "unanalysed"@,
            },
    {
        match self {
            FileValidationType::Correct => "correct",
            FileValidationType::Partial => "partial",
            FileValidationType::FormatError => "format_error",
            FileValidationType::Corrupt => "corrupt",
            FileValidationType::Unrecognised => "unrecognised",
            FileValidationType::Unanalysed => "unanalysed",
        }
    }
}

/// `worst_of` is a maximum on ranks: the result is one of the two outcomes and ranks no better
/// than either; `Correct` leaves the other outcome as it is; swapping or regrouping the outcomes
/// does not change the rank of the result.
pub proof fn lemma_worst_of_is_max(a: FileValidationType, b: FileValidationType, c: FileValidationType)
    ensures
        worse(a, b) == a || worse(a, b) == b,
        rank(worse(a, b)) >= rank(a),
        rank(worse(a, b)) >= rank(b),
        worse(FileValidationType::Correct, a) == a,
        worse(a, FileValidationType::Correct) == a,
        rank(worse(a, b)) == rank(worse(b, a)),
        rank(worse(worse(a, b), c)) == rank(worse(a, worse(b, c))),
{
}

/// The worse of two outcomes, as `worst_of` gives it.
pub open spec fn worse(a: FileValidationType, b: FileValidationType) -> FileValidationType {
    if rank(b) > rank(a) {
        b
    } else {
        a
    }
}

/// Reconstructs and validates a potential file (a header-footer pair) as a file of a particular
/// format, giving the level of validity and the fragments of the file in order (empty if none
/// are recoverable). The cluster size helps reconstruction; a cluster size of 1 means files are
/// not allocated on cluster boundaries.
pub trait FileValidator {
    /// The validation returns (does not panic) on these inputs.
    spec fn validate_ok(
        &self,
        file_data: Seq<u8>,
        file_match: &MatchPair,
        all_matches: Seq<Match>,
        cluster_size: usize,
        config: &SearchlightConfig,
    ) -> bool;

    /// The validation of these inputs may give `result` (outcome and fragments).
    spec fn validate_result(
        &self,
        file_data: Seq<u8>,
        file_match: &MatchPair,
        all_matches: Seq<Match>,
        cluster_size: usize,
        config: &SearchlightConfig,
        result: (FileValidationType, Seq<Fragment>),
    ) -> bool;

    fn validate(
        &self,
        file_data: &[u8],
        file_match: &MatchPair,
        all_matches: &[Match],
        cluster_size: usize,
        config: &SearchlightConfig,
    ) -> (r: FileValidationInfo)
        requires
            self.validate_ok(file_data@, file_match, all_matches@, cluster_size, config),
        ensures
            self.validate_result(
                file_data@,
                file_match,
                all_matches@,
                cluster_size,
                config,
                (r.validation_type, r.fragments@),
            ),
    ;
}

/// The outcome of validating a potential file, with its fragments in order (empty if none are
/// recoverable).
pub struct FileValidationInfo {
    pub validation_type: FileValidationType,
    pub fragments: Vec<Fragment>,
}

impl Default for FileValidationInfo {
    fn default() -> (r: Self)
        ensures
            r.validation_type == FileValidationType::Unanalysed,
            r.fragments@.len() == 0,
    {
        FileValidationInfo { validation_type: FileValidationType::Unanalysed, fragments: Vec::new() }
    }
}

/// One bit step of the reflected CRC-32 register (polynomial 0xEDB88320).
pub open spec fn crc_bit(c: u32) -> u32 {
    if c & 1 == 1 {
        (c >> 1u32) ^ 0xEDB8_8320u32
    } else {
        c >> 1u32
    }
}

/// A byte folded into the CRC-32 register: xored in, then eight bit steps.
pub open spec fn crc_byte(c: u32, b: u8) -> u32 {
    crc_bit(crc_bit(crc_bit(crc_bit(crc_bit(crc_bit(crc_bit(crc_bit(c ^ (b as u32)))))))))
}

/// The CRC-32 register after the bytes, starting from all ones.
pub open spec fn crc_register(data: Seq<u8>) -> u32
    decreases data.len(),
{
    if data.len() == 0 {
        0xFFFF_FFFFu32
    } else {
        crc_byte(crc_register(data.drop_last()), data.last())
    }
}

/// The CRC-32 (IEEE 802.3) checksum of the bytes: the register after them, inverted.
#[verifier::opaque]
pub open spec fn crc32(data: Seq<u8>) -> u32 {
    !crc_register(data)
}

/// `crc32fast::hash`, which its documentation describes as the CRC-32 (IEEE) checksum: the
/// standard reflected CRC-32 that `crc32` states.
#[verifier::external_body]
pub(crate) fn crc32_hash(data: &[u8]) -> (r: u32)
    ensures
        r == crc32(data@),
{
    crc32fast::hash(data)
}

/// Every range is forward and lies within `lo..hi`.
pub open spec fn ranges_within(rs: Seq<Range<u64>>, lo: int, hi: int) -> bool {
    forall|i: int| 0 <= i < rs.len() ==> lo <= (#[trigger] rs[i]).start <= rs[i].end <= hi
}

/// The bytes of `data` in the ranges, concatenated in order.
pub open spec fn gather(data: Seq<u8>, rs: Seq<Range<u64>>) -> Seq<u8>
    decreases rs.len(),
{
    if rs.len() == 0 {
        Seq::empty()
    } else {
        gather(data, rs.drop_last()) + data.subrange(rs.last().start as int, rs.last().end as int)
    }
}

/// Merging adjacent ranges keeps them forward and within the same bounds.
pub proof fn lemma_simplify_within(rs: Seq<Range<u64>>, lo: int, hi: int)
    requires
        ranges_within(rs, lo, hi),
    ensures
        ranges_within(spec_simplify(rs), lo, hi),
        spec_simplify(rs).len() <= rs.len(),
    decreases rs.len(),
{
    if rs.len() > 0 {
        assert(ranges_within(rs.drop_last(), lo, hi)) by {
            assert forall|i: int| 0 <= i < rs.drop_last().len() implies lo <= (
            #[trigger] rs.drop_last()[i]).start <= rs.drop_last()[i].end <= hi by {
                assert(rs.drop_last()[i] == rs[i]);
            }
        }
        lemma_simplify_within(rs.drop_last(), lo, hi);
        assert(rs[rs.len() - 1] == rs.last());
    }
}

/// Merging adjacent ranges leaves the bytes they cover, concatenated in order, unchanged, and
/// so also their total length.
pub proof fn lemma_simplify_keeps_content(data: Seq<u8>, rs: Seq<Range<u64>>)
    requires
        ranges_within(rs, 0, data.len() as int),
    ensures
        gather(data, spec_simplify(rs)) == gather(data, rs),
        frags_len(spec_simplify(rs)) == frags_len(rs),
    decreases rs.len(),
{
    if rs.len() > 0 {
        let n = data.len() as int;
        let init = rs.drop_last();
        assert(ranges_within(init, 0, n)) by {
            assert forall|i: int| 0 <= i < init.len() implies 0 <= (#[trigger] init[i]).start
                <= init[i].end <= n by {
                assert(init[i] == rs[i]);
            }
        }
        lemma_simplify_keeps_content(data, init);
        lemma_simplify_within(init, 0, n);
        let p = spec_simplify(init);
        let x = rs.last();
        assert(rs[rs.len() - 1] == x);
        if p.len() > 0 && p.last().end == x.start {
            let pl = p.last();
            assert(p[p.len() - 1] == pl);
            let q = p.update(p.len() - 1, Range { start: pl.start, end: x.end });
            assert(q.drop_last() =~= p.drop_last());
            assert(q.last() == Range { start: pl.start, end: x.end });
            assert(data.subrange(pl.start as int, x.end as int) =~= data.subrange(
                pl.start as int,
                pl.end as int,
            ) + data.subrange(x.start as int, x.end as int));
            assert(gather(data, q) =~= gather(data, p) + data.subrange(
                x.start as int,
                x.end as int,
            ));
        } else {
            assert(p.push(x).drop_last() =~= p);
        }
    }
}

/// Each position of the concatenated fragments lies within the data the fragments lie in.
pub proof fn lemma_flat_index_within(frags: Seq<Range<u64>>, k: int, n: int)
    requires
        ranges_within(frags, 0, n),
        0 <= k < frags_len(frags),
    ensures
        0 <= flat_index(frags, k) < n,
    decreases frags.len(),
{
    if frags.len() == 0 {
    } else {
        lemma_frags_len_first(frags);
        assert(frags[0] == frags[0]);
        if k >= frags[0].end - frags[0].start {
            assert(ranges_within(frags.drop_first(), 0, n)) by {
                assert forall|i: int| 0 <= i < frags.drop_first().len() implies 0 <= (
                #[trigger] frags.drop_first()[i]).start <= frags.drop_first()[i].end <= n by {
                    assert(frags.drop_first()[i] == frags[i + 1]);
                }
            }
            lemma_flat_index_within(frags.drop_first(), k - (frags[0].end - frags[0].start), n);
        }
    }
}

/// Appends `data[start..end]` to `buf`.
pub(crate) fn append_range(buf: &mut Vec<u8>, data: &[u8], start: usize, end: usize)
    requires
        start <= end <= data@.len(),
    ensures
        final(buf)@ == old(buf)@ + data@.subrange(start as int, end as int),
{
    let mut i = start;
    while i < end
        invariant
            start <= i <= end <= data@.len(),
            buf@ == old(buf)@ + data@.subrange(start as int, i as int),
        decreases end - i,
    {
        buf.push(data[i]);
        assert(data@.subrange(start as int, i + 1) =~= data@.subrange(start as int, i as int).push(
            data@[i as int],
        ));
        i += 1;
    }
}

/// Appends the bytes of `data` in each range, in order, to `buf`.
pub(crate) fn append_ranges(buf: &mut Vec<u8>, data: &[u8], rs: &Vec<Range<u64>>)
    requires
        ranges_within(rs@, 0, data@.len() as int),
    ensures
        final(buf)@ == old(buf)@ + gather(data@, rs@),
{
    let mut k: usize = 0;
    while k < rs.len()
        invariant
            k <= rs@.len(),
            ranges_within(rs@, 0, data@.len() as int),
            buf@ == old(buf)@ + gather(data@, rs@.take(k as int)),
        decreases rs@.len() - k,
    {
        assert(rs@.take(k + 1).drop_last() =~= rs@.take(k as int));
        assert(rs@.take(k + 1).last() == rs@[k as int]);
        assert(0 <= rs@[k as int].start <= rs@[k as int].end <= data@.len());
        let dl = data.len();
        let s = rs[k].start as usize;
        let e = rs[k].end as usize;
        append_range(buf, data, s, e);
        assert(buf@ =~= old(buf)@ + gather(data@, rs@.take(k + 1)));
        k += 1;
    }
    assert(rs@.take(k as int) =~= rs@);
}


/// Validates a potential file with the validator of its file type: JPEG, PNG and ZIP have one;
/// a file of unknown type is left unanalysed, with no fragments.
pub struct DelegatingValidator<E> {
    pub jpeg: JpegValidator<E>,
    pub png: PngValidator,
    pub zip: ZipValidator,
}

impl<E: Fn(&[u8]) -> bool> DelegatingValidator<E> {
    /// All the validators, the JPEG one with the given entropy test.
    pub fn new(entropy_valid: E) -> (v: Self)
        ensures
            v.jpeg.entropy_valid == entropy_valid,
    {
        DelegatingValidator {
            jpeg: JpegValidator::new(entropy_valid),
            png: PngValidator::new(),
            zip: ZipValidator::new(),
        }
    }
}

impl<E: Fn(&[u8]) -> bool> FileValidator for DelegatingValidator<E> {
    open spec fn validate_ok(
        &self,
        file_data: Seq<u8>,
        file_match: &MatchPair,
        all_matches: Seq<Match>,
        cluster_size: usize,
        config: &SearchlightConfig,
    ) -> bool {
        match file_match.file_type.type_id {
            FileTypeId::Jpeg => self.jpeg.validate_ok(file_data, file_match, all_matches, cluster_size, config),
            FileTypeId::Png => self.png.validate_ok(file_data, file_match, all_matches, cluster_size, config),
            FileTypeId::Zip => self.zip.validate_ok(file_data, file_match, all_matches, cluster_size, config),
            FileTypeId::Unknown => true,
        }
    }

    open spec fn validate_result(
        &self,
        file_data: Seq<u8>,
        file_match: &MatchPair,
        all_matches: Seq<Match>,
        cluster_size: usize,
        config: &SearchlightConfig,
        result: (FileValidationType, Seq<Fragment>),
    ) -> bool {
        match file_match.file_type.type_id {
            FileTypeId::Jpeg => self.jpeg.validate_result(
                file_data,
                file_match,
                all_matches,
                cluster_size,
                config,
                result,
            ),
            FileTypeId::Png => self.png.validate_result(
                file_data,
                file_match,
                all_matches,
                cluster_size,
                config,
                result,
            ),
            FileTypeId::Zip => self.zip.validate_result(
                file_data,
                file_match,
                all_matches,
                cluster_size,
                config,
                result,
            ),
            FileTypeId::Unknown => result == (FileValidationType::Unanalysed, Seq::<Fragment>::empty()),
        }
    }

    /// Hands the validation to the validator of the match's file type.
    fn validate(
        &self,
        file_data: &[u8],
        file_match: &MatchPair,
        all_matches: &[Match],
        cluster_size: usize,
        config: &SearchlightConfig,
    ) -> (r: FileValidationInfo) {
        match file_match.file_type.type_id {
            FileTypeId::Jpeg => self.jpeg.validate(file_data, file_match, all_matches, cluster_size, config),
            FileTypeId::Png => self.png.validate(file_data, file_match, all_matches, cluster_size, config),
            FileTypeId::Zip => self.zip.validate(file_data, file_match, all_matches, cluster_size, config),
            FileTypeId::Unknown => {
                let r = FileValidationInfo {
                    validation_type: FileValidationType::Unanalysed,
                    fragments: Vec::new(),
                };
                assert(r.fragments@ =~= Seq::<Fragment>::empty());
                r
            },
        }
    }
}

} // verus!
