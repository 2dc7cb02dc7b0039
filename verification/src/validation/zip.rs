use std::ops::Range;

use vstd::prelude::*;

use crate::search::pairing::MatchPair;
use crate::search::Match;
use crate::searchlight::config::SearchlightConfig;
use crate::utils::bytes::{le_u16, le_u32, read_le_u16, read_le_u32};
use crate::utils::{
    clusters_outside_gap, generate_fragmentations, lemma_next_multiple, next_multiple_of,
    lemma_simplify_first, prev_multiple_of, simplify_ranges, spec_simplify,
};
use crate::validation::png::{candidate, lemma_clusters_within};
use crate::validation::{
    append_range, append_ranges, crc32, crc32_hash, gather, lemma_simplify_within, ranges_within,
    worse, FileValidationInfo, FileValidationType, FileValidator, Fragment,
};

verus! {

/// Signature of a local file header.
pub const ZIP_LOCAL_FILE_HEADER_SIG: u32 = 0x04034b50;

/// Signature of a central directory file header.
pub const ZIP_CENTRAL_DIR_HEADER_SIG: u32 = 0x02014b50;

/// Signature that may start a data descriptor.
pub const ZIP_DATA_DESCRIPTOR_SIG: u32 = 0x08074b50;

/// The match id of the local file header signature ("PK\x03\x04").
pub const ZIP_LOCAL_FILE_HEADER_SIG_ID: u64 = 13969706556131510235;

/// Size of a local file header without its file name and extra field.
pub const ZIP_LOCAL_FILE_HEADER_SIZE: usize = 30;

/// Size of a data descriptor without its optional signature.
pub const ZIP_DATA_DESCRIPTOR_SIZE: usize = 12;

/// Size of a central directory file header without its variable fields.
pub const ZIP_CENTRAL_DIR_HEADER_SIZE: usize = 46;

/// Size of the end of central directory record without its comment.
pub const ZIP_END_OF_CENTRAL_DIR_SIZE: usize = 22;

/// The general purpose flag bit saying that a data descriptor follows the file data.
pub const ZIP_DATA_DESCRIPTOR_FLAG: u16 = 0b1000;

/// The "stored" (uncompressed) compression method.
pub const ZIP_COMPRESSION_METHOD_STORE: u16 = 0;

/// The DEFLATE compression method.
pub const ZIP_COMPRESSION_METHOD_DEFLATE: u16 = 8;

/// The CRC-32 of the bytes that the raw DEFLATE stream `data` decompresses to, None where
/// decompression fails, as `flate2` computes it.
pub uninterp spec fn inflated_crc(data: Seq<u8>) -> Option<u32>;

/// `flate2::read::DeflateDecoder` over `data`, read to its end through a `flate2::CrcReader`:
/// the CRC of the decompressed bytes, or None where reading fails.
#[verifier::external_body]
fn deflate_crc(data: &[u8]) -> (r: Option<u32>)
    ensures
        r == inflated_crc(data@),
{
    let mut reader = flate2::CrcReader::new(flate2::read::DeflateDecoder::new(data));
    match std::io::copy(&mut reader, &mut std::io::sink()) {
        Ok(_) => Some(reader.crc().sum()),
        Err(_) => None,
    }
}

/// Why the CRC of file data could not be calculated.
#[derive(Debug, PartialEq, Eq, Clone, Copy, Structural)]
pub enum CrcCalcError {
    UnsupportedCompressionMethod,
    DecompressionError,
}

/// The CRC of file data: of the bytes themselves when stored, of the decompressed bytes when
/// deflated; other compression methods are unsupported.
pub open spec fn spec_zip_crc(data: Seq<u8>, compression_method: u16) -> Result<u32, CrcCalcError> {
    if compression_method == ZIP_COMPRESSION_METHOD_STORE {
        Ok(crc32(data))
    } else if compression_method == ZIP_COMPRESSION_METHOD_DEFLATE {
        match inflated_crc(data) {
            Some(c) => Ok(c),
            None => Err(CrcCalcError::DecompressionError),
        }
    } else {
        Err(CrcCalcError::UnsupportedCompressionMethod)
    }
}

/// Calculates the CRC of file data (see `spec_zip_crc`).
fn zip_crc_calc(data: &[u8], compression_method: u16) -> (r: Result<u32, CrcCalcError>)
    ensures
        r == spec_zip_crc(data@, compression_method),
{
    if compression_method == ZIP_COMPRESSION_METHOD_STORE {
        Ok(crc32_hash(data))
    } else if compression_method == ZIP_COMPRESSION_METHOD_DEFLATE {
        match deflate_crc(data) {
            Some(c) => Ok(c),
            None => Err(CrcCalcError::DecompressionError),
        }
    } else {
        Err(CrcCalcError::UnsupportedCompressionMethod)
    }
}

/// The fields of a central directory file header that validation uses.
pub struct CdfhView {
    pub crc: u32,
    pub compressed_size: u32,
    pub file_header_offset: u32,
    pub file_name: Seq<u8>,
    pub extra_field: Seq<u8>,
    pub len: int,
}

/// Decoding a central directory file header at the start of `d`: None (inner) if the signature
/// is wrong; the outer None where reading runs past the data.
pub open spec fn spec_cdfh_decode(d: Seq<u8>) -> Option<Option<CdfhView>> {
    if d.len() < 4 {
        None
    } else if le_u32(d, 0) != ZIP_CENTRAL_DIR_HEADER_SIG {
        Some(None)
    } else if d.len() < 0x2e {
        None
    } else {
        let name_len = le_u16(d, 0x1c) as int;
        let extra_len = le_u16(d, 0x1e) as int;
        if 0x2e + name_len + extra_len > d.len() {
            None
        } else {
            Some(
                Some(
                    CdfhView {
                        crc: le_u32(d, 0x10),
                        compressed_size: le_u32(d, 0x14),
                        file_header_offset: le_u32(d, 0x2a),
                        file_name: d.subrange(0x2e, 0x2e + name_len),
                        extra_field: d.subrange(0x2e + name_len, 0x2e + name_len + extra_len),
                        len: 46 + name_len + extra_len,
                    },
                ),
            )
        }
    }
}

/// A central directory file header.
#[derive(Clone, Copy)]
pub struct CentralDirectoryFileHeader<'a> {
    pub crc: u32,
    pub compressed_size: u32,
    pub file_header_offset: u32,
    pub file_name: &'a [u8],
    pub extra_field: &'a [u8],
    pub len: usize,
}

impl<'a> CentralDirectoryFileHeader<'a> {
    /// The fields of the header.
    pub open spec fn view(&self) -> CdfhView {
        CdfhView {
            crc: self.crc,
            compressed_size: self.compressed_size,
            file_header_offset: self.file_header_offset,
            file_name: self.file_name@,
            extra_field: self.extra_field@,
            len: self.len as int,
        }
    }

    /// Decodes a central directory file header at the start of `data` (see `spec_cdfh_decode`).
    pub fn decode(data: &'a [u8]) -> (r: Option<Self>)
        requires
            spec_cdfh_decode(data@) is Some,
        ensures
            match r {
                Some(h) => spec_cdfh_decode(data@) == Some(Some(h.view())),
                None => spec_cdfh_decode(data@) == Some(None::<CdfhView>),
            },
    {
        let signature = read_le_u32(data, 0x00);
        if signature != ZIP_CENTRAL_DIR_HEADER_SIG {
            return None;
        }
        let crc = read_le_u32(data, 0x10);
        let compressed_size = read_le_u32(data, 0x14);
        let file_name_len = read_le_u16(data, 0x1c) as usize;
        let extra_field_len = read_le_u16(data, 0x1e) as usize;
        let file_header_offset = read_le_u32(data, 0x2a);
        let file_name = &data[0x2e..(0x2e + file_name_len)];
        let extra_field = &data[(0x2e + file_name_len)..(0x2e + file_name_len + extra_field_len)];
        Some(
            CentralDirectoryFileHeader {
                crc,
                compressed_size,
                file_header_offset,
                file_name,
                extra_field,
                len: ZIP_CENTRAL_DIR_HEADER_SIZE + file_name_len + extra_field_len,
            },
        )
    }

    /// Whether this central directory entry describes the local file header: same CRC and
    /// compressed size (unless the local header defers them to a data descriptor) and the
    /// same file name. Extra fields may differ between the two.
    pub fn same(&self, lfhdr: &LocalFileHeader) -> (b: bool)
        ensures
            b == spec_same(self.view(), lfhdr.view()),
    {
        (self.crc == lfhdr.crc || lfhdr.has_data_descriptor) && (self.compressed_size
            == lfhdr.compressed_size || lfhdr.has_data_descriptor) && bytes_eq(
            self.file_name,
            lfhdr.file_name,
        )
    }
}

/// Whether two byte strings are equal.
fn bytes_eq(a: &[u8], b: &[u8]) -> (r: bool)
    ensures
        r == (a@ == b@),
{
    if a.len() != b.len() {
        return false;
    }
    let mut i: usize = 0;
    while i < a.len()
        invariant
            a@.len() == b@.len(),
            i <= a@.len(),
            forall|k: int| 0 <= k < i ==> a@[k] == b@[k],
        decreases a@.len() - i,
    {
        if a[i] != b[i] {
            return false;
        }
        i += 1;
    }
    assert(a@ =~= b@);
    true
}

/// The fields of a local file header that validation uses; `offset` is the header's offset
/// as the central directory gives it.
pub struct LfhView {
    pub idx: int,
    pub has_data_descriptor: bool,
    pub compression_method: u16,
    pub crc: u32,
    pub compressed_size: u32,
    pub file_name: Seq<u8>,
    pub extra_field: Seq<u8>,
    pub offset: u32,
    pub len: int,
}

/// The central directory entry matches the local file header (see `same`).
pub open spec fn spec_same(c: CdfhView, l: LfhView) -> bool {
    &&& (c.crc == l.crc || l.has_data_descriptor)
    &&& (c.compressed_size == l.compressed_size || l.has_data_descriptor)
    &&& c.file_name == l.file_name
}

/// Decoding a local file header at the start of `d`, which is at index `idx` of the file data:
/// None (inner) if the signature is wrong; the outer None where reading runs past the data.
pub open spec fn spec_lfh_decode(d: Seq<u8>, idx: int) -> Option<Option<LfhView>> {
    if d.len() < 4 {
        None
    } else if le_u32(d, 0) != ZIP_LOCAL_FILE_HEADER_SIG {
        Some(None)
    } else if d.len() < 0x1e {
        None
    } else {
        let name_len = le_u16(d, 0x1a) as int;
        let extra_len = le_u16(d, 0x1c) as int;
        if 0x1e + name_len + extra_len > d.len() {
            None
        } else {
            Some(
                Some(
                    LfhView {
                        idx,
                        has_data_descriptor: (le_u16(d, 0x06) & ZIP_DATA_DESCRIPTOR_FLAG) > 0,
                        compression_method: le_u16(d, 0x08),
                        crc: le_u32(d, 0x0e),
                        compressed_size: le_u32(d, 0x12),
                        file_name: d.subrange(0x1e, 0x1e + name_len),
                        extra_field: d.subrange(0x1e + name_len, 0x1e + name_len + extra_len),
                        offset: 0,
                        len: 30 + name_len + extra_len,
                    },
                ),
            )
        }
    }
}

/// Decoding a local file header follows the ZIP format's layout: the header is there exactly
/// when the data begins with "PK\x03\x04" and its 30 fixed bytes, name and extra field lie in
/// the data; bit 3 of the general purpose flags (byte 6) says whether a data descriptor follows
/// the data; the compression method, CRC and compressed size are the little-endian fields at
/// bytes 8, 14 and 18; the name and extra field follow the fixed part, with the lengths at bytes
/// 26 and 28. A header with a data descriptor matches any central directory entry of its name,
/// whatever CRC and size it holds itself.
pub proof fn lemma_lfh_layout(d: Seq<u8>, idx: int, c: CdfhView)
    ensures
        spec_lfh_decode(d, idx) matches Some(Some(h)) ==> {
            let n = d[26] as int + 256 * d[27] as int;
            let e = d[28] as int + 256 * d[29] as int;
            &&& d.len() >= 30 + n + e
            &&& d[0] == 0x50 && d[1] == 0x4b && d[2] == 3 && d[3] == 4
            &&& h.idx == idx
            &&& h.has_data_descriptor == (d[6] & 8 == 8)
            &&& h.compression_method == d[8] as int + 256 * d[9] as int
            &&& h.crc == d[14] as int + 256 * d[15] as int + 65536 * d[16] as int + 16777216 * d[17] as int
            &&& h.compressed_size == d[18] as int + 256 * d[19] as int + 65536 * d[20] as int + 16777216
                * d[21] as int
            &&& h.file_name == d.subrange(30, 30 + n)
            &&& h.extra_field == d.subrange(30 + n, 30 + n + e)
            &&& h.len == 30 + n + e
            &&& (h.has_data_descriptor && c.file_name == h.file_name ==> spec_same(c, h))
        },
        d.len() >= 30 && d[0] == 0x50 && d[1] == 0x4b && d[2] == 3 && d[3] == 4 && 30 + (d[26] as int
            + 256 * d[27] as int) + (d[28] as int + 256 * d[29] as int) <= d.len() ==> spec_lfh_decode(
            d,
            idx,
        ) is Some && spec_lfh_decode(d, idx)->0 is Some,
{
    if d.len() >= 30 {
        let f = d[6];
        let g = d[7];
        assert(((g as int * 0x100 + f as int) as u16 & 8u16 > 0) == (f & 8 == 8)) by (bit_vector);
        let b0 = d[0];
        let b1 = d[1];
        let b2 = d[2];
        let b3 = d[3];
        assert(((b3 as int * 0x100_0000 + b2 as int * 0x1_0000 + b1 as int * 0x100 + b0 as int) as u32
            == 0x04034b50u32) == (b0 == 0x50 && b1 == 0x4b && b2 == 3 && b3 == 4)) by (bit_vector);
    } else if d.len() >= 4 {
        let b0 = d[0];
        let b1 = d[1];
        let b2 = d[2];
        let b3 = d[3];
        assert(((b3 as int * 0x100_0000 + b2 as int * 0x1_0000 + b1 as int * 0x100 + b0 as int) as u32
            == 0x04034b50u32) == (b0 == 0x50 && b1 == 0x4b && b2 == 3 && b3 == 4)) by (bit_vector);
    }
}

/// The local header with the CRC, compressed size and offset of its central directory entry.
pub open spec fn spec_update_with(l: LfhView, c: CdfhView) -> LfhView {
    LfhView { crc: c.crc, compressed_size: c.compressed_size, offset: c.file_header_offset, ..l }
}

/// A local file header.
#[derive(Clone, Copy)]
pub struct LocalFileHeader<'a> {
    pub idx: usize,
    pub has_data_descriptor: bool,
    pub compression_method: u16,
    pub crc: u32,
    pub compressed_size: u32,
    pub file_name: &'a [u8],
    pub extra_field: &'a [u8],
    pub offset: u32,
    pub len: usize,
}

impl<'a> LocalFileHeader<'a> {
    /// The fields of the header.
    pub open spec fn view(&self) -> LfhView {
        LfhView {
            idx: self.idx as int,
            has_data_descriptor: self.has_data_descriptor,
            compression_method: self.compression_method,
            crc: self.crc,
            compressed_size: self.compressed_size,
            file_name: self.file_name@,
            extra_field: self.extra_field@,
            offset: self.offset,
            len: self.len as int,
        }
    }

    /// Decodes a local file header at the start of `data`, which is at index `idx` of the file
    /// data (see `spec_lfh_decode`).
    pub fn decode(data: &'a [u8], idx: usize) -> (r: Option<Self>)
        requires
            spec_lfh_decode(data@, idx as int) is Some,
        ensures
            match r {
                Some(h) => spec_lfh_decode(data@, idx as int) == Some(Some(h.view())),
                None => spec_lfh_decode(data@, idx as int) == Some(None::<LfhView>),
            },
    {
        let signature = read_le_u32(data, 0x00);
        if signature != ZIP_LOCAL_FILE_HEADER_SIG {
            return None;
        }
        let flags = read_le_u16(data, 0x06);
        let has_data_descriptor = (flags & ZIP_DATA_DESCRIPTOR_FLAG) > 0;
        let compression_method = read_le_u16(data, 0x08);
        let crc = read_le_u32(data, 0x0e);
        let compressed_size = read_le_u32(data, 0x12);
        let file_name_len = read_le_u16(data, 0x1a) as usize;
        let extra_field_len = read_le_u16(data, 0x1c) as usize;
        let file_name = &data[0x1e..(0x1e + file_name_len)];
        let extra_field = &data[(0x1e + file_name_len)..(0x1e + file_name_len + extra_field_len)];
        Some(
            LocalFileHeader {
                idx,
                has_data_descriptor,
                compression_method,
                crc,
                compressed_size,
                file_name,
                extra_field,
                offset: 0,
                len: ZIP_LOCAL_FILE_HEADER_SIZE + file_name_len + extra_field_len,
            },
        )
    }

    /// The header with the CRC, compressed size and offset of its central directory entry.
    pub fn update_with(self, cdfh: &CentralDirectoryFileHeader) -> (r: Self)
        ensures
            r.view() == spec_update_with(self.view(), cdfh.view()),
    {
        LocalFileHeader {
            crc: cdfh.crc,
            compressed_size: cdfh.compressed_size,
            offset: cdfh.file_header_offset,
            ..self
        }
    }
}

/// Decoding a data descriptor at the start of `d`: its CRC and its length (with the optional
/// signature); None where reading runs past the data.
pub open spec fn spec_dd_decode(d: Seq<u8>) -> Option<(u32, int)> {
    if d.len() < 4 {
        None
    } else if le_u32(d, 0) == ZIP_DATA_DESCRIPTOR_SIG {
        if d.len() < 8 {
            None
        } else {
            Some((le_u32(d, 4), 16))
        }
    } else {
        Some((le_u32(d, 0), 12))
    }
}

/// A data descriptor: the CRC it gives and its length.
pub struct DataDescriptor {
    pub crc: u32,
    pub len: usize,
}

impl DataDescriptor {
    /// Decodes a data descriptor at the start of `data` (see `spec_dd_decode`).
    pub fn decode(data: &[u8]) -> (r: Self)
        requires
            spec_dd_decode(data@) is Some,
        ensures
            spec_dd_decode(data@) == Some((r.crc, r.len as int)),
    {
        let first_field = read_le_u32(data, 0x00);
        if first_field == ZIP_DATA_DESCRIPTOR_SIG {
            let crc = read_le_u32(data, 0x04);
            DataDescriptor { crc, len: ZIP_DATA_DESCRIPTOR_SIZE + 4 }
        } else {
            DataDescriptor { crc: first_field, len: ZIP_DATA_DESCRIPTOR_SIZE }
        }
    }
}

/// Room for the index arithmetic of the validator: the data length, a cluster, a 32-bit
/// size and a header fit in a `usize`.
pub open spec fn zip_room(len: int, cs: int) -> bool {
    len + cs + 0x1_0004_0000 <= usize::MAX
}

/// The header lies in the data and its length is that of a decoded header.
pub open spec fn lfh_sane(h: LfhView, len: int) -> bool {
    0 <= h.idx <= len && 30 <= h.len <= 30 + 2 * 0xffff
}

/// The CRC calculated for candidate data: the CRC, or, where the data does not decompress, a
/// value different from the expected `crc`.
pub open spec fn calc_or_mismatch(r: Result<u32, CrcCalcError>, crc: u32) -> u32 {
    match r {
        Ok(c) => c,
        Err(_) => if crc == 0 {
            1
        } else {
            0
        },
    }
}

/// The first candidate from `g` on whose file data (from `data_idx` to `fs`, the candidate's
/// clusters, then from `fe` to `end`) has the CRC `crc`.
pub open spec fn first_zip_match(
    d: Seq<u8>,
    data_idx: int,
    fs: int,
    fe: int,
    end: int,
    cs: int,
    n: int,
    needed: int,
    method: u16,
    crc: u32,
    g: int,
) -> Option<int>
    decreases needed + 1 - g,
{
    if g < 0 || g > needed {
        None
    } else {
        let bytes = d.subrange(data_idx, fs) + gather(d, candidate(fs, cs, n, needed, g))
            + d.subrange(fe, end);
        if calc_or_mismatch(spec_zip_crc(bytes, method), crc) == crc {
            Some(g)
        } else {
            first_zip_match(d, data_idx, fs, fe, end, cs, n, needed, method, crc, g + 1)
        }
    }
}

/// Reconstructing the data of the file of header `h`, from `data_idx` to the next header at
/// `nhi` (assuming tightly packed segments and in-order fragments): the data descriptor before
/// `nhi` is 16 bytes if it has its signature, else 12; the bytes between the data's
/// unfragmented end and it must be whole clusters; the arrangements of the clusters between the
/// first cluster boundary after `data_idx` and the last before the descriptor that leave out that
/// many clusters are tried, and the first whose data has the header's CRC is taken. The data's
/// merged fragments and `nhi`, or None (failure); the outer None where the computation panics.
pub open spec fn spec_zip_reconstruct(d: Seq<u8>, h: LfhView, data_idx: int, nhi: int, cs: int) -> Option<
    Option<(Seq<Fragment>, int)>,
> {
    if nhi < 16 || nhi - 12 > d.len() || cs <= 0 {
        None
    } else {
        let ddl = if le_u32(d, nhi - 16) == ZIP_DATA_DESCRIPTOR_SIG {
            16int
        } else {
            12
        };
        let fs = (data_idx / cs + 1) * cs;
        let fe = ((nhi - ddl) / cs) * cs;
        let used = data_idx + h.compressed_size + ddl;
        if nhi < used {
            None
        } else if (nhi - used) % cs != 0 {
            Some(None)
        } else {
            let skipped = (nhi - used) / cs;
            if fe < fs || (fe - fs) / cs < skipped || (cs < 2 && fs < fe) || nhi - ddl > d.len() || (
            h.compression_method != ZIP_COMPRESSION_METHOD_STORE && h.compression_method
                != ZIP_COMPRESSION_METHOD_DEFLATE) {
                None
            } else {
                let n = (fe - fs) / cs;
                let needed = n - skipped;
                match first_zip_match(
                    d,
                    data_idx,
                    fs,
                    fe,
                    nhi - ddl,
                    cs,
                    n,
                    needed,
                    h.compression_method,
                    h.crc,
                    0,
                ) {
                    None => Some(None),
                    Some(g) => Some(
                        Some(
                            (
                                spec_simplify(
                                    seq![Range { start: data_idx as u64, end: fs as u64 }]
                                        + candidate(fs, cs, n, needed, g) + seq![
                                        Range { start: fe as u64, end: (nhi - ddl) as u64 },
                                    ],
                                ),
                                nhi,
                            ),
                        ),
                    ),
                }
            }
        }
    }
}

/// A single fragment `start..end`.
pub open spec fn one_frag(start: int, end: int) -> Seq<Fragment> {
    seq![Range { start: start as u64, end: end as u64 }]
}

/// Validating the file of header `h` whose segment should end before `nhi`: the data's CRC is
/// checked against the header's; an unsupported compression method leaves it unanalysed; a
/// mismatch is corrupt if the segment reaches `nhi`, else the data is reconstructed (correct,
/// with the header, the data fragments and any data descriptor) or partial. The outcome and the
/// fragments; None where the computation panics.
pub open spec fn spec_validate_file(d: Seq<u8>, h: LfhView, nhi: int, cs: int) -> Option<
    (FileValidationType, Seq<Fragment>),
> {
    let data_idx = h.idx + h.len;
    let dd = if h.has_data_descriptor {
        let ddi = data_idx + h.compressed_size;
        if ddi > d.len() {
            None
        } else {
            spec_dd_decode(d.subrange(ddi, d.len() as int))
        }
    } else {
        Some((0u32, 0int))
    };
    match dd {
        None => None,
        Some((_, ddl)) => {
            let unfrag_end = data_idx + h.compressed_size + ddl;
            let data_end = data_idx + h.compressed_size;
            if data_end > d.len() {
                None
            } else {
                let r = spec_zip_crc(d.subrange(data_idx, data_end), h.compression_method);
                if r == Err::<u32, CrcCalcError>(CrcCalcError::UnsupportedCompressionMethod) {
                    Some((FileValidationType::Unanalysed, one_frag(h.idx, unfrag_end)))
                } else if calc_or_mismatch(r, h.crc) == h.crc {
                    Some((FileValidationType::Correct, one_frag(h.idx, unfrag_end)))
                } else if unfrag_end >= nhi {
                    Some((FileValidationType::Corrupt, one_frag(h.idx, unfrag_end)))
                } else {
                    match spec_zip_reconstruct(d, h, data_idx, nhi, cs) {
                        None => None,
                        Some(None) => Some((FileValidationType::Partial, one_frag(h.idx, unfrag_end))),
                        Some(Some((data_frags, end_idx))) => {
                            let frags = one_frag(h.idx, data_idx) + data_frags;
                            if h.has_data_descriptor {
                                if end_idx > d.len() {
                                    None
                                } else {
                                    match spec_dd_decode(d.subrange(end_idx, d.len() as int)) {
                                        None => None,
                                        Some((_, l)) => Some(
                                            (
                                                FileValidationType::Correct,
                                                spec_simplify(frags + one_frag(end_idx, end_idx + l)),
                                            ),
                                        ),
                                    }
                                }
                            } else {
                                Some((FileValidationType::Correct, spec_simplify(frags)))
                            }
                        },
                    }
                }
            }
        },
    }
}

/// A file of an archive is never found unrecognised or with format errors: its data is correct,
/// unanalysed (unsupported compression), corrupt or partial; and its fragments begin at its local
/// file header.
pub proof fn lemma_zip_file_outcome(d: Seq<u8>, h: LfhView, nhi: int, cs: int)
    ensures
        spec_validate_file(d, h, nhi, cs) matches Some((t, fs)) ==> t != FileValidationType::Unrecognised
            && t != FileValidationType::FormatError && fs.len() > 0 && fs[0].start == h.idx as u64,
{
    let data_idx = h.idx + h.len;
    // a reconstructed file: the header fragment first, then the data (and descriptor)
    match spec_zip_reconstruct(d, h, data_idx, nhi, cs) {
        Some(Some((data_frags, end_idx))) => {
            let frags = one_frag(h.idx, data_idx) + data_frags;
            assert(frags[0] == one_frag(h.idx, data_idx)[0]);
            lemma_simplify_first(frags);
            if end_idx <= d.len() {
                match spec_dd_decode(d.subrange(end_idx, d.len() as int)) {
                    Some((_, l)) => {
                        assert((frags + one_frag(end_idx, end_idx + l))[0] == frags[0]);
                        lemma_simplify_first(frags + one_frag(end_idx, end_idx + l));
                    },
                    None => {},
                }
            }
        },
        _ => {},
    }
}

/// The outcome of reconstructing file data.
pub enum FileDataReconstructionInfo {
    Success { data_frags: Vec<Fragment>, end_idx: usize },
    Failure,
}

/// The fragments and end index of a reconstruction, None for a failure.
pub open spec fn zip_recon_view(r: FileDataReconstructionInfo) -> Option<(Seq<Fragment>, int)> {
    match r {
        FileDataReconstructionInfo::Success { data_frags, end_idx } => Some(
            (data_frags@, end_idx as int),
        ),
        FileDataReconstructionInfo::Failure => None,
    }
}

/// The outcome of validating one file of an archive, with its fragments.
pub struct LocalFileValidationInfo {
    pub validation_type: FileValidationType,
    pub frags: Vec<Fragment>,
}

/// Inserting `x` into `s`, after every element whose offset is not greater than its own
/// (stable insertion).
pub open spec fn insert_lfh(s: Seq<LfhView>, x: LfhView) -> Seq<LfhView>
    decreases s.len(),
{
    if s.len() == 0 {
        seq![x]
    } else if (s.last()).offset <= (x).offset {
        s.push(x)
    } else {
        insert_lfh(s.drop_last(), x).push(s.last())
    }
}

/// `s` stably sorted by offset.
pub open spec fn sort_lfh(s: Seq<LfhView>) -> Seq<LfhView>
    decreases s.len(),
{
    if s.len() == 0 {
        Seq::empty()
    } else {
        insert_lfh(sort_lfh(s.drop_last()), s.last())
    }
}

proof fn lemma_insert_lfh(s: Seq<LfhView>, x: LfhView, j: int)
    requires
        0 <= j <= s.len(),
        j == 0 || (s[j - 1]).offset <= (x).offset,
        forall|k: int| j <= k < s.len() ==> (#[trigger] s[k]).offset > (x).offset,
    ensures
        insert_lfh(s, x) == s.take(j).push(x) + s.skip(j),
    decreases s.len(),
{
    if s.len() == 0 {
        assert(s.take(j).push(x) + s.skip(j) =~= seq![x]);
    } else if (s.last()).offset <= (x).offset {
        if j < s.len() {
            assert((s[s.len() - 1]).offset > (x).offset);
        }
        assert(s.take(j).push(x) + s.skip(j) =~= s.push(x));
    } else {
        assert(j <= s.len() - 1) by {
            if j == s.len() {
                assert((s[j - 1]).offset <= (x).offset);
            }
        }
        let dl = s.drop_last();
        assert forall|k: int| j <= k < dl.len() implies (#[trigger] dl[k]).offset > (x).offset by {
            assert(dl[k] == s[k]);
        }
        if j > 0 {
            assert(dl[j - 1] == s[j - 1]);
        }
        lemma_insert_lfh(dl, x, j);
        assert(dl.take(j).push(x) + dl.skip(j) + seq![s.last()] =~= s.take(j).push(x) + s.skip(j));
    }
}

/// Inserting `x` into `s`, after every element whose start is not greater than its own
/// (stable insertion).
pub open spec fn insert_frag(s: Seq<Fragment>, x: Fragment) -> Seq<Fragment>
    decreases s.len(),
{
    if s.len() == 0 {
        seq![x]
    } else if (s.last()).start <= (x).start {
        s.push(x)
    } else {
        insert_frag(s.drop_last(), x).push(s.last())
    }
}

/// `s` stably sorted by start.
pub open spec fn sort_frag(s: Seq<Fragment>) -> Seq<Fragment>
    decreases s.len(),
{
    if s.len() == 0 {
        Seq::empty()
    } else {
        insert_frag(sort_frag(s.drop_last()), s.last())
    }
}

proof fn lemma_insert_frag(s: Seq<Fragment>, x: Fragment, j: int)
    requires
        0 <= j <= s.len(),
        j == 0 || (s[j - 1]).start <= (x).start,
        forall|k: int| j <= k < s.len() ==> (#[trigger] s[k]).start > (x).start,
    ensures
        insert_frag(s, x) == s.take(j).push(x) + s.skip(j),
    decreases s.len(),
{
    if s.len() == 0 {
        assert(s.take(j).push(x) + s.skip(j) =~= seq![x]);
    } else if (s.last()).start <= (x).start {
        if j < s.len() {
            assert((s[s.len() - 1]).start > (x).start);
        }
        assert(s.take(j).push(x) + s.skip(j) =~= s.push(x));
    } else {
        assert(j <= s.len() - 1) by {
            if j == s.len() {
                assert((s[j - 1]).start <= (x).start);
            }
        }
        let dl = s.drop_last();
        assert forall|k: int| j <= k < dl.len() implies (#[trigger] dl[k]).start > (x).start by {
            assert(dl[k] == s[k]);
        }
        if j > 0 {
            assert(dl[j - 1] == s[j - 1]);
        }
        lemma_insert_frag(dl, x, j);
        assert(dl.take(j).push(x) + dl.skip(j) + seq![s.last()] =~= s.take(j).push(x) + s.skip(j));
    }
}

/// The fields of the central directory headers.
pub open spec fn cd_views(v: Seq<CentralDirectoryFileHeader>) -> Seq<CdfhView> {
    v.map_values(|h: CentralDirectoryFileHeader| h.view())
}

/// The fields of the local file headers.
pub open spec fn lfh_views(v: Seq<LocalFileHeader>) -> Seq<LfhView> {
    v.map_values(|h: LocalFileHeader| h.view())
}

/// Decoding the central directory records from `i` up to `eocd`, one after another; None where
/// the decoding panics or a record has the wrong signature (the walk would not advance).
pub open spec fn cd_walk(d: Seq<u8>, i: int, eocd: int) -> Option<Seq<CdfhView>>
    decreases (if i < eocd {
        eocd - i
    } else {
        0int
    }),
{
    if i >= eocd || i < 0 || i > d.len() {
        Some(Seq::empty())
    } else {
        match spec_cdfh_decode(d.subrange(i, d.len() as int)) {
            Some(Some(r)) => if r.len <= 0 {
                None
            } else {
                match cd_walk(d, i + r.len, eocd) {
                    Some(rest) => Some(seq![r] + rest),
                    None => None,
                }
            },
            _ => None,
        }
    }
}

/// The first central directory entry from `q` on that matches the local header.
pub open spec fn first_same(cd: Seq<CdfhView>, l: LfhView, q: int) -> Option<CdfhView>
    decreases cd.len() - q,
{
    if q < 0 || q >= cd.len() {
        None
    } else if spec_same(cd[q], l) {
        Some(cd[q])
    } else {
        first_same(cd, l, q + 1)
    }
}

/// The local file headers of the matches with the local header signature's id, in order, each
/// decoded and completed from the first central directory entry that matches it (headers that
/// do not decode or match no entry are left out); None where decoding panics.
pub open spec fn collect_lfhs(d: Seq<u8>, ms: Seq<Match>, cd: Seq<CdfhView>) -> Option<Seq<LfhView>>
    decreases ms.len(),
{
    if ms.len() == 0 {
        Some(Seq::empty())
    } else {
        match collect_lfhs(d, ms.drop_last(), cd) {
            None => None,
            Some(prev) => {
                let m = ms.last();
                let st = m.start_idx as usize as int;
                if m.id != ZIP_LOCAL_FILE_HEADER_SIG_ID {
                    Some(prev)
                } else if st > d.len() {
                    None
                } else {
                    match spec_lfh_decode(d.subrange(st, d.len() as int), st) {
                        None => None,
                        Some(None) => Some(prev),
                        Some(Some(rec)) => match first_same(cd, rec, 0) {
                            Some(c) => Some(prev.push(spec_update_with(rec, c))),
                            None => Some(prev),
                        },
                    }
                }
            },
        }
    }
}

proof fn lemma_collect_prefix(d: Seq<u8>, ms: Seq<Match>, cd: Seq<CdfhView>, k: int)
    requires
        0 <= k <= ms.len(),
        collect_lfhs(d, ms, cd) is Some,
    ensures
        collect_lfhs(d, ms.take(k), cd) is Some,
    decreases ms.len() - k,
{
    if k < ms.len() {
        lemma_collect_prefix(d, ms, cd, k + 1);
        assert(ms.take(k + 1).drop_last() =~= ms.take(k));
    } else {
        assert(ms.take(k) =~= ms);
    }
}

/// Validating the files of the sorted local headers from the `k`-th on, each up to the next
/// header's offset (the last up to the central directory at `cd_idx`): the fragments of each file
/// that is not unrecognised are appended and its outcome worsens the worst so far. None where a
/// validation panics.
pub open spec fn files_walk(
    d: Seq<u8>,
    lfhs: Seq<LfhView>,
    cd_idx: int,
    cs: int,
    k: int,
    frags: Seq<Fragment>,
    worst: FileValidationType,
) -> Option<(Seq<Fragment>, FileValidationType)>
    decreases lfhs.len() - k,
{
    if k < 0 || k >= lfhs.len() {
        Some((frags, worst))
    } else {
        let nhi = if k + 1 < lfhs.len() {
            lfhs[k + 1].offset as int
        } else {
            cd_idx
        };
        match spec_validate_file(d, lfhs[k], nhi, cs) {
            None => None,
            Some((vt, fr)) => if vt != FileValidationType::Unrecognised {
                files_walk(d, lfhs, cd_idx, cs, k + 1, frags + fr, worse(worst, vt))
            } else {
                files_walk(d, lfhs, cd_idx, cs, k + 1, frags, worst)
            },
        }
    }
}

/// The four bytes of an end of central directory signature ("PK\x05\x06").
pub open spec fn eocd_sig() -> Seq<u8> {
    seq![0x50u8, 0x4b, 0x05, 0x06]
}

/// Validating a potential ZIP archive ending with the end of central directory record: without
/// the whole record in the data it is partial; a multi-disk archive is unanalysed; otherwise
/// the central directory (assumed directly before the record) is decoded, the local file
/// headers found among the matches are completed from it and sorted by offset, each file is
/// validated, the fragments (with the central directory and record) sorted by start and merged,
/// and the outcome is the worst file outcome, worsened to corrupt if the central directory lists
/// a different number of files than were found. None where the computation panics.
pub open spec fn spec_zip_validate(d: Seq<u8>, m: &MatchPair, all: Seq<Match>, cs: int) -> Option<
    (FileValidationType, Seq<Fragment>),
> {
    if m.file_type.footers@.len() == 0 {
        None
    } else {
        let flen = m.file_type.footers@[0]@.len() as int;
        let end = m.end_idx as usize as int;
        if end < flen || end - flen + 1 + 22 > usize::MAX {
            None
        } else {
            let eocd = end - flen + 1;
            if eocd + 22 > d.len() {
                Some((FileValidationType::Partial, Seq::empty()))
            } else if d.subrange(eocd, eocd + 4) != eocd_sig() {
                None
            } else {
                let eocd_len = le_u16(d, eocd + 0x14) as int + 22;
                let disk = le_u16(d, eocd + 4);
                let start_disk = le_u16(d, eocd + 6);
                if disk != start_disk || disk > 0 {
                    Some((FileValidationType::Unanalysed, Seq::empty()))
                } else {
                    let total = le_u16(d, eocd + 10);
                    let cd_size = le_u32(d, eocd + 12) as usize as int;
                    if eocd < cd_size {
                        None
                    } else {
                        let cd_idx = eocd - cd_size;
                        match cd_walk(d, cd_idx, eocd) {
                            None => None,
                            Some(cd) => match collect_lfhs(d, all, cd) {
                                None => None,
                                Some(found) => {
                                    let lfhs = sort_lfh(found);
                                    match files_walk(
                                        d,
                                        lfhs,
                                        cd_idx,
                                        cs,
                                        0,
                                        one_frag(cd_idx, eocd + eocd_len),
                                        FileValidationType::Correct,
                                    ) {
                                        None => None,
                                        Some((frags, worst)) => Some(
                                            (
                                                if total as int != lfhs.len() {
                                                    worse(worst, FileValidationType::Corrupt)
                                                } else {
                                                    worst
                                                },
                                                spec_simplify(sort_frag(frags)),
                                            ),
                                        ),
                                    }
                                },
                            },
                        }
                    }
                }
            }
        }
    }
}

/// Every header is sane.
pub open spec fn all_sane(s: Seq<LfhView>, len: int) -> bool {
    forall|k: int| 0 <= k < s.len() ==> lfh_sane(#[trigger] s[k], len)
}

proof fn lemma_insert_lfh_sane(s: Seq<LfhView>, x: LfhView, len: int)
    requires
        all_sane(s, len),
        lfh_sane(x, len),
    ensures
        all_sane(insert_lfh(s, x), len),
    decreases s.len(),
{
    if s.len() > 0 && !(s.last().offset <= x.offset) {
        assert(all_sane(s.drop_last(), len)) by {
            assert forall|k: int| 0 <= k < s.drop_last().len() implies lfh_sane(
                #[trigger] s.drop_last()[k],
                len,
            ) by {
                assert(s.drop_last()[k] == s[k]);
            }
        }
        lemma_insert_lfh_sane(s.drop_last(), x, len);
        assert(lfh_sane(s[s.len() - 1], len));
    }
}

proof fn lemma_sort_lfh_sane(s: Seq<LfhView>, len: int)
    requires
        all_sane(s, len),
    ensures
        all_sane(sort_lfh(s), len),
    decreases s.len(),
{
    if s.len() > 0 {
        assert(all_sane(s.drop_last(), len)) by {
            assert forall|k: int| 0 <= k < s.drop_last().len() implies lfh_sane(
                #[trigger] s.drop_last()[k],
                len,
            ) by {
                assert(s.drop_last()[k] == s[k]);
            }
        }
        lemma_sort_lfh_sane(s.drop_last(), len);
        assert(lfh_sane(s[s.len() - 1], len));
        lemma_insert_lfh_sane(sort_lfh(s.drop_last()), s.last(), len);
    }
}

/// Stably sorts the headers by offset.
fn sort_headers<'a>(v: &Vec<LocalFileHeader<'a>>) -> (r: Vec<LocalFileHeader<'a>>)
    ensures
        lfh_views(r@) == sort_lfh(lfh_views(v@)),
{
    let mut res: Vec<LocalFileHeader<'a>> = Vec::new();
    let mut i: usize = 0;
    while i < v.len()
        invariant
            i <= v@.len(),
            lfh_views(res@) == sort_lfh(lfh_views(v@.take(i as int))),
        decreases v@.len() - i,
    {
        let x = v[i];
        let mut j = res.len();
        while j > 0 && res[j - 1].offset > x.offset
            invariant
                j <= res@.len(),
                forall|k: int| j <= k < res@.len() ==> (#[trigger] res@[k]).offset > x.offset,
            decreases j,
        {
            j -= 1;
        }
        let ghost before = lfh_views(res@);
        proof {
            lemma_insert_lfh(before, x.view(), j as int);
        }
        res.insert(j, x);
        assert(lfh_views(v@.take(i + 1)).drop_last() =~= lfh_views(v@.take(i as int)));
        assert(lfh_views(res@) =~= before.take(j as int).push(x.view()) + before.skip(j as int));
        i += 1;
    }
    assert(v@.take(i as int) =~= v@);
    res
}

/// Stably sorts the fragments by start.
fn sort_fragments(v: &Vec<Fragment>) -> (r: Vec<Fragment>)
    ensures
        r@ == sort_frag(v@),
{
    let mut res: Vec<Fragment> = Vec::new();
    let mut i: usize = 0;
    while i < v.len()
        invariant
            i <= v@.len(),
            res@ == sort_frag(v@.take(i as int)),
        decreases v@.len() - i,
    {
        let x = Range { start: v[i].start, end: v[i].end };
        let mut j = res.len();
        while j > 0 && res[j - 1].start > x.start
            invariant
                j <= res@.len(),
                forall|k: int| j <= k < res@.len() ==> (#[trigger] res@[k]).start > x.start,
            decreases j,
        {
            j -= 1;
        }
        let ghost before = res@;
        proof {
            lemma_insert_frag(before, x, j as int);
        }
        res.insert(j, x);
        assert(v@.take(i + 1).drop_last() =~= v@.take(i as int));
        assert(v@.take(i + 1).last() == x);
        assert(res@ =~= before.take(j as int).push(x) + before.skip(j as int));
        i += 1;
    }
    assert(v@.take(i as int) =~= v@);
    res
}

/// Prepends `p` to an optional sequence.
pub open spec fn opt_prepend(p: Seq<CdfhView>, o: Option<Seq<CdfhView>>) -> Option<Seq<CdfhView>> {
    match o {
        Some(r) => Some(p + r),
        None => None,
    }
}

/// The position of the first central directory entry that matches the local header.
fn find_same(cd: &Vec<CentralDirectoryFileHeader>, rec: &LocalFileHeader) -> (r: Option<usize>)
    ensures
        match r {
            Some(q) => q < cd@.len() && first_same(cd_views(cd@), rec.view(), 0) == Some(
                cd@[q as int].view(),
            ),
            None => first_same(cd_views(cd@), rec.view(), 0) is None,
        },
{
    let ghost cdv = cd_views(cd@);
    let mut q: usize = 0;
    while q < cd.len()
        invariant
            q <= cd@.len(),
            cdv == cd_views(cd@),
            first_same(cdv, rec.view(), 0) == first_same(cdv, rec.view(), q as int),
        decreases cd@.len() - q,
    {
        if cd[q].same(rec) {
            return Some(q);
        }
        q += 1;
    }
    None
}

/// A validator for ZIP archives.
pub struct ZipValidator;

impl ZipValidator {
    /// The ZIP validator.
    pub fn new() -> (v: Self) {
        ZipValidator
    }

    /// Validates the file of `header`, whose segment should end before `next_header_idx` (see
    /// `spec_validate_file`).
    fn validate_file(
        file_data: &[u8],
        header: &LocalFileHeader,
        next_header_idx: usize,
        cluster_size: usize,
    ) -> (r: LocalFileValidationInfo)
        requires
            zip_room(file_data@.len() as int, cluster_size as int),
            lfh_sane(header.view(), file_data@.len() as int),
            spec_validate_file(file_data@, header.view(), next_header_idx as int, cluster_size as int)
                is Some,
        ensures
            Some((r.validation_type, r.frags@)) == spec_validate_file(
                file_data@,
                header.view(),
                next_header_idx as int,
                cluster_size as int,
            ),
    {
        let data_idx = header.idx + header.len;
        let data_descriptor_len: usize = if header.has_data_descriptor {
            let data_descriptor_idx = data_idx + header.compressed_size as usize;
            let data_descriptor = DataDescriptor::decode(
                &file_data[data_descriptor_idx..file_data.len()],
            );
            data_descriptor.len
        } else {
            0
        };
        let unfrag_end = data_idx + header.compressed_size as usize + data_descriptor_len;
        let unfrag_crc = match zip_crc_calc(
            &file_data[data_idx..(data_idx + header.compressed_size as usize)],
            header.compression_method,
        ) {
            Ok(crc) => crc,
            Err(CrcCalcError::UnsupportedCompressionMethod) => {
                let frags = vec![Range { start: header.idx as u64, end: unfrag_end as u64 }];
                assert(frags@ =~= one_frag(header.idx as int, unfrag_end as int));
                return LocalFileValidationInfo {
                    validation_type: FileValidationType::Unanalysed,
                    frags,
                };
            },
            Err(CrcCalcError::DecompressionError) => {
                if header.crc == 0 {
                    1
                } else {
                    0
                }
            },
        };
        if unfrag_crc != header.crc {
            if unfrag_end >= next_header_idx {
                let frags = vec![Range { start: header.idx as u64, end: unfrag_end as u64 }];
                assert(frags@ =~= one_frag(header.idx as int, unfrag_end as int));
                return LocalFileValidationInfo { validation_type: FileValidationType::Corrupt, frags };
            }
            let recons_info = Self::reconstruct_file_data(
                file_data,
                header,
                data_idx,
                next_header_idx,
                cluster_size,
            );
            match recons_info {
                FileDataReconstructionInfo::Success { data_frags, end_idx } => {
                    let ghost df = data_frags@;
                    let mut data_frags = data_frags;
                    data_frags.insert(0, Range { start: header.idx as u64, end: data_idx as u64 });
                    assert(data_frags@ =~= one_frag(header.idx as int, data_idx as int) + df);
                    if header.has_data_descriptor {
                        let data_descriptor = DataDescriptor::decode(&file_data[end_idx..file_data.len()]);
                        let ghost before = data_frags@;
                        data_frags.push(
                            Range { start: end_idx as u64, end: (end_idx + data_descriptor.len) as u64 },
                        );
                        assert(data_frags@ =~= before + one_frag(
                            end_idx as int,
                            end_idx + data_descriptor.len,
                        ));
                    }
                    simplify_ranges(&mut data_frags);
                    LocalFileValidationInfo {
                        validation_type: FileValidationType::Correct,
                        frags: data_frags,
                    }
                },
                FileDataReconstructionInfo::Failure => {
                    let frags = vec![Range { start: header.idx as u64, end: unfrag_end as u64 }];
                    assert(frags@ =~= one_frag(header.idx as int, unfrag_end as int));
                    LocalFileValidationInfo { validation_type: FileValidationType::Partial, frags }
                },
            }
        } else {
            let frags = vec![Range { start: header.idx as u64, end: unfrag_end as u64 }];
            assert(frags@ =~= one_frag(header.idx as int, unfrag_end as int));
            LocalFileValidationInfo { validation_type: FileValidationType::Correct, frags }
        }
    }

    /// Reconstructs the data of the file of `header` (see `spec_zip_reconstruct`).
    fn reconstruct_file_data(
        file_data: &[u8],
        header: &LocalFileHeader,
        data_idx: usize,
        next_header_idx: usize,
        cluster_size: usize,
    ) -> (r: FileDataReconstructionInfo)
        requires
            zip_room(file_data@.len() as int, cluster_size as int),
            data_idx <= file_data@.len(),
            spec_zip_reconstruct(
                file_data@,
                header.view(),
                data_idx as int,
                next_header_idx as int,
                cluster_size as int,
            ) is Some,
        ensures
            zip_recon_view(r) == spec_zip_reconstruct(
                file_data@,
                header.view(),
                data_idx as int,
                next_header_idx as int,
                cluster_size as int,
            )->0,
    {
        let ghost d = file_data@;
        let ghost cs = cluster_size as int;
        let data_descriptor_sig_idx = next_header_idx - (ZIP_DATA_DESCRIPTOR_SIZE + 4);
        let data_descriptor_len = if read_le_u32(file_data, data_descriptor_sig_idx)
            == ZIP_DATA_DESCRIPTOR_SIG {
            ZIP_DATA_DESCRIPTOR_SIZE + 4
        } else {
            ZIP_DATA_DESCRIPTOR_SIZE
        };
        proof {
            lemma_next_multiple(data_idx as int, cs);
            lemma_next_multiple(next_header_idx - data_descriptor_len, cs);
        }
        let fragmentation_start = next_multiple_of(data_idx as u64, cluster_size as u64) as usize;
        let fragmentation_end = prev_multiple_of(
            (next_header_idx - data_descriptor_len) as u64,
            cluster_size as u64,
        ) as usize;
        let bytes_skipped = next_header_idx - (data_idx + header.compressed_size as usize
            + data_descriptor_len);
        if bytes_skipped % cluster_size != 0 {
            return FileDataReconstructionInfo::Failure;
        }
        let clusters_skipped = bytes_skipped / cluster_size;
        let ghost fs = fragmentation_start as int;
        let ghost fe = fragmentation_end as int;
        let ghost end = next_header_idx - data_descriptor_len;
        let clusters_needed = ((fragmentation_end - fragmentation_start) / cluster_size)
            - clusters_skipped;
        let ghost n = (fe - fs) / cs;
        proof {
            let qs = data_idx as int / cs + 1;
            let qe = (next_header_idx - data_descriptor_len) as int / cs;
            assert(fs == qs * cs);
            assert(fe == qe * cs);
            assert(fe - fs == (qe - qs) * cs) by (nonlinear_arith)
                requires
                    fs == qs * cs,
                    fe == qe * cs,
            ;
            assert(qe - qs >= 0) by (nonlinear_arith)
                requires
                    fe - fs == (qe - qs) * cs,
                    fe >= fs,
                    cs > 0,
            ;
            vstd::arithmetic::div_mod::lemma_mod_multiples_basic(qe - qs, cs);
            vstd::arithmetic::div_mod::lemma_div_multiples_vanish(qe - qs, cs);
            assert(cs * (qe - qs) == (qe - qs) * cs) by (nonlinear_arith);
            assert(n == qe - qs);
            assert(fs + n * cs == fe) by (nonlinear_arith)
                requires
                    fe - fs == (qe - qs) * cs,
                    n == qe - qs,
            ;
            assert(fs >= 0);
        }
        let fragmentations = generate_fragmentations(
            cluster_size,
            Range { start: fragmentation_start, end: fragmentation_end },
            clusters_needed,
        );
        let mut g: usize = 0;
        let mut hit = false;
        while !hit && g < fragmentations.len()
            invariant
                d == file_data@,
                g <= fragmentations@.len(),
                fragmentations@.len() == clusters_needed + 1,
                forall|k: int|
                    0 <= k < fragmentations@.len() ==> #[trigger] fragmentations@[k]@ == candidate(
                        fs,
                        cs,
                        n,
                        clusters_needed as int,
                        k,
                    ),
                cs == cluster_size,
                cluster_size > 0,
                fs == fragmentation_start,
                fe == fragmentation_end,
                end == next_header_idx - data_descriptor_len,
                fs + n * cs == fe,
                n >= 0,
                data_idx <= fs <= fe <= end <= d.len(),
                hit ==> g < fragmentations@.len() && first_zip_match(
                    d,
                    data_idx as int,
                    fs,
                    fe,
                    end,
                    cs,
                    n,
                    clusters_needed as int,
                    header.compression_method,
                    header.crc,
                    0,
                ) == Some(g as int),
                !hit ==> first_zip_match(
                    d,
                    data_idx as int,
                    fs,
                    fe,
                    end,
                    cs,
                    n,
                    clusters_needed as int,
                    header.compression_method,
                    header.crc,
                    0,
                ) == first_zip_match(
                    d,
                    data_idx as int,
                    fs,
                    fe,
                    end,
                    cs,
                    n,
                    clusters_needed as int,
                    header.compression_method,
                    header.crc,
                    g as int,
                ),
            decreases fragmentations@.len() - g + (if hit { 0int } else { 1 }),
        {
            proof {
                lemma_clusters_within(fs, cs, n, g as int, n - clusters_needed);
                lemma_simplify_within(
                    clusters_outside_gap(fs, cs, n, g as int, n - clusters_needed),
                    fs,
                    fe,
                );
            }
            let mut data: Vec<u8> = Vec::new();
            append_range(&mut data, file_data, data_idx, fragmentation_start);
            append_ranges(&mut data, file_data, &fragmentations[g]);
            append_range(&mut data, file_data, fragmentation_end, next_header_idx - data_descriptor_len);
            assert(data@ =~= d.subrange(data_idx as int, fs) + gather(
                d,
                candidate(fs, cs, n, clusters_needed as int, g as int),
            ) + d.subrange(fe, end));
            let calc_crc = match zip_crc_calc(data.as_slice(), header.compression_method) {
                Ok(crc) => crc,
                Err(_) => {
                    if header.crc == 0 {
                        1
                    } else {
                        0
                    }
                },
            };
            if calc_crc == header.crc {
                hit = true;
            } else {
                g += 1;
            }
        }
        if hit {
            let mut fragmentations = fragmentations;
            let mut data_frags = fragmentations.remove(g);
            data_frags.insert(0, Range { start: data_idx as u64, end: fragmentation_start as u64 });
            data_frags.push(
                Range {
                    start: fragmentation_end as u64,
                    end: (next_header_idx - data_descriptor_len) as u64,
                },
            );
            assert(data_frags@ =~= seq![Range { start: data_idx as u64, end: fs as u64 }] + candidate(
                fs,
                cs,
                n,
                clusters_needed as int,
                g as int,
            ) + seq![Range { start: fe as u64, end: end as u64 }]);
            simplify_ranges(&mut data_frags);
            FileDataReconstructionInfo::Success { data_frags, end_idx: next_header_idx }
        } else {
            FileDataReconstructionInfo::Failure
        }
    }
}

impl FileValidator for ZipValidator {
    open spec fn validate_ok(
        &self,
        file_data: Seq<u8>,
        file_match: &MatchPair,
        all_matches: Seq<Match>,
        cluster_size: usize,
        config: &SearchlightConfig,
    ) -> bool {
        &&& zip_room(file_data.len() as int, cluster_size as int)
        &&& spec_zip_validate(file_data, file_match, all_matches, cluster_size as int) is Some
    }

    open spec fn validate_result(
        &self,
        file_data: Seq<u8>,
        file_match: &MatchPair,
        all_matches: Seq<Match>,
        cluster_size: usize,
        config: &SearchlightConfig,
        result: (FileValidationType, Seq<Fragment>),
    ) -> bool {
        Some(result) == spec_zip_validate(file_data, file_match, all_matches, cluster_size as int)
    }

    /// Validates a potential ZIP archive from its end of central directory record (see
    /// `spec_zip_validate`), following the PKWARE application note. ZIP64, multi-part,
    /// encrypted and signed archives are not handled.
    fn validate(
        &self,
        file_data: &[u8],
        file_match: &MatchPair,
        all_matches: &[Match],
        cluster_size: usize,
        _config: &SearchlightConfig,
    ) -> (r: FileValidationInfo) {
        let ghost d = file_data@;
        let ghost cs = cluster_size as int;
        let footer_len = file_match.file_type.footers[0].len();
        let eocd_idx = file_match.end_idx as usize - footer_len + 1;
        if eocd_idx + ZIP_END_OF_CENTRAL_DIR_SIZE > file_data.len() {
            return FileValidationInfo { validation_type: FileValidationType::Partial, fragments: Vec::new() };
        }
        let eocd_comment_len = read_le_u16(file_data, eocd_idx + 0x14) as usize;
        let eocd_len = eocd_comment_len + ZIP_END_OF_CENTRAL_DIR_SIZE;
        let cd_diskno = read_le_u16(file_data, eocd_idx + 4);
        let cd_start_diskno = read_le_u16(file_data, eocd_idx + 6);
        if cd_diskno != cd_start_diskno || cd_diskno > 0 {
            return FileValidationInfo {
                validation_type: FileValidationType::Unanalysed,
                fragments: Vec::new(),
            };
        }
        let cd_total_entries = read_le_u16(file_data, eocd_idx + 10);
        let cd_size = read_le_u32(file_data, eocd_idx + 12) as usize;
        let central_directory_idx = eocd_idx - cd_size;
        let ghost cdi = central_directory_idx as int;
        let ghost eocd = eocd_idx as int;
        let mut central_directory: Vec<CentralDirectoryFileHeader> = Vec::new();
        let mut i = central_directory_idx;
        assert(cd_views(central_directory@) =~= Seq::<CdfhView>::empty());
        while i < eocd_idx
            invariant
                d == file_data@,
                eocd == eocd_idx,
                eocd + 22 <= d.len(),
                cd_walk(d, cdi, eocd) is Some,
                cd_walk(d, cdi, eocd) == opt_prepend(cd_views(central_directory@), cd_walk(d, i as int, eocd)),
            decreases (if i < eocd_idx {
                eocd_idx - i
            } else {
                0int
            }),
        {
            let record = CentralDirectoryFileHeader::decode(&file_data[i..file_data.len()]);
            match record {
                Some(r) => {
                    let ghost before = cd_views(central_directory@);
                    i += r.len;
                    central_directory.push(r);
                    assert(cd_views(central_directory@) =~= before + seq![r.view()]);
                },
                None => {},
            }
        }
        assert(cd_walk(d, i as int, eocd) == Some(Seq::<CdfhView>::empty()));
        assert(cd_views(central_directory@) + Seq::<CdfhView>::empty() =~= cd_views(central_directory@));
        let ghost cd = cd_views(central_directory@);
        let ghost all = all_matches@;
        let mut local_file_headers: Vec<LocalFileHeader> = Vec::new();
        let mut k: usize = 0;
        assert(all.take(0) =~= Seq::<Match>::empty());
        assert(lfh_views(local_file_headers@) =~= Seq::<LfhView>::empty());
        while k < all_matches.len()
            invariant
                d == file_data@,
                all == all_matches@,
                cd == cd_views(central_directory@),
                k <= all.len(),
                collect_lfhs(d, all, cd) is Some,
                collect_lfhs(d, all.take(k as int), cd) == Some(lfh_views(local_file_headers@)),
                all_sane(lfh_views(local_file_headers@), d.len() as int),
            decreases all.len() - k,
        {
            proof {
                lemma_collect_prefix(d, all, cd, k + 1);
                assert(all.take(k + 1).drop_last() =~= all.take(k as int));
                assert(all.take(k + 1).last() == all[k as int]);
            }
            let m = all_matches[k];
            if m.id == ZIP_LOCAL_FILE_HEADER_SIG_ID {
                let st = m.start_idx as usize;
                let decoded = LocalFileHeader::decode(&file_data[st..file_data.len()], st);
                match decoded {
                    Some(record) => {
                        match find_same(&central_directory, &record) {
                            Some(q) => {
                                let ghost before = lfh_views(local_file_headers@);
                                let updated = record.update_with(&central_directory[q]);
                                local_file_headers.push(updated);
                                assert(lfh_views(local_file_headers@) =~= before.push(updated.view()));
                            },
                            None => {},
                        }
                    },
                    None => {},
                }
            }
            k += 1;
        }
        assert(all.take(k as int) =~= all);
        proof {
            lemma_sort_lfh_sane(lfh_views(local_file_headers@), d.len() as int);
        }
        let local_file_headers = sort_headers(&local_file_headers);
        let ghost lfhs = lfh_views(local_file_headers@);
        let mut file_frags: Vec<Fragment> = vec![
            Range { start: central_directory_idx as u64, end: (eocd_idx + eocd_len) as u64 },
        ];
        assert(file_frags@ =~= one_frag(cdi, eocd_idx + eocd_len));
        let mut worst_file_validation = FileValidationType::Correct;
        let ghost walked = files_walk(
            d,
            lfhs,
            cdi,
            cs,
            0,
            one_frag(cdi, eocd_idx + eocd_len),
            FileValidationType::Correct,
        );
        let mut k: usize = 0;
        while k < local_file_headers.len()
            invariant
                d == file_data@,
                zip_room(d.len() as int, cs),
                cs == cluster_size,
                cdi == central_directory_idx,
                lfhs == lfh_views(local_file_headers@),
                all_sane(lfhs, d.len() as int),
                k <= lfhs.len(),
                walked is Some,
                files_walk(d, lfhs, cdi, cs, k as int, file_frags@, worst_file_validation) == walked,
            decreases lfhs.len() - k,
        {
            let next_header_idx = if k + 1 < local_file_headers.len() {
                local_file_headers[k + 1].offset as usize
            } else {
                central_directory_idx
            };
            assert(lfh_sane(lfhs[k as int], d.len() as int));
            let mut validation_info = Self::validate_file(
                file_data,
                &local_file_headers[k],
                next_header_idx,
                cluster_size,
            );
            if validation_info.validation_type != FileValidationType::Unrecognised {
                file_frags.append(&mut validation_info.frags);
                worst_file_validation = worst_file_validation.worst_of(validation_info.validation_type);
            }
            k += 1;
        }
        let mut file_frags = sort_fragments(&file_frags);
        simplify_ranges(&mut file_frags);
        if cd_total_entries as usize != local_file_headers.len() {
            worst_file_validation = worst_file_validation.worst_of(FileValidationType::Corrupt);
        }
        FileValidationInfo { validation_type: worst_file_validation, fragments: file_frags }
    }
}

} // verus!
