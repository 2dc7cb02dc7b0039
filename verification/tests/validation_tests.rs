use std::io::Write;
use libsearchlight::search::pairing::MatchPair;
use libsearchlight::search::Match;
use libsearchlight::searchlight::config::{FileType, FileTypeId, MatchString, SearchlightConfig};
use libsearchlight::validation::png::{PngValidator, PNG_IEND};
use libsearchlight::validation::png2::Png2Validator;
use libsearchlight::validation::zip::{ZipValidator, ZIP_LOCAL_FILE_HEADER_SIG_ID};
use libsearchlight::validation::jpeg::JpegValidator;
use libsearchlight::validation::jpg::JpgValidator;
use libsearchlight::validation::{DelegatingValidator, FileValidationType, FileValidator};

#[test]
fn test_crc32() {
    let ihdr_dat: [u8; 17] = [0x49, 0x48, 0x44, 0x52, 0x00, 0x00, 0x06, 0x40, 0x00, 0x00, 0x04, 0xB0, 0x08, 0x02, 0x00, 0x00, 0x00];

    let expected_crc = 0x2C6311C0u32;

    let calc_crc = crc32fast::hash(&ihdr_dat);

    assert_eq!(expected_crc, calc_crc);
}

fn chunk(kind: &[u8; 4], data: &[u8]) -> Vec<u8> {
    let mut out = (data.len() as u32).to_be_bytes().to_vec();
    out.extend_from_slice(kind);
    out.extend_from_slice(data);
    let mut crc_input = kind.to_vec();
    crc_input.extend_from_slice(data);
    out.extend_from_slice(&crc32fast::hash(&crc_input).to_be_bytes());
    out
}

fn png_file() -> Vec<u8> {
    let mut f = vec![0x89, b'P', b'N', b'G', 0x0d, 0x0a, 0x1a, 0x0a];
    f.extend(chunk(b"IHDR", &[0, 0, 0, 1, 0, 0, 0, 1, 8, 2, 0, 0, 0]));
    f.extend(chunk(b"IDAT", &[1, 2, 3, 4, 5]));
    f.extend(chunk(b"IEND", &[]));
    f
}

fn png_type() -> FileType {
    FileType {
        headers: vec![MatchString::from("\\x89PNG")],
        footers: vec![MatchString::from("IEND\\xaeB`\\x82")],
        extension: Some("png".to_string()),
        type_id: FileTypeId::Png,
        ..Default::default()
    }
}

#[test]
fn png_validator_accepts_a_whole_image() {
    let png = png_file();
    let mut data = png.clone();
    data.extend(vec![0; 16]);
    let ft = png_type();
    let m = MatchPair { file_type: &ft, start_idx: 0, end_idx: png.len() as u64 - 1 };
    let info = PngValidator::new().validate(&data, &m, &[], 512, &SearchlightConfig::default());
    assert_eq!(info.validation_type, FileValidationType::Correct);
    assert_eq!(info.fragments, vec![0..png.len() as u64]);
}

#[test]
fn png_validator_image_flush_with_the_end_of_the_data_is_partial() {
    // The last chunk is not read when it starts 12 bytes or less from the end of the data.
    let data = png_file();
    let ft = png_type();
    let m = MatchPair { file_type: &ft, start_idx: 0, end_idx: data.len() as u64 - 1 };
    let info = PngValidator::new().validate(&data, &m, &[], 512, &SearchlightConfig::default());
    assert_eq!(info.validation_type, FileValidationType::Partial);
}

#[test]
fn png_validator_without_idat_is_format_error() {
    let mut data = vec![0x89, b'P', b'N', b'G', 0x0d, 0x0a, 0x1a, 0x0a];
    data.extend(chunk(b"IHDR", &[0, 0, 0, 1, 0, 0, 0, 1, 8, 2, 0, 0, 0]));
    data.extend(chunk(b"IEND", &[]));
    data.extend(vec![0; 16]);
    let ft = png_type();
    let m = MatchPair { file_type: &ft, start_idx: 0, end_idx: data.len() as u64 - 1 };
    let info = PngValidator::new().validate(&data, &m, &[], 512, &SearchlightConfig::default());
    assert_eq!(info.validation_type, FileValidationType::FormatError);
}

#[test]
fn png_validator_bad_iend_crc_is_partial() {
    let mut data = png_file();
    let n = data.len();
    data[n - 1] ^= 0xff;
    data.extend(vec![0; 16]);
    let ft = png_type();
    let m = MatchPair { file_type: &ft, start_idx: 0, end_idx: n as u64 - 1 };
    let info = PngValidator::new().validate(&data, &m, &[], 512, &SearchlightConfig::default());
    assert_eq!(info.validation_type, FileValidationType::Partial);
}

#[test]
fn png_validator_unknown_chunk_is_partial() {
    let mut data = vec![0x89, b'P', b'N', b'G', 0x0d, 0x0a, 0x1a, 0x0a];
    data.extend(chunk(b"zzzz", &[1, 2, 3]));
    data.extend(vec![0; 16]);
    let ft = png_type();
    let m = MatchPair { file_type: &ft, start_idx: 0, end_idx: data.len() as u64 - 1 };
    let info = PngValidator::new().validate(&data, &m, &[], 512, &SearchlightConfig::default());
    assert_eq!(info.validation_type, FileValidationType::Partial);
    // The signature and the unrecognised chunk's 12 header bytes.
    assert_eq!(info.fragments, vec![0..20]);
}

#[test]
fn png2_validator_reads_to_iend() {
    let data = png_file();
    let ft = png_type();
    let m = MatchPair { file_type: &ft, start_idx: 0, end_idx: data.len() as u64 - 1 };
    let info = Png2Validator::new().validate(&data, &m, &[], 512, &SearchlightConfig::default());
    assert_eq!(info.validation_type, FileValidationType::Correct);
    assert_eq!(info.fragments, vec![0..data.len() as u64]);
    assert_eq!(PNG_IEND, u32::from_be_bytes(*b"IEND"));
}

#[test]
fn png2_validator_partial_when_cut_short() {
    let data = png_file();
    let cut = &data[..data.len() - 6];
    let ft = png_type();
    let m = MatchPair { file_type: &ft, start_idx: 0, end_idx: cut.len() as u64 - 1 };
    let info = Png2Validator::new().validate(cut, &m, &[], 512, &SearchlightConfig::default());
    assert_eq!(info.validation_type, FileValidationType::Partial);
    assert!(info.fragments.is_empty());
}

fn zip_file(content: &[u8], entries_in_cd: u16) -> (Vec<u8>, usize) {
    zip_file_with(content, 0, crc32fast::hash(content), content.len() as u32, entries_in_cd)
}

fn zip_file_with(content: &[u8], method: u16, crc: u32, uncompressed_len: u32, entries_in_cd: u16) -> (Vec<u8>, usize) {
    let name = b"a.txt";
    let mut f = Vec::new();
    // local file header
    f.extend_from_slice(&0x04034b50u32.to_le_bytes());
    f.extend_from_slice(&20u16.to_le_bytes());
    f.extend_from_slice(&0u16.to_le_bytes()); // flags
    f.extend_from_slice(&method.to_le_bytes());
    f.extend_from_slice(&0u16.to_le_bytes());
    f.extend_from_slice(&0u16.to_le_bytes());
    f.extend_from_slice(&crc.to_le_bytes());
    f.extend_from_slice(&(content.len() as u32).to_le_bytes());
    f.extend_from_slice(&uncompressed_len.to_le_bytes());
    f.extend_from_slice(&(name.len() as u16).to_le_bytes());
    f.extend_from_slice(&0u16.to_le_bytes());
    f.extend_from_slice(name);
    f.extend_from_slice(content);
    let cd_idx = f.len();
    // central directory header
    f.extend_from_slice(&0x02014b50u32.to_le_bytes());
    f.extend_from_slice(&[20, 0, 20, 0]);
    f.extend_from_slice(&0u16.to_le_bytes());
    f.extend_from_slice(&method.to_le_bytes());
    f.extend_from_slice(&[0, 0, 0, 0]);
    f.extend_from_slice(&crc.to_le_bytes());
    f.extend_from_slice(&(content.len() as u32).to_le_bytes());
    f.extend_from_slice(&uncompressed_len.to_le_bytes());
    f.extend_from_slice(&(name.len() as u16).to_le_bytes());
    f.extend_from_slice(&0u16.to_le_bytes());
    f.extend_from_slice(&0u16.to_le_bytes());
    f.extend_from_slice(&0u16.to_le_bytes());
    f.extend_from_slice(&0u16.to_le_bytes());
    f.extend_from_slice(&0u32.to_le_bytes());
    f.extend_from_slice(&0u32.to_le_bytes()); // local header offset
    f.extend_from_slice(name);
    let cd_size = f.len() - cd_idx;
    let eocd = f.len();
    f.extend_from_slice(&[0x50, 0x4b, 0x05, 0x06]);
    f.extend_from_slice(&0u16.to_le_bytes());
    f.extend_from_slice(&0u16.to_le_bytes());
    f.extend_from_slice(&entries_in_cd.to_le_bytes());
    f.extend_from_slice(&entries_in_cd.to_le_bytes());
    f.extend_from_slice(&(cd_size as u32).to_le_bytes());
    f.extend_from_slice(&(cd_idx as u32).to_le_bytes());
    f.extend_from_slice(&0u16.to_le_bytes());
    (f, eocd)
}

fn zip_type() -> FileType {
    FileType {
        headers: vec![MatchString::from("PK\\x03\\x04")],
        footers: vec![MatchString::from("PK\\x05\\x06")],
        extension: Some("zip".to_string()),
        type_id: FileTypeId::Zip,
        ..Default::default()
    }
}

#[test]
fn zip_validator_accepts_a_stored_archive() {
    let (data, eocd) = zip_file(b"hello zip", 1);
    let ft = zip_type();
    let m = MatchPair { file_type: &ft, start_idx: 0, end_idx: eocd as u64 + 3 };
    let all = [Match { id: ZIP_LOCAL_FILE_HEADER_SIG_ID, start_idx: 0, end_idx: 3 }];
    let info = ZipValidator::new().validate(&data, &m, &all, 512, &SearchlightConfig::default());
    assert_eq!(info.validation_type, FileValidationType::Correct);
    assert_eq!(info.fragments, vec![0..data.len() as u64]);
}

#[test]
fn zip_validator_entry_count_mismatch_is_corrupt() {
    let (data, eocd) = zip_file(b"hello zip", 2);
    let ft = zip_type();
    let m = MatchPair { file_type: &ft, start_idx: 0, end_idx: eocd as u64 + 3 };
    let all = [Match { id: ZIP_LOCAL_FILE_HEADER_SIG_ID, start_idx: 0, end_idx: 3 }];
    let info = ZipValidator::new().validate(&data, &m, &all, 512, &SearchlightConfig::default());
    assert_eq!(info.validation_type, FileValidationType::Corrupt);
}

#[test]
fn zip_validator_truncated_record_is_partial() {
    let (data, eocd) = zip_file(b"hello zip", 1);
    let cut = &data[..eocd + 10];
    let ft = zip_type();
    let m = MatchPair { file_type: &ft, start_idx: 0, end_idx: eocd as u64 + 3 };
    let info = ZipValidator::new().validate(cut, &m, &[], 512, &SearchlightConfig::default());
    assert_eq!(info.validation_type, FileValidationType::Partial);
    assert!(info.fragments.is_empty());
}

#[test]
fn zip_validator_without_local_headers_is_corrupt() {
    let (data, eocd) = zip_file(b"hello zip", 1);
    let ft = zip_type();
    let m = MatchPair { file_type: &ft, start_idx: 0, end_idx: eocd as u64 + 3 };
    let info = ZipValidator::new().validate(&data, &m, &[], 512, &SearchlightConfig::default());
    assert_eq!(info.validation_type, FileValidationType::Corrupt);
    // Only the central directory and its end record.
    assert_eq!(info.fragments, vec![(eocd as u64 - 51)..data.len() as u64]);
}

#[test]
fn worst_of_orders_outcomes() {
    type T = FileValidationType;
    assert_eq!(T::Correct.worst_of(T::Partial), T::Partial);
    assert_eq!(T::Corrupt.worst_of(T::Partial), T::Corrupt);
    assert_eq!(T::Unrecognised.worst_of(T::Unanalysed), T::Unrecognised);
    assert_eq!(T::Unanalysed.worst_of(T::Unrecognised), T::Unanalysed);
    assert_eq!(T::FormatError.worst_of(T::Correct), T::FormatError);
    assert_eq!(T::Corrupt.to_str(), "corrupt");
}

fn jpeg_file() -> Vec<u8> {
    let mut f = vec![0xff, 0xd8];
    f.extend([0xff, 0xe0, 0x00, 0x04, 0xaa, 0xbb]);
    f.extend([0xff, 0xc0, 0x00, 0x04, 0xcc, 0xdd]);
    f.extend([0xff, 0xda]);
    f.extend((0u8..16).map(|b| b.wrapping_mul(37)));
    f.extend([0x12, 0x34, 0x56, 0x78, 0xff, 0xd9]);
    f.extend(vec![0x11; 10]);
    f
}

fn jpeg_type() -> FileType {
    FileType { type_id: FileTypeId::Jpeg, ..Default::default() }
}

#[test]
fn jpeg_validator_accepts_a_whole_image() {
    let data = jpeg_file();
    assert_eq!(data.len(), 48);
    let ft = jpeg_type();
    let m = MatchPair { file_type: &ft, start_idx: 0, end_idx: 37 };
    let v = JpegValidator::new(|_c: &[u8]| true);
    let info = v.validate(&data, &m, &[], 16, &SearchlightConfig::default());
    assert_eq!(info.validation_type, FileValidationType::Correct);
    assert_eq!(info.fragments, vec![0..54]);
}

#[test]
fn jpeg_validator_low_entropy_scan_is_partial() {
    let data = jpeg_file();
    let ft = jpeg_type();
    let m = MatchPair { file_type: &ft, start_idx: 0, end_idx: 37 };
    let v = JpegValidator::new(|_c: &[u8]| false);
    let info = v.validate(&data, &m, &[], 16, &SearchlightConfig::default());
    assert_eq!(info.validation_type, FileValidationType::Partial);
    assert_eq!(info.fragments, vec![0..14, 14..48]);
}

#[test]
fn jpeg_validator_search_limit_ends_reconstruction() {
    let data = jpeg_file();
    let ft = jpeg_type();
    let m = MatchPair { file_type: &ft, start_idx: 0, end_idx: 37 };
    let v = JpegValidator::new(|_c: &[u8]| true);
    let config = SearchlightConfig { max_reconstruction_search_len: Some(20), ..Default::default() };
    let info = v.validate(&data, &m, &[], 16, &config);
    assert_eq!(info.validation_type, FileValidationType::Partial);
    assert_eq!(info.fragments, vec![0..14, 14..32]);
}

#[test]
fn jpeg_validator_without_app_segment_is_format_error() {
    let mut data = vec![0xff, 0xd8];
    data.extend([0xff, 0xc0, 0x00, 0x04, 0xcc, 0xdd]);
    data.extend([0xff, 0xd9]);
    data.extend(vec![0u8; 8]);
    let ft = jpeg_type();
    let m = MatchPair { file_type: &ft, start_idx: 0, end_idx: 9 };
    let v = JpegValidator::new(|_c: &[u8]| true);
    let info = v.validate(&data, &m, &[], 4, &SearchlightConfig::default());
    assert_eq!(info.validation_type, FileValidationType::FormatError);
    assert_eq!(info.fragments, vec![0..14]);
}

#[test]
fn jpeg_validator_no_marker_is_unrecognised() {
    let data = vec![0x00u8, 0x01, 0x02, 0x03];
    let ft = jpeg_type();
    let m = MatchPair { file_type: &ft, start_idx: 0, end_idx: 3 };
    let v = JpegValidator::new(|_c: &[u8]| true);
    let info = v.validate(&data, &m, &[], 4, &SearchlightConfig::default());
    assert_eq!(info.validation_type, FileValidationType::Unrecognised);
    assert!(info.fragments.is_empty());
}

#[test]
fn delegating_validator_dispatches_on_file_type() {
    let data = jpeg_file();
    let v = DelegatingValidator::new(|_c: &[u8]| true);
    let ft = jpeg_type();
    let m = MatchPair { file_type: &ft, start_idx: 0, end_idx: 37 };
    let info = v.validate(&data, &m, &[], 16, &SearchlightConfig::default());
    assert_eq!(info.validation_type, FileValidationType::Correct);
    let unknown = FileType::default();
    let m = MatchPair { file_type: &unknown, start_idx: 0, end_idx: 37 };
    let info = v.validate(&data, &m, &[], 16, &SearchlightConfig::default());
    assert_eq!(info.validation_type, FileValidationType::Unanalysed);
    assert!(info.fragments.is_empty());
    let png = png_file();
    let pt = png_type();
    let m = MatchPair { file_type: &pt, start_idx: 0, end_idx: png.len() as u64 - 1 };
    let mut pdata = png.clone();
    pdata.extend(vec![0; 16]);
    let info = v.validate(&pdata, &m, &[], 512, &SearchlightConfig::default());
    assert_eq!(info.validation_type, FileValidationType::Correct);
}

#[test]
fn jpg_validator_reports_unrecognised() {
    let data = jpeg_file();
    let ft = jpeg_type();
    let m = MatchPair { file_type: &ft, start_idx: 0, end_idx: 37 };
    let info = JpgValidator::new().validate(&data, &m, &[], 16, &SearchlightConfig::default());
    assert_eq!(info.validation_type, FileValidationType::Unrecognised);
    assert!(info.fragments.is_empty());
}

#[test]
fn zip_validator_checks_deflated_entries_against_their_crc() {
    let text = b"hello zip, hello deflate, hello zip, hello deflate";
    let mut enc = flate2::write::DeflateEncoder::new(Vec::new(), flate2::Compression::default());
    enc.write_all(text).unwrap();
    let deflated = enc.finish().unwrap();
    assert_ne!(&deflated[..], &text[..]);

    let (data, eocd) = zip_file_with(&deflated, 8, crc32fast::hash(text), text.len() as u32, 1);
    let ft = zip_type();
    let m = MatchPair { file_type: &ft, start_idx: 0, end_idx: eocd as u64 + 3 };
    let all = [Match { id: ZIP_LOCAL_FILE_HEADER_SIG_ID, start_idx: 0, end_idx: 3 }];
    let info = ZipValidator::new().validate(&data, &m, &all, 512, &SearchlightConfig::default());
    assert_eq!(info.validation_type, FileValidationType::Correct);
    assert_eq!(info.fragments, vec![0..data.len() as u64]);

    let (bad, eocd) = zip_file_with(&deflated, 8, crc32fast::hash(text) ^ 1, text.len() as u32, 1);
    let m = MatchPair { file_type: &ft, start_idx: 0, end_idx: eocd as u64 + 3 };
    let info = ZipValidator::new().validate(&bad, &m, &all, 512, &SearchlightConfig::default());
    assert_ne!(info.validation_type, FileValidationType::Correct);
}
