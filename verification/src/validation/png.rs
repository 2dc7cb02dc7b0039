use std::ops::Range;

use vstd::prelude::*;

use crate::search::pairing::MatchPair;
use crate::searchlight::config::SearchlightConfig;
use crate::utils::bytes::{be_u32, read_be_u32};
use crate::utils::fragments_index::{flat_index, frags_len, FragmentsIndex};
use crate::utils::{
    clusters_outside_gap, generate_fragmentations, lemma_next_multiple, next_multiple_of,
    lemma_simplify_first, prev_multiple_of, simplify_ranges, spec_simplify,
};
use crate::search::Match;
use crate::validation::{
    append_range, append_ranges, crc32, crc32_hash, gather, lemma_simplify_within, ranges_within,
    rank, worse, FileValidationInfo, FileValidationType, FileValidator, Fragment,
};

verus! {

/// "IHDR" as a big-endian `u32`.
pub const PNG_IHDR: u32 = 0x49484452;

/// "IDAT" as a big-endian `u32`.
pub const PNG_IDAT: u32 = 0x49444154;

/// "PLTE" as a big-endian `u32`.
pub const PNG_PLTE: u32 = 0x504C5445;

/// "IEND" as a big-endian `u32`.
pub const PNG_IEND: u32 = 0x49454E44;

/// The length of the data of an IHDR chunk.
pub const PNG_IHDR_LEN: u32 = 13;

/// The chunk type (a big-endian `u32`) is one of the known PNG chunk types (as listed by
/// ImageMagick's PNG coder).
pub open spec fn known_chunk_type(t: u32) -> bool {
    t == 0x4241434b || t == 0x42415349 || t == 0x624b4744 || t == 0x63614e76 || t == 0x6348524d
        || t == 0x434c4950 || t == 0x434c4f4e || t == 0x44454649 || t == 0x44484452 || t
        == 0x44495343 || t == 0x454e444c || t == 0x65584966 || t == 0x4652414d || t == 0x67414d41
        || t == 0x68495354 || t == 0x69434350 || t == 0x49444154 || t == 0x49454e44 || t
        == 0x49484452 || t == 0x69545874 || t == 0x4a644141 || t == 0x4a444141 || t == 0x4a444154
        || t == 0x4a484452 || t == 0x4a534550 || t == 0x4c4f4f50 || t == 0x4d41474e || t
        == 0x4d454e44 || t == 0x4d484452 || t == 0x4d4f5645 || t == 0x6e454544 || t == 0x6f464673
        || t == 0x6f724e54 || t == 0x50415354 || t == 0x70485967 || t == 0x70485973 || t
        == 0x504c5445 || t == 0x53415645 || t == 0x73424954 || t == 0x5345454b || t == 0x53484f57
        || t == 0x73504c54 || t == 0x73524742 || t == 0x73544552 || t == 0x5445524d || t
        == 0x74455874 || t == 0x74494d45 || t == 0x74524e53 || t == 0x76704167 || t == 0x7a545874
}

/// The chunk types that the PNG specification and its extensions (APNG, MNG, JNG) name, as
/// their four ASCII letters.
pub open spec fn png_chunk_name(k: int) -> Seq<char> {
    if k == 0 {
        seq!['B', 'A', 'C', 'K']
    } else if k == 1 {
        seq!['B', 'A', 'S', 'I']
    } else if k == 2 {
        seq!['b', 'K', 'G', 'D']
    } else if k == 3 {
        seq!['c', 'a', 'N', 'v']
    } else if k == 4 {
        seq!['c', 'H', 'R', 'M']
    } else if k == 5 {
        seq!['C', 'L', 'I', 'P']
    } else if k == 6 {
        seq!['C', 'L', 'O', 'N']
    } else if k == 7 {
        seq!['D', 'E', 'F', 'I']
    } else if k == 8 {
        seq!['D', 'H', 'D', 'R']
    } else if k == 9 {
        seq!['D', 'I', 'S', 'C']
    } else if k == 10 {
        seq!['E', 'N', 'D', 'L']
    } else if k == 11 {
        seq!['e', 'X', 'I', 'f']
    } else if k == 12 {
        seq!['F', 'R', 'A', 'M']
    } else if k == 13 {
        seq!['g', 'A', 'M', 'A']
    } else if k == 14 {
        seq!['h', 'I', 'S', 'T']
    } else if k == 15 {
        seq!['i', 'C', 'C', 'P']
    } else if k == 16 {
        seq!['I', 'D', 'A', 'T']
    } else if k == 17 {
        seq!['I', 'E', 'N', 'D']
    } else if k == 18 {
        seq!['I', 'H', 'D', 'R']
    } else if k == 19 {
        seq!['i', 'T', 'X', 't']
    } else if k == 20 {
        seq!['J', 'd', 'A', 'A']
    } else if k == 21 {
        seq!['J', 'D', 'A', 'A']
    } else if k == 22 {
        seq!['J', 'D', 'A', 'T']
    } else if k == 23 {
        seq!['J', 'H', 'D', 'R']
    } else if k == 24 {
        seq!['J', 'S', 'E', 'P']
    } else if k == 25 {
        seq!['L', 'O', 'O', 'P']
    } else if k == 26 {
        seq!['M', 'A', 'G', 'N']
    } else if k == 27 {
        seq!['M', 'E', 'N', 'D']
    } else if k == 28 {
        seq!['M', 'H', 'D', 'R']
    } else if k == 29 {
        seq!['M', 'O', 'V', 'E']
    } else if k == 30 {
        seq!['n', 'E', 'E', 'D']
    } else if k == 31 {
        seq!['o', 'F', 'F', 's']
    } else if k == 32 {
        seq!['o', 'r', 'N', 'T']
    } else if k == 33 {
        seq!['P', 'A', 'S', 'T']
    } else if k == 34 {
        seq!['p', 'H', 'Y', 'g']
    } else if k == 35 {
        seq!['p', 'H', 'Y', 's']
    } else if k == 36 {
        seq!['P', 'L', 'T', 'E']
    } else if k == 37 {
        seq!['S', 'A', 'V', 'E']
    } else if k == 38 {
        seq!['s', 'B', 'I', 'T']
    } else if k == 39 {
        seq!['S', 'E', 'E', 'K']
    } else if k == 40 {
        seq!['S', 'H', 'O', 'W']
    } else if k == 41 {
        seq!['s', 'P', 'L', 'T']
    } else if k == 42 {
        seq!['s', 'R', 'G', 'B']
    } else if k == 43 {
        seq!['s', 'T', 'E', 'R']
    } else if k == 44 {
        seq!['T', 'E', 'R', 'M']
    } else if k == 45 {
        seq!['t', 'E', 'X', 't']
    } else if k == 46 {
        seq!['t', 'I', 'M', 'E']
    } else if k == 47 {
        seq!['t', 'R', 'N', 'S']
    } else if k == 48 {
        seq!['v', 'p', 'A', 'g']
    } else if k == 49 {
        seq!['z', 'T', 'X', 't']
    } else {
        Seq::empty()
    }
}

/// The chunk type a four-letter name stands for: its letters as a big-endian `u32`.
pub open spec fn chunk_type_of(name: Seq<char>) -> u32 {
    (name[0] as int * 0x100_0000 + name[1] as int * 0x1_0000 + name[2] as int * 0x100 + name[3] as int) as u32
}

/// The known chunk types are exactly the 50 named chunk types: every one of them (pHYs,
/// tEXt, gAMA, sRGB, ...) is known, so a chunk of such a type is validated, and no other type is.
pub proof fn lemma_known_chunk_types(t: u32)
    ensures
        forall|k: int| 0 <= k < 50 ==> known_chunk_type(#[trigger] chunk_type_of(png_chunk_name(k))),
        known_chunk_type(t) <==> exists|k: int| 0 <= k < 50 && chunk_type_of(png_chunk_name(k)) == t,
{
    assert forall|k: int| 0 <= k < 50 implies known_chunk_type(#[trigger] chunk_type_of(png_chunk_name(k))) by {
        if k == 0 {
            assert(chunk_type_of(png_chunk_name(0)) == 0x4241434bu32);
        } else if k == 1 {
            assert(chunk_type_of(png_chunk_name(1)) == 0x42415349u32);
        } else if k == 2 {
            assert(chunk_type_of(png_chunk_name(2)) == 0x624b4744u32);
        } else if k == 3 {
            assert(chunk_type_of(png_chunk_name(3)) == 0x63614e76u32);
        } else if k == 4 {
            assert(chunk_type_of(png_chunk_name(4)) == 0x6348524du32);
        } else if k == 5 {
            assert(chunk_type_of(png_chunk_name(5)) == 0x434c4950u32);
        } else if k == 6 {
            assert(chunk_type_of(png_chunk_name(6)) == 0x434c4f4eu32);
        } else if k == 7 {
            assert(chunk_type_of(png_chunk_name(7)) == 0x44454649u32);
        } else if k == 8 {
            assert(chunk_type_of(png_chunk_name(8)) == 0x44484452u32);
        } else if k == 9 {
            assert(chunk_type_of(png_chunk_name(9)) == 0x44495343u32);
        } else if k == 10 {
            assert(chunk_type_of(png_chunk_name(10)) == 0x454e444cu32);
        } else if k == 11 {
            assert(chunk_type_of(png_chunk_name(11)) == 0x65584966u32);
        } else if k == 12 {
            assert(chunk_type_of(png_chunk_name(12)) == 0x4652414du32);
        } else if k == 13 {
            assert(chunk_type_of(png_chunk_name(13)) == 0x67414d41u32);
        } else if k == 14 {
            assert(chunk_type_of(png_chunk_name(14)) == 0x68495354u32);
        } else if k == 15 {
            assert(chunk_type_of(png_chunk_name(15)) == 0x69434350u32);
        } else if k == 16 {
            assert(chunk_type_of(png_chunk_name(16)) == 0x49444154u32);
        } else if k == 17 {
            assert(chunk_type_of(png_chunk_name(17)) == 0x49454e44u32);
        } else if k == 18 {
            assert(chunk_type_of(png_chunk_name(18)) == 0x49484452u32);
        } else if k == 19 {
            assert(chunk_type_of(png_chunk_name(19)) == 0x69545874u32);
        } else if k == 20 {
            assert(chunk_type_of(png_chunk_name(20)) == 0x4a644141u32);
        } else if k == 21 {
            assert(chunk_type_of(png_chunk_name(21)) == 0x4a444141u32);
        } else if k == 22 {
            assert(chunk_type_of(png_chunk_name(22)) == 0x4a444154u32);
        } else if k == 23 {
            assert(chunk_type_of(png_chunk_name(23)) == 0x4a484452u32);
        } else if k == 24 {
            assert(chunk_type_of(png_chunk_name(24)) == 0x4a534550u32);
        } else if k == 25 {
            assert(chunk_type_of(png_chunk_name(25)) == 0x4c4f4f50u32);
        } else if k == 26 {
            assert(chunk_type_of(png_chunk_name(26)) == 0x4d41474eu32);
        } else if k == 27 {
            assert(chunk_type_of(png_chunk_name(27)) == 0x4d454e44u32);
        } else if k == 28 {
            assert(chunk_type_of(png_chunk_name(28)) == 0x4d484452u32);
        } else if k == 29 {
            assert(chunk_type_of(png_chunk_name(29)) == 0x4d4f5645u32);
        } else if k == 30 {
            assert(chunk_type_of(png_chunk_name(30)) == 0x6e454544u32);
        } else if k == 31 {
            assert(chunk_type_of(png_chunk_name(31)) == 0x6f464673u32);
        } else if k == 32 {
            assert(chunk_type_of(png_chunk_name(32)) == 0x6f724e54u32);
        } else if k == 33 {
            assert(chunk_type_of(png_chunk_name(33)) == 0x50415354u32);
        } else if k == 34 {
            assert(chunk_type_of(png_chunk_name(34)) == 0x70485967u32);
        } else if k == 35 {
            assert(chunk_type_of(png_chunk_name(35)) == 0x70485973u32);
        } else if k == 36 {
            assert(chunk_type_of(png_chunk_name(36)) == 0x504c5445u32);
        } else if k == 37 {
            assert(chunk_type_of(png_chunk_name(37)) == 0x53415645u32);
        } else if k == 38 {
            assert(chunk_type_of(png_chunk_name(38)) == 0x73424954u32);
        } else if k == 39 {
            assert(chunk_type_of(png_chunk_name(39)) == 0x5345454bu32);
        } else if k == 40 {
            assert(chunk_type_of(png_chunk_name(40)) == 0x53484f57u32);
        } else if k == 41 {
            assert(chunk_type_of(png_chunk_name(41)) == 0x73504c54u32);
        } else if k == 42 {
            assert(chunk_type_of(png_chunk_name(42)) == 0x73524742u32);
        } else if k == 43 {
            assert(chunk_type_of(png_chunk_name(43)) == 0x73544552u32);
        } else if k == 44 {
            assert(chunk_type_of(png_chunk_name(44)) == 0x5445524du32);
        } else if k == 45 {
            assert(chunk_type_of(png_chunk_name(45)) == 0x74455874u32);
        } else if k == 46 {
            assert(chunk_type_of(png_chunk_name(46)) == 0x74494d45u32);
        } else if k == 47 {
            assert(chunk_type_of(png_chunk_name(47)) == 0x74524e53u32);
        } else if k == 48 {
            assert(chunk_type_of(png_chunk_name(48)) == 0x76704167u32);
        } else if k == 49 {
            assert(chunk_type_of(png_chunk_name(49)) == 0x7a545874u32);
        }
    }
    if t == 0x4241434b {
        assert(chunk_type_of(png_chunk_name(0)) == t);
    } else if t == 0x42415349 {
        assert(chunk_type_of(png_chunk_name(1)) == t);
    } else if t == 0x624b4744 {
        assert(chunk_type_of(png_chunk_name(2)) == t);
    } else if t == 0x63614e76 {
        assert(chunk_type_of(png_chunk_name(3)) == t);
    } else if t == 0x6348524d {
        assert(chunk_type_of(png_chunk_name(4)) == t);
    } else if t == 0x434c4950 {
        assert(chunk_type_of(png_chunk_name(5)) == t);
    } else if t == 0x434c4f4e {
        assert(chunk_type_of(png_chunk_name(6)) == t);
    } else if t == 0x44454649 {
        assert(chunk_type_of(png_chunk_name(7)) == t);
    } else if t == 0x44484452 {
        assert(chunk_type_of(png_chunk_name(8)) == t);
    } else if t == 0x44495343 {
        assert(chunk_type_of(png_chunk_name(9)) == t);
    } else if t == 0x454e444c {
        assert(chunk_type_of(png_chunk_name(10)) == t);
    } else if t == 0x65584966 {
        assert(chunk_type_of(png_chunk_name(11)) == t);
    } else if t == 0x4652414d {
        assert(chunk_type_of(png_chunk_name(12)) == t);
    } else if t == 0x67414d41 {
        assert(chunk_type_of(png_chunk_name(13)) == t);
    } else if t == 0x68495354 {
        assert(chunk_type_of(png_chunk_name(14)) == t);
    } else if t == 0x69434350 {
        assert(chunk_type_of(png_chunk_name(15)) == t);
    } else if t == 0x49444154 {
        assert(chunk_type_of(png_chunk_name(16)) == t);
    } else if t == 0x49454e44 {
        assert(chunk_type_of(png_chunk_name(17)) == t);
    } else if t == 0x49484452 {
        assert(chunk_type_of(png_chunk_name(18)) == t);
    } else if t == 0x69545874 {
        assert(chunk_type_of(png_chunk_name(19)) == t);
    } else if t == 0x4a644141 {
        assert(chunk_type_of(png_chunk_name(20)) == t);
    } else if t == 0x4a444141 {
        assert(chunk_type_of(png_chunk_name(21)) == t);
    } else if t == 0x4a444154 {
        assert(chunk_type_of(png_chunk_name(22)) == t);
    } else if t == 0x4a484452 {
        assert(chunk_type_of(png_chunk_name(23)) == t);
    } else if t == 0x4a534550 {
        assert(chunk_type_of(png_chunk_name(24)) == t);
    } else if t == 0x4c4f4f50 {
        assert(chunk_type_of(png_chunk_name(25)) == t);
    } else if t == 0x4d41474e {
        assert(chunk_type_of(png_chunk_name(26)) == t);
    } else if t == 0x4d454e44 {
        assert(chunk_type_of(png_chunk_name(27)) == t);
    } else if t == 0x4d484452 {
        assert(chunk_type_of(png_chunk_name(28)) == t);
    } else if t == 0x4d4f5645 {
        assert(chunk_type_of(png_chunk_name(29)) == t);
    } else if t == 0x6e454544 {
        assert(chunk_type_of(png_chunk_name(30)) == t);
    } else if t == 0x6f464673 {
        assert(chunk_type_of(png_chunk_name(31)) == t);
    } else if t == 0x6f724e54 {
        assert(chunk_type_of(png_chunk_name(32)) == t);
    } else if t == 0x50415354 {
        assert(chunk_type_of(png_chunk_name(33)) == t);
    } else if t == 0x70485967 {
        assert(chunk_type_of(png_chunk_name(34)) == t);
    } else if t == 0x70485973 {
        assert(chunk_type_of(png_chunk_name(35)) == t);
    } else if t == 0x504c5445 {
        assert(chunk_type_of(png_chunk_name(36)) == t);
    } else if t == 0x53415645 {
        assert(chunk_type_of(png_chunk_name(37)) == t);
    } else if t == 0x73424954 {
        assert(chunk_type_of(png_chunk_name(38)) == t);
    } else if t == 0x5345454b {
        assert(chunk_type_of(png_chunk_name(39)) == t);
    } else if t == 0x53484f57 {
        assert(chunk_type_of(png_chunk_name(40)) == t);
    } else if t == 0x73504c54 {
        assert(chunk_type_of(png_chunk_name(41)) == t);
    } else if t == 0x73524742 {
        assert(chunk_type_of(png_chunk_name(42)) == t);
    } else if t == 0x73544552 {
        assert(chunk_type_of(png_chunk_name(43)) == t);
    } else if t == 0x5445524d {
        assert(chunk_type_of(png_chunk_name(44)) == t);
    } else if t == 0x74455874 {
        assert(chunk_type_of(png_chunk_name(45)) == t);
    } else if t == 0x74494d45 {
        assert(chunk_type_of(png_chunk_name(46)) == t);
    } else if t == 0x74524e53 {
        assert(chunk_type_of(png_chunk_name(47)) == t);
    } else if t == 0x76704167 {
        assert(chunk_type_of(png_chunk_name(48)) == t);
    } else if t == 0x7a545874 {
        assert(chunk_type_of(png_chunk_name(49)) == t);
    }
    if exists|k: int| 0 <= k < 50 && chunk_type_of(png_chunk_name(k)) == t {
        let k = choose|k: int| 0 <= k < 50 && chunk_type_of(png_chunk_name(k)) == t;
        assert(known_chunk_type(chunk_type_of(png_chunk_name(k))));
    }
}

/// Whether `t` is a known PNG chunk type.
fn is_known_chunk_type(t: u32) -> (b: bool)
    ensures
        b == known_chunk_type(t),
{
    t == 0x4241434b || t == 0x42415349 || t == 0x624b4744 || t == 0x63614e76 || t == 0x6348524d
        || t == 0x434c4950 || t == 0x434c4f4e || t == 0x44454649 || t == 0x44484452 || t
        == 0x44495343 || t == 0x454e444c || t == 0x65584966 || t == 0x4652414d || t == 0x67414d41
        || t == 0x68495354 || t == 0x69434350 || t == 0x49444154 || t == 0x49454e44 || t
        == 0x49484452 || t == 0x69545874 || t == 0x4a644141 || t == 0x4a444141 || t == 0x4a444154
        || t == 0x4a484452 || t == 0x4a534550 || t == 0x4c4f4f50 || t == 0x4d41474e || t
        == 0x4d454e44 || t == 0x4d484452 || t == 0x4d4f5645 || t == 0x6e454544 || t == 0x6f464673
        || t == 0x6f724e54 || t == 0x50415354 || t == 0x70485967 || t == 0x70485973 || t
        == 0x504c5445 || t == 0x53415645 || t == 0x73424954 || t == 0x5345454b || t == 0x53484f57
        || t == 0x73504c54 || t == 0x73524742 || t == 0x73544552 || t == 0x5445524d || t
        == 0x74455874 || t == 0x74494d45 || t == 0x74524e53 || t == 0x76704167 || t == 0x7a545874
}

/// The IHDR fields are a valid combination: bit depth allowed for the colour type,
/// compression and filter method 0, interlace method 0 or 1, and the data 13 bytes long.
pub open spec fn ihdr_conformant(
    bit_depth: u8,
    colour_type: u8,
    compression_method: u8,
    filter_method: u8,
    interlace_method: u8,
    len: int,
) -> bool {
    &&& (colour_type == 0 && (bit_depth == 1 || bit_depth == 2 || bit_depth == 4 || bit_depth == 8
        || bit_depth == 16)) || ((colour_type == 2 || colour_type == 4 || colour_type == 6) && (
    bit_depth == 8 || bit_depth == 16)) || (colour_type == 3 && (bit_depth == 1 || bit_depth == 2
        || bit_depth == 4 || bit_depth == 8))
    &&& compression_method == 0
    &&& filter_method == 0
    &&& interlace_method < 2
    &&& len as u32 == PNG_IHDR_LEN
}

/// Checking the data of a chunk (the positions `start..start + len` of the fragments of
/// `data`): whether it conforms, and the updated flags "a PLTE chunk is required" and "a PLTE
/// chunk is forbidden". IHDR fields are checked and set the flags from the colour type (3
/// requires a palette, 0 and 4 forbid one); a PLTE chunk's length must be a multiple of 3; other
/// chunks conform.
pub open spec fn spec_chunk_data(
    chunk_type: u32,
    data: Seq<u8>,
    frags: Seq<Fragment>,
    start: int,
    len: int,
    requires_plte: bool,
    plte_forbidden: bool,
) -> (bool, bool, bool) {
    if chunk_type == PNG_IHDR {
        let b = |k: int| data[flat_index(frags, start + k)];
        let colour_type = b(9);
        (
            ihdr_conformant(b(8), colour_type, b(10), b(11), b(12), len),
            if colour_type == 3 {
                true
            } else {
                requires_plte
            },
            if colour_type != 3 && (colour_type == 0 || colour_type == 4) {
                true
            } else {
                plte_forbidden
            },
        )
    } else if chunk_type == PNG_PLTE {
        (len % 3 == 0, requires_plte, plte_forbidden)
    } else {
        (true, requires_plte, plte_forbidden)
    }
}

/// Searching from offset `off` (which can be read) in steps of `cs` for a known chunk type: the
/// offset where one is found, or None once the next offset plus 4 reaches the end of the data or
/// the search limit `msl`.
pub open spec fn find_chunk_type(d: Seq<u8>, off: int, cs: int, msl: int) -> Option<int>
    decreases d.len() - off,
{
    if known_chunk_type(be_u32(d, off)) {
        Some(off)
    } else if cs <= 0 {
        None
    } else {
        let n = off + cs;
        if n + 4 >= d.len() || n + 4 >= msl {
            None
        } else {
            find_chunk_type(d, n, cs, msl)
        }
    }
}

proof fn lemma_find_chunk_type(d: Seq<u8>, off: int, cs: int, msl: int)
    requires
        off + 4 <= d.len(),
    ensures
        match find_chunk_type(d, off, cs, msl) {
            Some(r) => off <= r && r + 4 <= d.len(),
            None => true,
        },
    decreases d.len() - off,
{
    if !known_chunk_type(be_u32(d, off)) && cs > 0 {
        let n = off + cs;
        if !(n + 4 >= d.len() || n + 4 >= msl) {
            lemma_find_chunk_type(d, n, cs, msl);
        }
    }
}

/// Candidate `g` of the in-order arrangements of `n - gap` of the `n` clusters from `fs`: the
/// clusters outside the gap at `g`, merged.
pub open spec fn candidate(fs: int, cs: int, n: int, needed: int, g: int) -> Seq<Fragment> {
    spec_simplify(clusters_outside_gap(fs, cs, n, g, n - needed))
}

/// The first candidate from `g` on whose bytes, between `pre` and `post`, have the CRC `stored`.
pub open spec fn first_crc_match(
    d: Seq<u8>,
    pre: Seq<u8>,
    post: Seq<u8>,
    fs: int,
    cs: int,
    n: int,
    needed: int,
    stored: u32,
    g: int,
) -> Option<int>
    decreases needed + 1 - g,
{
    if g < 0 || g > needed {
        None
    } else if crc32(pre + gather(d, candidate(fs, cs, n, needed, g)) + post) == stored {
        Some(g)
    } else {
        first_crc_match(d, pre, post, fs, cs, n, needed, stored, g + 1)
    }
}

/// Reconstructing the chunk at `chunk_idx` with data length `dlen` whose stored CRC did not
/// match, assuming the length, type and CRC are whole and the fragments in order: search from
/// just past the unfragmented CRC, cluster by cluster, for the next known chunk type; take the
/// CRC just before it; try the arrangements of the clusters between the first cluster boundary
/// after the chunk type and the last one before that CRC that leave out as many clusters as
/// were skipped, and take the first whose CRC matches. The result is the chunk's merged
/// fragments and the index of the next chunk, or None (failure). The outer None: the
/// computation panics (reading past the data, a negative count, a misaligned range, or
/// arrangements of single-byte clusters).
pub open spec fn spec_reconstruct(d: Seq<u8>, chunk_idx: int, dlen: int, cs: int, msl: int) -> Option<
    Option<(Seq<Fragment>, int)>,
> {
    let first = chunk_idx + dlen + 16;
    if first + 4 > d.len() {
        None
    } else if cs <= 0 && !known_chunk_type(be_u32(d, first)) && !(first + 4 >= d.len() || first + 4
        >= msl) {
        None
    } else {
        match find_chunk_type(d, first, cs, msl) {
            None => Some(None),
            Some(nct) => if cs <= 0 {
                None
            } else {
                let stored = be_u32(d, nct - 8);
                let fs = ((chunk_idx + 8) / cs + 1) * cs;
                let fe = ((nct - 8) / cs) * cs;
                let skipped = (nct - first) / cs;
                if fe < fs || (fe - fs) / cs < skipped || (nct - first) % cs != 0 || (fe - fs) % cs
                    != 0 || (cs < 2 && fs < fe) {
                    None
                } else {
                    let n = (fe - fs) / cs;
                    let needed = n - skipped;
                    let pre = d.subrange(chunk_idx + 4, fs);
                    let post = d.subrange(fe, nct - 8);
                    match first_crc_match(d, pre, post, fs, cs, n, needed, stored, 0) {
                        None => Some(None),
                        Some(g) => Some(
                            Some(
                                (
                                    spec_simplify(
                                        seq![Range { start: chunk_idx as u64, end: fs as u64 }]
                                            + candidate(fs, cs, n, needed, g) + seq![
                                            Range { start: fe as u64, end: (nct - 4) as u64 },
                                        ],
                                    ),
                                    nct - 4,
                                ),
                            ),
                        ),
                    }
                }
            },
        }
    }
}

/// The clusters outside a gap lie within the clusters' span.
pub proof fn lemma_clusters_within(start: int, size: int, n: int, g: int, gl: int)
    requires
        size > 0,
        start >= 0,
        n >= 0,
        start + n * size <= u64::MAX,
    ensures
        ranges_within(clusters_outside_gap(start, size, n, g, gl), start, start + n * size),
    decreases n,
{
    if n > 0 {
        assert((n - 1) * size + size == n * size) by (nonlinear_arith);
        assert((n - 1) * size >= 0) by (nonlinear_arith)
            requires
                n >= 1,
                size > 0,
        ;
        lemma_clusters_within(start, size, n - 1, g, gl);
    }
}

/// The outcome of reconstructing a fragmented chunk.
pub enum ChunkReconstructionInfo {
    Success { chunk_frags: Vec<Fragment>, next_chunk_idx: usize },
    Failure,
}

/// The fragments and next chunk index of a reconstruction, None for a failure.
pub open spec fn recon_view(r: ChunkReconstructionInfo) -> Option<(Seq<Fragment>, int)> {
    match r {
        ChunkReconstructionInfo::Success { chunk_frags, next_chunk_idx } => Some(
            (chunk_frags@, next_chunk_idx as int),
        ),
        ChunkReconstructionInfo::Failure => None,
    }
}

/// Room for the index arithmetic of the validator: the data length, a cluster and a 32-bit
/// chunk length with its header fit in a `usize`.
pub open spec fn png_room(len: int, cs: int) -> bool {
    len + cs + 0x1_0000_0020 <= usize::MAX
}

proof fn lemma_reconstruct_within(d: Seq<u8>, chunk_idx: int, dlen: int, cs: int, msl: int)
    requires
        cs >= 0,
        chunk_idx >= 0,
        dlen >= 0,
        png_room(d.len() as int, cs),
    ensures
        match spec_reconstruct(d, chunk_idx, dlen, cs, msl) {
            Some(Some((frags, next))) => ranges_within(frags, 0, d.len() as int) && chunk_idx
                + dlen + 12 <= next <= d.len(),
            _ => true,
        },
{
    let first = chunk_idx + dlen + 16;
    if first + 4 <= d.len() && cs > 0 {
        lemma_find_chunk_type(d, first, cs, msl);
        match find_chunk_type(d, first, cs, msl) {
            None => {},
            Some(nct) => {
                let fs = ((chunk_idx + 8) / cs + 1) * cs;
                let fe = ((nct - 8) / cs) * cs;
                let skipped = (nct - first) / cs;
                if !(fe < fs || (fe - fs) / cs < skipped || (nct - first) % cs != 0 || (fe - fs)
                    % cs != 0 || (cs < 2 && fs < fe)) {
                    let n = (fe - fs) / cs;
                    let needed = n - skipped;
                    lemma_next_multiple(chunk_idx + 8, cs);
                    lemma_next_multiple(nct - 8, cs);
                    vstd::arithmetic::div_mod::lemma_fundamental_div_mod(fe - fs, cs);
                    assert(fs + n * cs == fe) by (nonlinear_arith)
                        requires
                            fe - fs == cs * n + (fe - fs) % cs,
                            (fe - fs) % cs == 0,
                    ;
                    let pre = d.subrange(chunk_idx + 4, fs);
                    let post = d.subrange(fe, nct - 8);
                    match first_crc_match(d, pre, post, fs, cs, n, needed, be_u32(d, nct - 8), 0) {
                        None => {},
                        Some(g) => {
                            lemma_clusters_within(fs, cs, n, g, n - needed);
                            lemma_simplify_within(clusters_outside_gap(fs, cs, n, g, n - needed), fs, fe);
                            let c = candidate(fs, cs, n, needed, g);
                            let all = seq![Range { start: chunk_idx as u64, end: fs as u64 }] + c
                                + seq![Range { start: fe as u64, end: (nct - 4) as u64 }];
                            assert(ranges_within(all, 0, d.len() as int)) by {
                                assert forall|i: int| 0 <= i < all.len() implies 0 <= (
                                #[trigger] all[i]).start <= all[i].end <= d.len() by {
                                    if 0 < i < all.len() - 1 {
                                        assert(all[i] == c[i - 1]);
                                    }
                                }
                            }
                            lemma_simplify_within(all, 0, d.len() as int);
                        },
                    }
                }
            },
        }
    }
}

/// The view of a chunk validation: outcome, chunk type, fragments, and the next chunk's index.
pub type ChunkInfoView = (FileValidationType, u32, Seq<Fragment>, Option<int>);

/// A chunk taken as unfragmented: the range from `chunk_idx` over the chunk's 12 header and
/// trailer bytes and `dlen` data bytes, continuing after it if `cont`.
pub open spec fn spec_unfragmented(
    validation_type: FileValidationType,
    chunk_type: u32,
    chunk_idx: int,
    dlen: int,
    cont: bool,
) -> ChunkInfoView {
    (
        validation_type,
        chunk_type,
        seq![Range { start: chunk_idx as u64, end: (chunk_idx + 12 + dlen) as u64 }],
        if cont {
            Some(chunk_idx + 12 + dlen)
        } else {
            None
        },
    )
}

/// Validating the chunk at `chunk_idx` with palette flags `rp` and `pf`: an unknown chunk type,
/// or a chunk running past the data, is unrecognised (stop); a CRC mismatch on IEND is partial
/// (stop); on another chunk it is reconstructed, partial (stop) if that fails; then the chunk's
/// data (without length, type and CRC), if any, is checked: correct or a format error, and the
/// search continues at the next chunk. With the updated flags; None where the computation
/// panics.
#[verifier::opaque]
pub open spec fn spec_validate_chunk(
    rp: bool,
    pf: bool,
    d: Seq<u8>,
    chunk_idx: int,
    cs: int,
    msl: int,
) -> Option<(ChunkInfoView, bool, bool)> {
    if chunk_idx + 8 > d.len() {
        None
    } else {
        let dlen = be_u32(d, chunk_idx) as int;
        let ct = be_u32(d, chunk_idx + 4);
        if !known_chunk_type(ct) || chunk_idx + dlen + 12 > d.len() {
            Some((spec_unfragmented(FileValidationType::Unrecognised, ct, chunk_idx, 0, false), rp, pf))
        } else {
            let crc_off = chunk_idx + dlen + 8;
            let crc_ok = be_u32(d, crc_off) == crc32(d.subrange(chunk_idx + 4, chunk_idx + 8 + dlen));
            if !crc_ok && ct == PNG_IEND {
                Some((spec_unfragmented(FileValidationType::Partial, ct, chunk_idx, 0, false), rp, pf))
            } else {
                let got = if crc_ok {
                    Some(
                        Some(
                            (
                                seq![Range { start: chunk_idx as u64, end: (crc_off + 4) as u64 }],
                                crc_off + 4,
                            ),
                        ),
                    )
                } else {
                    spec_reconstruct(d, chunk_idx, dlen, cs, msl)
                };
                match got {
                    None => None,
                    Some(None) => Some(
                        (spec_unfragmented(FileValidationType::Partial, ct, chunk_idx, dlen, false), rp, pf),
                    ),
                    Some(Some((frags, next))) => {
                        if dlen > 0 {
                            let flen = frags_len(frags);
                            if flen > usize::MAX || flen <= 12 || (ct == PNG_IHDR && flen - 12 < 13) {
                                None
                            } else {
                                let (ok, rp2, pf2) = spec_chunk_data(ct, d, frags, 8, flen - 12, rp, pf);
                                Some(
                                    (
                                        (
                                            if ok {
                                                FileValidationType::Correct
                                            } else {
                                                FileValidationType::FormatError
                                            },
                                            ct,
                                            frags,
                                            Some(next),
                                        ),
                                        rp2,
                                        pf2,
                                    ),
                                )
                            }
                        } else {
                            Some(((FileValidationType::Correct, ct, frags, Some(next)), rp, pf))
                        }
                    },
                }
            }
        }
    }
}

/// Validating one chunk, as the PNG format lays it out (length and type big-endian at the chunk's
/// start, then the data, then the CRC of type and data): a chunk of an unknown type, or one
/// running past the data, is unrecognised; a chunk of a known type whose stored CRC matches the
/// CRC of its type and data is taken whole, correct or with a format error, and the walk goes on
/// right after its CRC.
pub proof fn lemma_chunk_outcome(rp: bool, pf: bool, d: Seq<u8>, chunk_idx: int, cs: int, msl: int)
    requires
        0 <= chunk_idx,
        chunk_idx + 8 <= d.len(),
    ensures
        ({
            let dlen = d[chunk_idx] as int * 0x100_0000 + d[chunk_idx + 1] as int * 0x1_0000
                + d[chunk_idx + 2] as int * 0x100 + d[chunk_idx + 3] as int;
            let ct = be_u32(d, chunk_idx + 4);
            let end = chunk_idx + dlen + 12;
            &&& !known_chunk_type(ct) || end > d.len() ==> (spec_validate_chunk(rp, pf, d, chunk_idx, cs, msl)
                matches Some((info, _, _)) && info.0 == FileValidationType::Unrecognised)
            &&& known_chunk_type(ct) && end <= d.len() && be_u32(d, end - 4) == crc32(
                d.subrange(chunk_idx + 4, end - 4),
            ) ==> (spec_validate_chunk(rp, pf, d, chunk_idx, cs, msl) matches Some((info, _, _)) ==> {
                &&& info.0 == FileValidationType::Correct || info.0 == FileValidationType::FormatError
                &&& info.1 == ct
                &&& info.2 == seq![Range { start: chunk_idx as u64, end: end as u64 }]
                &&& info.3 == Some(end)
            })
        }),
{
    reveal(spec_validate_chunk);
    let dlen = be_u32(d, chunk_idx) as int;
    assert(dlen == d[chunk_idx] as int * 0x100_0000 + d[chunk_idx + 1] as int * 0x1_0000
        + d[chunk_idx + 2] as int * 0x100 + d[chunk_idx + 3] as int);
    let frags = seq![Range { start: chunk_idx as u64, end: (chunk_idx + dlen + 12) as u64 }];
    assert(frags.drop_last() =~= Seq::<Fragment>::empty());
    assert(frags.last() == frags[0]);
    assert(frags_len(Seq::<Fragment>::empty()) == 0);
    assert(frags_len(frags) == frags[0].end - frags[0].start);
}

/// The outcome of validating one chunk.
pub struct ChunkValidationInfo {
    pub validation_type: FileValidationType,
    pub chunk_type: u32,
    pub chunk_frags: Vec<Fragment>,
    pub next_chunk_idx: Option<usize>,
}

/// The view of a chunk validation.
pub open spec fn civ_view(c: ChunkValidationInfo) -> ChunkInfoView {
    (
        c.validation_type,
        c.chunk_type,
        c.chunk_frags@,
        match c.next_chunk_idx {
            Some(n) => Some(n as int),
            None => None,
        },
    )
}

impl ChunkValidationInfo {
    /// A chunk taken as unfragmented (see `spec_unfragmented`).
    pub fn new_unfragmented(
        validation_type: FileValidationType,
        chunk_type: u32,
        chunk_idx: usize,
        data_len: u32,
        should_continue: bool,
    ) -> (c: Self)
        requires
            chunk_idx + 12 + data_len <= usize::MAX,
        ensures
            civ_view(c) == spec_unfragmented(
                validation_type,
                chunk_type,
                chunk_idx as int,
                data_len as int,
                should_continue,
            ),
    {
        let next_chunk_idx = chunk_idx + 12 + data_len as usize;
        let c = ChunkValidationInfo {
            validation_type,
            chunk_type,
            chunk_frags: vec![Range { start: chunk_idx as u64, end: next_chunk_idx as u64 }],
            next_chunk_idx: if should_continue {
                Some(next_chunk_idx)
            } else {
                None
            },
        };
        assert(c.chunk_frags@ =~= seq![Range { start: chunk_idx as u64, end: next_chunk_idx as u64 }]);
        c
    }

    /// A chunk with the given fragments and next chunk index.
    pub fn new_fragmented(
        validation_type: FileValidationType,
        chunk_type: u32,
        fragments: Vec<Fragment>,
        next_chunk_idx: Option<usize>,
    ) -> (c: Self)
        ensures
            c.validation_type == validation_type,
            c.chunk_type == chunk_type,
            c.chunk_frags == fragments,
            c.next_chunk_idx == next_chunk_idx,
    {
        ChunkValidationInfo { validation_type, chunk_type, chunk_frags: fragments, next_chunk_idx }
    }
}

proof fn lemma_validate_chunk_next(rp: bool, pf: bool, d: Seq<u8>, chunk_idx: int, cs: int, msl: int)
    requires
        cs >= 0,
        chunk_idx >= 0,
        png_room(d.len() as int, cs),
    ensures
        match spec_validate_chunk(rp, pf, d, chunk_idx, cs, msl) {
            Some((info, _, _)) => match info.3 {
                Some(n) => chunk_idx + 12 <= n <= d.len(),
                None => true,
            },
            None => true,
        },
{
    reveal(spec_validate_chunk);
    if chunk_idx + 8 <= d.len() {
        let dlen = be_u32(d, chunk_idx) as int;
        lemma_reconstruct_within(d, chunk_idx, dlen, cs, msl);
    }
}

/// The state of the walk over the chunks of a PNG file.
pub struct PngWalk {
    pub requires_plte: bool,
    pub plte_forbidden: bool,
    pub seen_ihdr: bool,
    pub seen_plte: bool,
    pub seen_idat: bool,
    pub idat_out_of_order: bool,
    pub prev_chunk_type: Option<u32>,
    pub worst: FileValidationType,
}

/// Walking the chunks of a PNG file from `chunk_idx` with state `st` and the fragments so far:
/// each chunk is validated and its fragments added (merged); the worst outcome so far is kept;
/// once it is unrecognised the file is partial; IHDR, PLTE and IDAT are noted (an IDAT after a
/// different chunk that follows an IDAT is out of order); at IEND the file is correct if IHDR and
/// IDAT were seen, the palette is present exactly where required or allowed, and the IDATs are
/// in order, a format error otherwise, then worsened by the worst chunk outcome; it is partial if
/// a chunk gives no next index or the next chunk starts too close to `max_idx`. None where the
/// walk panics.
pub open spec fn png_walk(
    d: Seq<u8>,
    cs: int,
    msl: int,
    max_idx: int,
    chunk_idx: int,
    st: PngWalk,
    frags: Seq<Fragment>,
) -> Option<(FileValidationType, Seq<Fragment>)>
    decreases max_idx - chunk_idx,
{
    match spec_validate_chunk(st.requires_plte, st.plte_forbidden, d, chunk_idx, cs, msl) {
        None => None,
        Some((info, rp2, pf2)) => {
            let (vt, ct, cfrags, next) = info;
            let frags2 = spec_simplify(frags + cfrags);
            let worst2 = worse(st.worst, vt);
            if worst2 == FileValidationType::Unrecognised {
                Some((FileValidationType::Partial, frags2))
            } else if ct == PNG_IEND {
                let end_type = if st.seen_ihdr && st.seen_idat && ((!st.seen_plte && !rp2) || (
                st.seen_plte && !pf2)) && !st.idat_out_of_order {
                    FileValidationType::Correct
                } else {
                    FileValidationType::FormatError
                };
                Some((worse(end_type, worst2), frags2))
            } else {
                let st2 = PngWalk {
                    requires_plte: rp2,
                    plte_forbidden: pf2,
                    seen_ihdr: st.seen_ihdr || ct == PNG_IHDR,
                    seen_plte: st.seen_plte || ct == PNG_PLTE,
                    seen_idat: st.seen_idat || ct == PNG_IDAT,
                    idat_out_of_order: st.idat_out_of_order || (ct == PNG_IDAT && st.seen_idat
                        && st.prev_chunk_type != Some(PNG_IDAT)),
                    prev_chunk_type: Some(ct),
                    worst: worst2,
                };
                match next {
                    None => Some((FileValidationType::Partial, frags2)),
                    Some(n) => if n + 12 >= max_idx {
                        Some((FileValidationType::Partial, frags2))
                    } else if n <= chunk_idx {
                        None
                    } else {
                        png_walk(d, cs, msl, max_idx, n, st2, frags2)
                    },
                }
            }
        },
    }
}

/// Validating a potential PNG file: the walk over its chunks from just after the 8-byte
/// signature, with the signature as the first fragment, up to the type's maximum length from
/// the start (or the end of the data). None where it panics.
pub open spec fn spec_png_validate(
    d: Seq<u8>,
    m: &MatchPair,
    cs: usize,
    config: &SearchlightConfig,
) -> Option<(FileValidationType, Seq<Fragment>)> {
    let start = m.start_idx as usize as int;
    let msl = (match config.max_reconstruction_search_len {
        Some(x) => x,
        None => u64::MAX,
    }) as usize as int;
    let max_idx = match m.file_type.max_len {
        Some(l) => start + l as usize as int,
        None => d.len() as int,
    };
    if start + 8 > usize::MAX || m.start_idx + 8 > u64::MAX || max_idx > usize::MAX {
        None
    } else {
        png_walk(
            d,
            cs as int,
            msl,
            max_idx,
            start + 8,
            PngWalk {
                requires_plte: false,
                plte_forbidden: false,
                seen_ihdr: false,
                seen_plte: false,
                seen_idat: false,
                idat_out_of_order: false,
                prev_chunk_type: None,
                worst: FileValidationType::Correct,
            },
            seq![Range { start: m.start_idx, end: (m.start_idx + 8) as u64 }],
        )
    }
}

proof fn lemma_png_walk_outcome(
    d: Seq<u8>,
    cs: int,
    msl: int,
    max_idx: int,
    chunk_idx: int,
    st: PngWalk,
    frags: Seq<Fragment>,
)
    requires
        rank(st.worst) <= 2,
        frags.len() > 0,
    ensures
        png_walk(d, cs, msl, max_idx, chunk_idx, st, frags) matches Some((t, fs)) ==> rank(t) <= 2
            && fs.len() > 0 && fs[0].start == frags[0].start,
    decreases max_idx - chunk_idx,
{
    reveal(spec_validate_chunk);
    match spec_validate_chunk(st.requires_plte, st.plte_forbidden, d, chunk_idx, cs, msl) {
        None => {},
        Some((info, rp2, pf2)) => {
            let (vt, ct, cfrags, next) = info;
            assert(vt == FileValidationType::Unrecognised || rank(vt) <= 2);
            let frags2 = spec_simplify(frags + cfrags);
            assert((frags + cfrags)[0] == frags[0]);
            lemma_simplify_first(frags + cfrags);
            let worst2 = worse(st.worst, vt);
            if worst2 != FileValidationType::Unrecognised && ct != PNG_IEND {
                let st2 = PngWalk {
                    requires_plte: rp2,
                    plte_forbidden: pf2,
                    seen_ihdr: st.seen_ihdr || ct == PNG_IHDR,
                    seen_plte: st.seen_plte || ct == PNG_PLTE,
                    seen_idat: st.seen_idat || ct == PNG_IDAT,
                    idat_out_of_order: st.idat_out_of_order || (ct == PNG_IDAT && st.seen_idat
                        && st.prev_chunk_type != Some(PNG_IDAT)),
                    prev_chunk_type: Some(ct),
                    worst: worst2,
                };
                match next {
                    Some(n) => if !(n + 12 >= max_idx) && n > chunk_idx {
                        lemma_png_walk_outcome(d, cs, msl, max_idx, n, st2, frags2);
                    },
                    None => {},
                }
            }
        },
    }
}

/// A potential PNG file is never rejected outright: its validation finds it correct, partial
/// or with format errors (so it is always carved), and the fragments it gives begin where the
/// header match begins.
pub proof fn lemma_png_outcome(d: Seq<u8>, m: &MatchPair, cs: usize, config: &SearchlightConfig)
    ensures
        spec_png_validate(d, m, cs, config) matches Some((t, fs)) ==> (t == FileValidationType::Correct
            || t == FileValidationType::Partial || t == FileValidationType::FormatError) && fs.len() > 0
            && fs[0].start == m.start_idx,
{
    let start = m.start_idx as usize as int;
    let msl = (match config.max_reconstruction_search_len {
        Some(x) => x,
        None => u64::MAX,
    }) as usize as int;
    let max_idx = match m.file_type.max_len {
        Some(l) => start + l as usize as int,
        None => d.len() as int,
    };
    let st0 = PngWalk {
        requires_plte: false,
        plte_forbidden: false,
        seen_ihdr: false,
        seen_plte: false,
        seen_idat: false,
        idat_out_of_order: false,
        prev_chunk_type: None,
        worst: FileValidationType::Correct,
    };
    lemma_png_walk_outcome(
        d,
        cs as int,
        msl,
        max_idx,
        start + 8,
        st0,
        seq![Range { start: m.start_idx, end: (m.start_idx + 8) as u64 }],
    );
}

/// A validator for PNG images.
pub struct PngValidator;

impl PngValidator {
    /// The PNG validator.
    pub fn new() -> (v: Self) {
        PngValidator
    }

    /// Whether the four bytes are a known PNG chunk type (read big-endian). The PNG
    /// specification allows any letters; known types are checked so that text is not taken for
    /// chunks.
    fn validate_chunk_type(chunk_type: &[u8]) -> (b: bool)
        requires
            chunk_type@.len() == 4,
        ensures
            b == known_chunk_type(be_u32(chunk_type@, 0)),
    {
        let t = read_be_u32(chunk_type, 0);
        is_known_chunk_type(t)
    }

    /// Validates and, if needed, reconstructs the chunk at `chunk_idx` (see
    /// `spec_validate_chunk`), updating the palette flags.
    fn validate_chunk(
        requires_plte: &mut bool,
        plte_forbidden: &mut bool,
        file_data: &[u8],
        chunk_idx: usize,
        cluster_size: usize,
        max_search_len: usize,
    ) -> (r: ChunkValidationInfo)
        requires
            png_room(file_data@.len() as int, cluster_size as int),
            spec_validate_chunk(
                *old(requires_plte),
                *old(plte_forbidden),
                file_data@,
                chunk_idx as int,
                cluster_size as int,
                max_search_len as int,
            ) is Some,
        ensures
            (civ_view(r), *final(requires_plte), *final(plte_forbidden)) == spec_validate_chunk(
                *old(requires_plte),
                *old(plte_forbidden),
                file_data@,
                chunk_idx as int,
                cluster_size as int,
                max_search_len as int,
            )->0,
    {
        reveal(spec_validate_chunk);
        let ghost d = file_data@;
        let chunk_data_len = read_be_u32(file_data, chunk_idx);
        let chunk_type = read_be_u32(file_data, chunk_idx + 4);
        let chunk_type_valid = Self::validate_chunk_type(&file_data[(chunk_idx + 4)..(chunk_idx + 8)]);
        assert(be_u32(file_data@.subrange(chunk_idx + 4, chunk_idx + 8), 0) == chunk_type);
        if !chunk_type_valid || chunk_idx + chunk_data_len as usize + 12 > file_data.len() {
            return ChunkValidationInfo::new_unfragmented(
                FileValidationType::Unrecognised,
                chunk_type,
                chunk_idx,
                0,
                false,
            );
        }
        let unfrag_crc_offset = chunk_idx + chunk_data_len as usize + 8;
        let crc = read_be_u32(file_data, unfrag_crc_offset);
        let calc_crc = crc32_hash(&file_data[(chunk_idx + 4)..(chunk_idx + 8 + chunk_data_len as usize)]);
        let (chunk_frags, next_chunk_idx) = if crc != calc_crc {
            if chunk_type == PNG_IEND {
                return ChunkValidationInfo::new_unfragmented(
                    FileValidationType::Partial,
                    chunk_type,
                    chunk_idx,
                    0,
                    false,
                );
            }
            let recons_info = Self::reconstruct_chunk(
                file_data,
                chunk_idx,
                chunk_data_len as usize,
                cluster_size,
                max_search_len,
            );
            match recons_info {
                ChunkReconstructionInfo::Failure => {
                    return ChunkValidationInfo::new_unfragmented(
                        FileValidationType::Partial,
                        chunk_type,
                        chunk_idx,
                        chunk_data_len,
                        false,
                    );
                },
                ChunkReconstructionInfo::Success { chunk_frags, next_chunk_idx } => {
                    proof {
                        lemma_reconstruct_within(
                            d,
                            chunk_idx as int,
                            chunk_data_len as int,
                            cluster_size as int,
                            max_search_len as int,
                        );
                    }
                    (chunk_frags, next_chunk_idx)
                },
            }
        } else {
            let v = vec![Range { start: chunk_idx as u64, end: (unfrag_crc_offset + 4) as u64 }];
            assert(v@ =~= seq![Range { start: chunk_idx as u64, end: (unfrag_crc_offset + 4) as u64 }]);
            (v, unfrag_crc_offset + 4)
        };
        assert(ranges_within(chunk_frags@, 0, d.len() as int));
        let chunk_data_validation = if chunk_data_len > 0 {
            let chunk_data_indexable = FragmentsIndex::new_sliced(file_data, chunk_frags.as_slice(), 8, 4);
            proof {
                assert forall|k: int| 0 <= k < chunk_data_indexable.spec_len() implies 0
                    <= #[trigger] flat_index(
                    chunk_data_indexable.spec_frags(),
                    chunk_data_indexable.spec_start() + k,
                ) < chunk_data_indexable.spec_data().len() by {
                    crate::validation::lemma_flat_index_within(chunk_frags@, 8 + k, d.len() as int);
                }
            }
            Self::validate_chunk_data(chunk_type, chunk_data_indexable, requires_plte, plte_forbidden)
        } else {
            true
        };
        ChunkValidationInfo::new_fragmented(
            if chunk_data_validation {
                FileValidationType::Correct
            } else {
                FileValidationType::FormatError
            },
            chunk_type,
            chunk_frags,
            Some(next_chunk_idx),
        )
    }

    /// Reconstructs a fragmented chunk (see `spec_reconstruct`).
    fn reconstruct_chunk(
        file_data: &[u8],
        chunk_idx: usize,
        chunk_data_len: usize,
        cluster_size: usize,
        max_search_len: usize,
    ) -> (r: ChunkReconstructionInfo)
        requires
            file_data@.len() + cluster_size + 16 <= usize::MAX,
            chunk_idx + chunk_data_len + 12 <= file_data@.len(),
            spec_reconstruct(
                file_data@,
                chunk_idx as int,
                chunk_data_len as int,
                cluster_size as int,
                max_search_len as int,
            ) is Some,
        ensures
            recon_view(r) == spec_reconstruct(
                file_data@,
                chunk_idx as int,
                chunk_data_len as int,
                cluster_size as int,
                max_search_len as int,
            )->0,
    {
        let ghost d = file_data@;
        let ghost cs = cluster_size as int;
        let ghost msl = max_search_len as int;
        let unfrag_crc_offset = chunk_idx + chunk_data_len + 8;
        let first = unfrag_crc_offset + 8;
        let mut next_chunk_type_offset = first;
        let mut found = Self::validate_chunk_type(
            &file_data[next_chunk_type_offset..next_chunk_type_offset + 4],
        );
        assert(file_data@.subrange(first as int, first + 4) =~= file_data@.subrange(
            first as int,
            first + 4,
        ));
        assert(be_u32(file_data@.subrange(first as int, first + 4), 0) == be_u32(d, first as int));
        while !found
            invariant
                d == file_data@,
                cs == cluster_size,
                cluster_size == 0 ==> next_chunk_type_offset == first && (first + 4 >= d.len()
                    || first + 4 >= msl),
                msl == max_search_len,
                file_data@.len() + cluster_size + 16 <= usize::MAX,
                first == chunk_idx + chunk_data_len + 16,
                first <= next_chunk_type_offset,
                next_chunk_type_offset + 4 <= d.len(),
                found == known_chunk_type(be_u32(d, next_chunk_type_offset as int)),
                find_chunk_type(d, first as int, cs, msl) == find_chunk_type(
                    d,
                    next_chunk_type_offset as int,
                    cs,
                    msl,
                ),
            decreases d.len() - next_chunk_type_offset,
        {
            next_chunk_type_offset += cluster_size;
            if next_chunk_type_offset + 4 >= file_data.len() || next_chunk_type_offset + 4
                >= max_search_len {
                assert(find_chunk_type(d, first as int, cs, msl) is None);
                assert(first + 4 <= d.len());
                assert(spec_reconstruct(d, chunk_idx as int, chunk_data_len as int, cs, msl) == Some(
                    None::<(Seq<Fragment>, int)>,
                ));
                return ChunkReconstructionInfo::Failure;
            }
            let nct = next_chunk_type_offset;
            found = Self::validate_chunk_type(&file_data[nct..nct + 4]);
            assert(be_u32(file_data@.subrange(nct as int, nct + 4), 0) == be_u32(d, nct as int));
        }
        let nct = next_chunk_type_offset;
        proof {
            lemma_find_chunk_type(d, first as int, cs, msl);
        }
        let stored_crc = read_be_u32(file_data, nct - 8);
        proof {
            lemma_next_multiple(chunk_idx + 8, cs);
            lemma_next_multiple(nct - 8, cs);
        }
        let fragmentation_start = next_multiple_of((chunk_idx + 8) as u64, cluster_size as u64)
            as usize;
        let fragmentation_end = prev_multiple_of((nct - 8) as u64, cluster_size as u64) as usize;
        let clusters_skipped = (nct - first) / cluster_size;
        let ghost fs = fragmentation_start as int;
        let ghost fe = fragmentation_end as int;
        assert(fs == ((chunk_idx + 8) / cs + 1) * cs);
        assert(fe == ((nct - 8) / cs) * cs);
        let clusters_needed = ((fragmentation_end - fragmentation_start) / cluster_size)
            - clusters_skipped;
        let ghost n = (fe - fs) / cs;
        proof {
            vstd::arithmetic::div_mod::lemma_fundamental_div_mod(fe - fs, cs);
            assert(fs + n * cs == fe) by (nonlinear_arith)
                requires
                    fe - fs == cs * n + (fe - fs) % cs,
                    (fe - fs) % cs == 0,
            ;
            assert(fs >= 0);
            lemma_clusters_within(fs, cs, n, 0, n - clusters_needed);
        }
        let fragmentations = generate_fragmentations(
            cluster_size,
            Range { start: fragmentation_start, end: fragmentation_end },
            clusters_needed,
        );
        let ghost pre = d.subrange(chunk_idx + 4, fs);
        let ghost post = d.subrange(fe, nct - 8);
        let mut g: usize = 0;
        let mut hit = false;
        while !hit && g < fragmentations.len()
            invariant
                d == file_data@,
                g <= fragmentations@.len(),
                fragmentations@.len() == clusters_needed + 1,
                forall|k: int|
                    0 <= k < fragmentations@.len() ==> #[trigger] fragmentations@[k]@ == candidate(
                        fs,
                        cs,
                        n,
                        clusters_needed as int,
                        k,
                    ),
                cs == cluster_size,
                cluster_size > 0,
                fs == fragmentation_start,
                fe == fragmentation_end,
                fs + n * cs == fe,
                n >= 0,
                fs >= 0,
                chunk_idx + 4 <= fs <= fe <= nct - 8,
                nct - 4 <= d.len(),
                pre == d.subrange(chunk_idx + 4, fs),
                post == d.subrange(fe, nct - 8),
                hit ==> g < fragmentations@.len() && first_crc_match(
                    d,
                    pre,
                    post,
                    fs,
                    cs,
                    n,
                    clusters_needed as int,
                    stored_crc,
                    0,
                ) == Some(g as int),
                !hit ==> first_crc_match(
                    d,
                    pre,
                    post,
                    fs,
                    cs,
                    n,
                    clusters_needed as int,
                    stored_crc,
                    0,
                ) == first_crc_match(
                    d,
                    pre,
                    post,
                    fs,
                    cs,
                    n,
                    clusters_needed as int,
                    stored_crc,
                    g as int,
                ),
            decreases fragmentations@.len() - g + (if hit { 0int } else { 1 }),
        {
            proof {
                lemma_clusters_within(fs, cs, n, g as int, n - clusters_needed);
                lemma_simplify_within(
                    clusters_outside_gap(fs, cs, n, g as int, n - clusters_needed),
                    fs,
                    fe,
                );
            }
            let mut buf: Vec<u8> = Vec::new();
            append_range(&mut buf, file_data, chunk_idx + 4, fragmentation_start);
            append_ranges(&mut buf, file_data, &fragmentations[g]);
            append_range(&mut buf, file_data, fragmentation_end, nct - 8);
            let calc_crc = crc32_hash(buf.as_slice());
            assert(buf@ =~= pre + gather(d, candidate(fs, cs, n, clusters_needed as int, g as int)) + post);
            if calc_crc == stored_crc {
                hit = true;
            } else {
                g += 1;
            }
        }
        let correct: Option<usize> = if hit { Some(g) } else { None };
        match correct {
            Some(k) => {
                let mut fragmentations = fragmentations;
                let mut data_frags = fragmentations.remove(k);
                data_frags.insert(0, Range { start: chunk_idx as u64, end: fragmentation_start as u64 });
                data_frags.push(Range { start: fragmentation_end as u64, end: (nct - 4) as u64 });
                let ghost before = data_frags@;
                assert(before =~= seq![Range { start: chunk_idx as u64, end: fs as u64 }] + candidate(
                    fs,
                    cs,
                    n,
                    clusters_needed as int,
                    k as int,
                ) + seq![Range { start: fe as u64, end: (nct - 4) as u64 }]);
                simplify_ranges(&mut data_frags);
                assert(find_chunk_type(d, first as int, cs, msl) == Some(nct as int));
                ChunkReconstructionInfo::Success { chunk_frags: data_frags, next_chunk_idx: nct - 4 }
            },
            None => {
                assert(find_chunk_type(d, first as int, cs, msl) == Some(nct as int));
                ChunkReconstructionInfo::Failure
            },
        }
    }

    /// Checks the data of a chunk of type `chunk_type` (see `spec_chunk_data`), updating the
    /// palette flags.
    fn validate_chunk_data(
        chunk_type: u32,
        data: FragmentsIndex,
        requires_plte: &mut bool,
        plte_forbidden: &mut bool,
    ) -> (conformant: bool)
        requires
            data.wf(),
            chunk_type == PNG_IHDR ==> data.spec_len() >= 13,
            forall|k: int|
                0 <= k < data.spec_len() ==> 0 <= #[trigger] flat_index(
                    data.spec_frags(),
                    data.spec_start() + k,
                ) < data.spec_data().len(),
        ensures
            (conformant, *final(requires_plte), *final(plte_forbidden)) == spec_chunk_data(
                chunk_type,
                data.spec_data(),
                data.spec_frags(),
                data.spec_start(),
                data.spec_len(),
                *old(requires_plte),
                *old(plte_forbidden),
            ),
    {
        if chunk_type == PNG_IHDR {
            assert(0 <= flat_index(data.spec_frags(), data.spec_start() + 8) < data.spec_data().len());
            assert(0 <= flat_index(data.spec_frags(), data.spec_start() + 9) < data.spec_data().len());
            assert(0 <= flat_index(data.spec_frags(), data.spec_start() + 10) < data.spec_data().len());
            assert(0 <= flat_index(data.spec_frags(), data.spec_start() + 11) < data.spec_data().len());
            assert(0 <= flat_index(data.spec_frags(), data.spec_start() + 12) < data.spec_data().len());
            let bit_depth: u8 = *data.index(8);
            let colour_type: u8 = *data.index(9);
            let compression_method: u8 = *data.index(10);
            let filter_method: u8 = *data.index(11);
            let interlace_method: u8 = *data.index(12);

            if colour_type == 3 {
                *requires_plte = true;
            } else if colour_type == 0 || colour_type == 4 {
                *plte_forbidden = true;
            }
            let bit_depth_colour_type_valid = (colour_type == 0 && (bit_depth == 1 || bit_depth == 2
                || bit_depth == 4 || bit_depth == 8 || bit_depth == 16)) || ((colour_type == 2
                || colour_type == 4 || colour_type == 6) && (bit_depth == 8 || bit_depth == 16)) || (
            colour_type == 3 && (bit_depth == 1 || bit_depth == 2 || bit_depth == 4 || bit_depth
                == 8));
            let compression_method_valid = compression_method == 0;
            let filter_method_valid = filter_method == 0;
            let interlace_method_valid = interlace_method < 2;
            bit_depth_colour_type_valid && compression_method_valid && filter_method_valid
                && interlace_method_valid && data.len() as u32 == PNG_IHDR_LEN
        } else if chunk_type == PNG_PLTE {
            data.len() % 3 == 0
        } else {
            true
        }
    }
}

impl FileValidator for PngValidator {
    open spec fn validate_ok(
        &self,
        file_data: Seq<u8>,
        file_match: &MatchPair,
        all_matches: Seq<Match>,
        cluster_size: usize,
        config: &SearchlightConfig,
    ) -> bool {
        &&& png_room(file_data.len() as int, cluster_size as int)
        &&& spec_png_validate(file_data, file_match, cluster_size, config) is Some
    }

    open spec fn validate_result(
        &self,
        file_data: Seq<u8>,
        file_match: &MatchPair,
        all_matches: Seq<Match>,
        cluster_size: usize,
        config: &SearchlightConfig,
        result: (FileValidationType, Seq<Fragment>),
    ) -> bool {
        Some(result) == spec_png_validate(file_data, file_match, cluster_size, config)
    }

    /// Walks the chunks of the PNG file from just after its signature (see
    /// `spec_png_validate`), reconstructing fragmented chunks, as the PNG specification
    /// (https://www.w3.org/TR/png-3/) describes them.
    fn validate(
        &self,
        file_data: &[u8],
        file_match: &MatchPair,
        _all_matches: &[Match],
        cluster_size: usize,
        config: &SearchlightConfig,
    ) -> (r: FileValidationInfo) {
        let ghost d = file_data@;
        let ghost target = spec_png_validate(file_data@, file_match, cluster_size, config);
        let start = file_match.start_idx as usize;
        let mut chunk_idx = start + 8;
        let mut requires_plte = false;
        let mut plte_forbidden = false;
        let mut seen_ihdr = false;
        let mut seen_plte = false;
        let mut seen_idat = false;
        let mut idat_out_of_order = false;
        let mut prev_chunk_type: Option<u32> = None;
        let mut worst_chunk_validation = FileValidationType::Correct;
        let max_idx: usize = match file_match.file_type.max_len {
            Some(max_len) => start + max_len as usize,
            None => file_data.len(),
        };
        let max_search_len = (match config.max_reconstruction_search_len {
            Some(x) => x,
            None => u64::MAX,
        }) as usize;
        let mut fragments: Vec<Fragment> = vec![
            Range { start: file_match.start_idx, end: file_match.start_idx + 8 },
        ];
        assert(fragments@ =~= seq![Range { start: file_match.start_idx, end: (file_match.start_idx + 8) as u64 }]);
        loop
            invariant
                d == file_data@,
                png_room(d.len() as int, cluster_size as int),
                max_idx <= usize::MAX,
                chunk_idx <= usize::MAX,
                target == spec_png_validate(file_data@, file_match, cluster_size, config),
                target is Some,
                png_walk(
                    d,
                    cluster_size as int,
                    max_search_len as int,
                    max_idx as int,
                    chunk_idx as int,
                    PngWalk {
                        requires_plte,
                        plte_forbidden,
                        seen_ihdr,
                        seen_plte,
                        seen_idat,
                        idat_out_of_order,
                        prev_chunk_type,
                        worst: worst_chunk_validation,
                    },
                    fragments@,
                ) == target,
            decreases max_idx - chunk_idx,
        {
            let ghost st = PngWalk {
                requires_plte,
                plte_forbidden,
                seen_ihdr,
                seen_plte,
                seen_idat,
                idat_out_of_order,
                prev_chunk_type,
                worst: worst_chunk_validation,
            };
            proof {
                lemma_validate_chunk_next(
                    requires_plte,
                    plte_forbidden,
                    d,
                    chunk_idx as int,
                    cluster_size as int,
                    max_search_len as int,
                );
            }
            let mut chunk_info = Self::validate_chunk(
                &mut requires_plte,
                &mut plte_forbidden,
                file_data,
                chunk_idx,
                cluster_size,
                max_search_len,
            );
            let ghost info = civ_view(chunk_info);
            let ghost frags0 = fragments@;
            assert(spec_validate_chunk(st.requires_plte, st.plte_forbidden, d, chunk_idx as int, cluster_size as int, max_search_len as int) == Some((info, requires_plte, plte_forbidden)));
            fragments.append(&mut chunk_info.chunk_frags);
            simplify_ranges(&mut fragments);
            assert(fragments@ == spec_simplify(frags0 + info.2));
            worst_chunk_validation = worst_chunk_validation.worst_of(chunk_info.validation_type);
            if worst_chunk_validation == FileValidationType::Unrecognised {
                assert(png_walk(d, cluster_size as int, max_search_len as int, max_idx as int, chunk_idx as int, st, frags0) == Some((FileValidationType::Partial, fragments@)));
                return FileValidationInfo { validation_type: FileValidationType::Partial, fragments };
            }
            let ct = chunk_info.chunk_type;
            if ct == PNG_IHDR {
                seen_ihdr = true;
            } else if ct == PNG_PLTE {
                seen_plte = true;
            } else if ct == PNG_IDAT {
                let prev_is_idat = match prev_chunk_type {
                    Some(t) => t == PNG_IDAT,
                    None => false,
                };
                if seen_idat && !prev_is_idat {
                    idat_out_of_order = true;
                }
                seen_idat = true;
            } else if ct == PNG_IEND {
                let validation_type = if seen_ihdr && seen_idat && ((!seen_plte && !requires_plte) || (
                seen_plte && !plte_forbidden)) && !idat_out_of_order {
                    FileValidationType::Correct
                } else {
                    FileValidationType::FormatError
                };
                return FileValidationInfo {
                    validation_type: validation_type.worst_of(worst_chunk_validation),
                    fragments,
                };
            }
            prev_chunk_type = Some(ct);
            chunk_idx = match chunk_info.next_chunk_idx {
                Some(next_chunk_idx) => next_chunk_idx,
                None => {
                    return FileValidationInfo {
                        validation_type: FileValidationType::Partial,
                        fragments,
                    };
                },
            };
            if chunk_idx + 12 >= max_idx {
                return FileValidationInfo { validation_type: FileValidationType::Partial, fragments };
            }
        }
    }
}

} // verus!
