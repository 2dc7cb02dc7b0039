use std::ops::Range;

use vstd::prelude::*;

use crate::search::pairing::MatchPair;
use crate::search::Match;
use crate::searchlight::config::SearchlightConfig;
use crate::validation::png::PNG_IEND;
use crate::validation::{crc32, crc32_hash, FileValidationInfo, FileValidationType, FileValidator, Fragment};

verus! {

/// What the next byte of a PNG stream is read as. The CRC of a chunk is computed over the
/// bytes of its type and data, which the reading states collect.
pub enum State {
    /// Reading the chunk data length (big-endian), accumulated so far.
    ReadingChunkLen { data_len: u32 },
    /// Reading the chunk type, accumulated so far, with the bytes to be checksummed.
    ReadingChunkType { data_len: u32, c_type: u32, crc_data: Vec<u8> },
    /// Reading the chunk data of the given type, with the bytes to be checksummed.
    ReadingChunkData { data_len: u32, c_type: u32, crc_data: Vec<u8> },
    /// Reading the stored CRC, accumulated so far, against the calculated one.
    ReadingCrc { c_type: u32, data_crc: u32, crc: u32 },
    /// The IEND chunk has been read whole.
    EndOfFile,
}

/// The view of a reading state, with the bytes to be checksummed as a sequence.
pub enum StateView {
    ReadingChunkLen { data_len: u32 },
    ReadingChunkType { data_len: u32, c_type: u32, crc_data: Seq<u8> },
    ReadingChunkData { data_len: u32, c_type: u32, crc_data: Seq<u8> },
    ReadingCrc { c_type: u32, data_crc: u32, crc: u32 },
    EndOfFile,
}

impl State {
    /// The state as a view.
    pub open spec fn view(&self) -> StateView {
        match self {
            State::ReadingChunkLen { data_len } => StateView::ReadingChunkLen { data_len: *data_len },
            State::ReadingChunkType { data_len, c_type, crc_data } => StateView::ReadingChunkType {
                data_len: *data_len,
                c_type: *c_type,
                crc_data: crc_data@,
            },
            State::ReadingChunkData { data_len, c_type, crc_data } => StateView::ReadingChunkData {
                data_len: *data_len,
                c_type: *c_type,
                crc_data: crc_data@,
            },
            State::ReadingCrc { c_type, data_crc, crc } => StateView::ReadingCrc {
                c_type: *c_type,
                data_crc: *data_crc,
                crc: *crc,
            },
            State::EndOfFile => StateView::EndOfFile,
        }
    }
}

/// An ASCII letter.
pub open spec fn is_letter(b: u8) -> bool {
    (0x41 <= b <= 0x5a) || (0x61 <= b <= 0x7a)
}

/// `validate_byte` does not panic: not past the end, no more than 4 CRC bytes, room to count.
pub open spec fn byte_ok(st: StateView, counter: int) -> bool {
    &&& !(st is EndOfFile)
    &&& (st is ReadingCrc ==> counter <= 3)
    &&& counter + 1 <= usize::MAX
}

/// Reading `byte` in state `st` with `counter` bytes of the current field read: the next state,
/// the next counter and whether the byte is valid. A length byte is shifted in; after four the
/// chunk type is read. A type byte must be a letter and is shifted in and checksummed; after
/// four the data is read, or the CRC if there is no data. A data byte is checksummed; after the
/// last the CRC is read, against the CRC of the checksummed bytes. A CRC byte is placed from
/// the most significant end and must agree with the calculated CRC so far; after four, the file
/// ends if the chunk is IEND, else the next chunk's length is read. A valid byte advances the
/// counter; a new state restarts it.
pub open spec fn spec_validate_byte(st: StateView, counter: int, byte: u8) -> (StateView, int, bool) {
    let (next, new_state, validated): (StateView, Option<StateView>, bool) = match st {
        StateView::ReadingChunkLen { data_len } => {
            let dl = (data_len << 8u32) ^ (byte as u32);
            (
                StateView::ReadingChunkLen { data_len: dl },
                if counter == 3 {
                    Some(StateView::ReadingChunkType { data_len: dl, c_type: 0, crc_data: Seq::empty() })
                } else {
                    None
                },
                true,
            )
        },
        StateView::ReadingChunkType { data_len, c_type, crc_data } => {
            if is_letter(byte) {
                let ct = (c_type << 8u32) ^ (byte as u32);
                let cd = crc_data.push(byte);
                (
                    StateView::ReadingChunkType { data_len, c_type: ct, crc_data: cd },
                    if counter == 3 {
                        if data_len == 0 {
                            Some(StateView::ReadingCrc { c_type: ct, data_crc: crc32(cd), crc: 0 })
                        } else {
                            Some(StateView::ReadingChunkData { data_len, c_type: ct, crc_data: cd })
                        }
                    } else {
                        None
                    },
                    true,
                )
            } else {
                (st, None, false)
            }
        },
        StateView::ReadingChunkData { data_len, c_type, crc_data } => {
            let cd = crc_data.push(byte);
            (
                StateView::ReadingChunkData { data_len, c_type, crc_data: cd },
                if counter + 1 == data_len {
                    Some(StateView::ReadingCrc { c_type, data_crc: crc32(cd), crc: 0 })
                } else {
                    None
                },
                true,
            )
        },
        StateView::ReadingCrc { c_type, data_crc, crc } => {
            let shift = ((3 - counter) * 8) as u32;
            let c = crc ^ ((byte as u32) << shift);
            if (c >> shift) == (data_crc >> shift) {
                (
                    StateView::ReadingCrc { c_type, data_crc, crc: c },
                    if counter == 3 {
                        if c_type == PNG_IEND {
                            Some(StateView::EndOfFile)
                        } else {
                            Some(StateView::ReadingChunkLen { data_len: 0 })
                        }
                    } else {
                        None
                    },
                    true,
                )
            } else {
                (StateView::ReadingCrc { c_type, data_crc, crc: c }, None, false)
            }
        },
        StateView::EndOfFile => (st, None, false),
    };
    let counter2 = if validated {
        counter + 1
    } else {
        counter
    };
    match new_state {
        Some(ns) => (ns, 0, validated),
        None => (next, counter2, validated),
    }
}

/// The end of the file is reached only on the fourth byte of the CRC of an IEND chunk, and only
/// where the stored CRC agrees with the calculated one; once at the end, every further byte is
/// refused and the state stays at the end.
pub proof fn lemma_end_of_file(st: StateView, counter: int, byte: u8)
    ensures
        st == StateView::EndOfFile ==> spec_validate_byte(st, counter, byte) == (st, counter, false),
        st != StateView::EndOfFile && spec_validate_byte(st, counter, byte).0 == StateView::EndOfFile ==> {
            &&& st matches StateView::ReadingCrc { c_type, data_crc, crc } && c_type == PNG_IEND
                && counter == 3 && (crc ^ (byte as u32)) == data_crc
            &&& spec_validate_byte(st, counter, byte).2
        },
{
    if let StateView::ReadingCrc { c_type, data_crc, crc } = st {
        if counter == 3 {
            let shift = ((3 - counter) * 8) as u32;
            assert(shift == 0);
            let c = crc ^ ((byte as u32) << shift);
            assert(((byte as u32) << 0u32) == byte as u32) by (bit_vector);
            assert((c >> 0u32) == c && (data_crc >> 0u32) == data_crc) by (bit_vector);
        }
    }
}

/// Validates `byte` in the reading state, updating the state and the counter of bytes read of
/// the current field (see `spec_validate_byte`).
fn validate_byte(state: &mut State, counter: &mut usize, byte: u8) -> (validated: bool)
    requires
        byte_ok(old(state).view(), *old(counter) as int),
    ensures
        (final(state).view(), *final(counter) as int, validated) == spec_validate_byte(
            old(state).view(),
            *old(counter) as int,
            byte,
        ),
{
    let mut new_state: Option<State> = None;
    let validated = match state {
        State::ReadingChunkLen { data_len } => {
            *data_len = *data_len << 8u32;
            *data_len = *data_len ^ byte as u32;
            if *counter == 3 {
                new_state = Some(
                    State::ReadingChunkType { data_len: *data_len, c_type: 0, crc_data: Vec::new() },
                );
            }
            true
        },
        State::ReadingChunkType { data_len, c_type, crc_data } => {
            if (0x41 <= byte && byte <= 0x5a) || (0x61 <= byte && byte <= 0x7a) {
                *c_type = *c_type << 8u32;
                *c_type = *c_type ^ byte as u32;
                crc_data.push(byte);
                if *counter == 3 {
                    if *data_len == 0 {
                        new_state = Some(
                            State::ReadingCrc {
                                c_type: *c_type,
                                data_crc: crc32_hash(crc_data.as_slice()),
                                crc: 0,
                            },
                        );
                    } else {
                        let mut data: Vec<u8> = Vec::new();
                        data.append(crc_data);
                        new_state = Some(
                            State::ReadingChunkData { data_len: *data_len, c_type: *c_type, crc_data: data },
                        );
                    }
                }
                true
            } else {
                false
            }
        },
        State::ReadingChunkData { data_len, c_type, crc_data } => {
            crc_data.push(byte);
            if *counter + 1 == *data_len as usize {
                new_state = Some(
                    State::ReadingCrc {
                        c_type: *c_type,
                        data_crc: crc32_hash(crc_data.as_slice()),
                        crc: 0,
                    },
                );
            }
            true
        },
        State::ReadingCrc { c_type, data_crc, crc } => {
            let byte_idx = 3 - *counter;
            let shift = (byte_idx * 8) as u32;
            *crc = *crc ^ ((byte as u32) << shift);
            if (*crc >> shift) == (*data_crc >> shift) {
                if *counter == 3 {
                    if *c_type == PNG_IEND {
                        new_state = Some(State::EndOfFile);
                    } else {
                        new_state = Some(State::ReadingChunkLen { data_len: 0 });
                    }
                }
                true
            } else {
                false
            }
        },
        State::EndOfFile => false,
    };
    if validated {
        *counter += 1;
    }
    match new_state {
        Some(ns) => {
            *state = ns;
            *counter = 0;
        },
        None => {},
    }
    validated
}

/// Reading the stream from byte `i` in state `st`: the file is correct, as the single fragment
/// from the start of the data through the byte that completes IEND, once IEND has been read;
/// partial if the data ends first. None where a byte does not validate (or reading panics).
pub open spec fn png2_run(d: Seq<u8>, i: int, st: StateView, counter: int) -> Option<
    (FileValidationType, Seq<Fragment>),
>
    decreases d.len() - i,
{
    if i < 0 || i >= d.len() {
        Some((FileValidationType::Partial, Seq::empty()))
    } else if !byte_ok(st, counter) {
        None
    } else {
        let (st2, c2, v) = spec_validate_byte(st, counter, d[i]);
        if !v {
            None
        } else if st2 is EndOfFile {
            Some((FileValidationType::Correct, seq![Range { start: 0u64, end: (i + 1) as u64 }]))
        } else {
            png2_run(d, i + 1, st2, c2)
        }
    }
}

/// Validating a potential PNG file byte by byte from just after its signature.
pub open spec fn spec_png2_validate(d: Seq<u8>, m: &MatchPair) -> Option<
    (FileValidationType, Seq<Fragment>),
> {
    let start = m.start_idx as usize as int;
    if start + 8 > usize::MAX {
        None
    } else {
        png2_run(d, start + 8, StateView::ReadingChunkLen { data_len: 0 }, 0)
    }
}

/// A validator for PNG images that reads the file byte by byte.
pub struct Png2Validator;

impl Png2Validator {
    /// The byte-wise PNG validator.
    pub fn new() -> (v: Self) {
        Png2Validator
    }
}

impl FileValidator for Png2Validator {
    open spec fn validate_ok(
        &self,
        file_data: Seq<u8>,
        file_match: &MatchPair,
        all_matches: Seq<Match>,
        cluster_size: usize,
        config: &SearchlightConfig,
    ) -> bool {
        spec_png2_validate(file_data, file_match) is Some
    }

    open spec fn validate_result(
        &self,
        file_data: Seq<u8>,
        file_match: &MatchPair,
        all_matches: Seq<Match>,
        cluster_size: usize,
        config: &SearchlightConfig,
        result: (FileValidationType, Seq<Fragment>),
    ) -> bool {
        Some(result) == spec_png2_validate(file_data, file_match)
    }

    /// Reads the file byte by byte from just after its signature (see `spec_png2_validate`).
    fn validate(
        &self,
        file_data: &[u8],
        file_match: &MatchPair,
        _all_matches: &[Match],
        _cluster_size: usize,
        _config: &SearchlightConfig,
    ) -> (r: FileValidationInfo) {
        let ghost d = file_data@;
        let ghost target = spec_png2_validate(file_data@, file_match);
        let mut state = State::ReadingChunkLen { data_len: 0 };
        let mut counter: usize = 0;
        let mut i = file_match.start_idx as usize + 8;
        while i < file_data.len()
            invariant
                d == file_data@,
                target == spec_png2_validate(file_data@, file_match),
                target is Some,
                png2_run(d, i as int, state.view(), counter as int) == target,
            decreases d.len() - i,
        {
            let validated = validate_byte(&mut state, &mut counter, file_data[i]);
            assert(validated);
            if let State::EndOfFile = state {
                let fragments = vec![Range { start: 0u64, end: (i + 1) as u64 }];
                assert(fragments@ =~= seq![Range { start: 0u64, end: (i + 1) as u64 }]);
                return FileValidationInfo { validation_type: FileValidationType::Correct, fragments };
            }
            i += 1;
        }
        FileValidationInfo { validation_type: FileValidationType::Partial, fragments: Vec::new() }
    }
}

} // verus!
