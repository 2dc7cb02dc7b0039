use std::ops::Range;

use vstd::prelude::*;

use crate::classifiers::{jpeg_data, spec_jpeg_data};
use crate::search::pairing::MatchPair;
use crate::search::Match;
use crate::searchlight::config::SearchlightConfig;
use crate::utils::bytes::{be_u16, read_be_u16};
use crate::utils::{lemma_next_multiple, next_multiple_of, simplify_ranges, spec_simplify};
use crate::validation::{FileValidationInfo, FileValidationType, FileValidator, Fragment};

verus! {

/// End of image marker.
pub const JPEG_EOI: u8 = 0xd9;

/// APP0 marker.
pub const JPEG_APP0: u8 = 0xe0;

/// APP1 marker.
pub const JPEG_APP1: u8 = 0xe1;

/// Baseline start of frame marker.
pub const JPEG_SOF0: u8 = 0xc0;

/// Progressive start of frame marker.
pub const JPEG_SOF2: u8 = 0xc2;

/// Start of scan marker.
pub const JPEG_SOS: u8 = 0xda;

/// The outcome of reconstructing scan data: the fragments and the index where the scan
/// likely ends, or the index where reconstruction gave up.
pub enum JpegScanReconstructionInfo {
    Success { chunk_frags: Vec<Fragment>, next_chunk_idx: usize },
    Failure { failure_idx: usize },
}

/// The view of a scan reconstruction.
pub enum ReconView {
    Success(Seq<Fragment>, int),
    Failure(int),
}

/// The view of a reconstruction outcome.
pub open spec fn jpeg_recon_view(r: JpegScanReconstructionInfo) -> ReconView {
    match r {
        JpegScanReconstructionInfo::Success { chunk_frags, next_chunk_idx } => ReconView::Success(
            chunk_frags@,
            next_chunk_idx as int,
        ),
        JpegScanReconstructionInfo::Failure { failure_idx } => ReconView::Failure(failure_idx as int),
    }
}

/// Classifying clusters from `ci` on for the scan at `smi`, with `ev(k)` the entropy verdict for
/// the cluster at `k`: a cluster past the search limit or the data ends reconstruction as a
/// failure there; scan data is added to the fragments; scan data with a likely end ends
/// reconstruction there; other clusters are skipped. None where classifying panics.
pub open spec fn recon_scan(
    d: Seq<u8>,
    smi: int,
    cs: int,
    msl: int,
    ev: spec_fn(int) -> bool,
    ci: int,
    frags: Seq<Fragment>,
) -> Option<ReconView>
    decreases d.len() - ci,
{
    if cs <= 0 || cs > u32::MAX as int + 1 {
        None
    } else if ci + cs - smi > msl || ci + cs > d.len() {
        Some(ReconView::Failure(ci))
    } else {
        let (likely, end) = spec_jpeg_data(d.subrange(ci, ci + cs), ev(ci));
        match end {
            None => if likely {
                recon_scan(
                    d,
                    smi,
                    cs,
                    msl,
                    ev,
                    ci + cs,
                    frags.push(Range { start: ci as u64, end: (ci + cs) as u64 }),
                )
            } else {
                recon_scan(d, smi, cs, msl, ev, ci + cs, frags)
            },
            Some(nm) => if likely {
                Some(
                    ReconView::Success(
                        spec_simplify(frags.push(Range { start: ci as u64, end: (nm + ci) as u64 })),
                        nm + ci,
                    ),
                )
            } else {
                None
            },
        }
    }
}

/// Reconstructing the scan data after the start of scan marker at `smi`, assuming in-order
/// fragments: from the marker to the first cluster boundary after it, then cluster by cluster.
pub open spec fn spec_jpeg_recon(
    d: Seq<u8>,
    smi: int,
    cs: int,
    msl: int,
    ev: spec_fn(int) -> bool,
) -> Option<ReconView> {
    if cs <= 0 {
        None
    } else {
        let fs = ((smi + 1) / cs + 1) * cs;
        recon_scan(d, smi, cs, msl, ev, fs, seq![Range { start: smi as u64, end: fs as u64 }])
    }
}

/// Walking the markers of a JPEG file from `i`: a marker without a length (0xd0..=0xd8, 0x01)
/// is skipped; at the end of image marker the file (with one more cluster, where metadata often
/// follows) is correct if an APPn and a SOFn segment were seen, a format error otherwise; after
/// a start of scan the scan data is reconstructed (partial if that fails); other segments are
/// skipped by their length, noting APP0/APP1 and SOF0/SOF2. Where there is no marker, the file is
/// partial if an APPn or SOFn segment was seen, else unrecognised. None where the walk panics.
pub open spec fn jpeg_walk(
    d: Seq<u8>,
    cs: int,
    msl: int,
    ev: spec_fn(int) -> bool,
    i: int,
    seen_appn: bool,
    seen_sofn: bool,
    frags: Seq<Fragment>,
) -> Option<(FileValidationType, Seq<Fragment>)>
    decreases (if 0 <= i < d.len() {
        d.len() - i
    } else {
        0
    }),
{
    if i < 0 || i >= d.len() || (d[i] == 0xff && i + 1 >= d.len()) {
        None
    } else if !(d[i] == 0xff && d[i + 1] != 0x00) {
        Some(
            (
                if seen_appn || seen_sofn {
                    FileValidationType::Partial
                } else {
                    FileValidationType::Unrecognised
                },
                frags,
            ),
        )
    } else {
        let m = d[i + 1];
        if (m ^ 0xd0) < 0x09 || m == 0x01 {
            jpeg_walk(
                d,
                cs,
                msl,
                ev,
                i + 2,
                seen_appn,
                seen_sofn,
                spec_simplify(frags.push(Range { start: i as u64, end: (i + 2) as u64 })),
            )
        } else if m == JPEG_EOI {
            Some(
                (
                    if seen_appn && seen_sofn {
                        FileValidationType::Correct
                    } else {
                        FileValidationType::FormatError
                    },
                    spec_simplify(frags.push(Range { start: i as u64, end: (i + 2 + cs) as u64 })),
                ),
            )
        } else if m == JPEG_SOS {
            walk_after_scan(d, cs, msl, ev, i, seen_appn, seen_sofn, frags, spec_jpeg_recon(d, i, cs, msl, ev))
        } else if i + 4 > d.len() {
            None
        } else {
            let appn = m == JPEG_APP0 || m == JPEG_APP1;
            let sofn = m == JPEG_SOF0 || m == JPEG_SOF2;
            let len = be_u16(d, i + 2) as int;
            jpeg_walk(
                d,
                cs,
                msl,
                ev,
                i + len + 2,
                seen_appn || appn,
                seen_sofn || (!appn && sofn),
                spec_simplify(frags.push(Range { start: i as u64, end: (i + len + 2) as u64 })),
            )
        }
    }
}

/// A segment of the walk: at a marker 0xFF m that is neither a stand-alone marker (0x01,
/// 0xD0..0xD8), the end of image (0xD9) nor a start of scan (0xDA), the segment of length
/// `d[i + 2..i + 4]` (big-endian) is skipped whole, and the walk goes on after it, noting an
/// application segment for APP0/APP1 (0xE0, 0xE1) and a start of frame for SOF0 (0xC0,
/// baseline) and SOF2 (0xC2, progressive) alike.
pub proof fn lemma_jpeg_segment(
    d: Seq<u8>,
    cs: int,
    msl: int,
    ev: spec_fn(int) -> bool,
    i: int,
    seen_appn: bool,
    seen_sofn: bool,
    frags: Seq<Fragment>,
)
    requires
        0 <= i,
        i + 4 <= d.len(),
        d[i] == 0xff,
        d[i + 1] != 0x00 && d[i + 1] != 0x01,
        !(0xd0 <= d[i + 1] <= 0xda),
    ensures
        ({
            let m = d[i + 1];
            let len = d[i + 2] as int * 256 + d[i + 3] as int;
            jpeg_walk(d, cs, msl, ev, i, seen_appn, seen_sofn, frags) == jpeg_walk(
                d,
                cs,
                msl,
                ev,
                i + len + 2,
                seen_appn || m == 0xe0 || m == 0xe1,
                seen_sofn || m == 0xc0 || m == 0xc2,
                spec_simplify(frags.push(Range { start: i as u64, end: (i + len + 2) as u64 })),
            )
        }),
{
    let m = d[i + 1];
    assert((m ^ 0xd0u8) < 0x09u8 <==> (0xd0u8 <= m && m <= 0xd8u8)) by (bit_vector);
}

/// The end of the walk: at the end of image marker (0xFF 0xD9) the file, with one more cluster
/// after the marker, is correct exactly when an application segment and a start of frame were
/// seen, else a format error; where there is no marker the file is partial if either was seen,
/// else unrecognised.
pub proof fn lemma_jpeg_end(
    d: Seq<u8>,
    cs: int,
    msl: int,
    ev: spec_fn(int) -> bool,
    i: int,
    seen_appn: bool,
    seen_sofn: bool,
    frags: Seq<Fragment>,
)
    requires
        0 <= i,
        i + 2 <= d.len(),
    ensures
        d[i] == 0xff && d[i + 1] == 0xd9 ==> jpeg_walk(d, cs, msl, ev, i, seen_appn, seen_sofn, frags)
            == Some(
            (
                if seen_appn && seen_sofn {
                    FileValidationType::Correct
                } else {
                    FileValidationType::FormatError
                },
                spec_simplify(frags.push(Range { start: i as u64, end: (i + 2 + cs) as u64 })),
            ),
        ),
        d[i] != 0xff || d[i + 1] == 0x00 ==> jpeg_walk(d, cs, msl, ev, i, seen_appn, seen_sofn, frags)
            == Some(
            (
                if seen_appn || seen_sofn {
                    FileValidationType::Partial
                } else {
                    FileValidationType::Unrecognised
                },
                frags,
            ),
        ),
{
    assert(0xd9u8 ^ 0xd0u8 == 0x09u8) by (bit_vector);
}

/// The walk after the scan at `i` was reconstructed (or not).
pub open spec fn walk_after_scan(
    d: Seq<u8>,
    cs: int,
    msl: int,
    ev: spec_fn(int) -> bool,
    i: int,
    seen_appn: bool,
    seen_sofn: bool,
    frags: Seq<Fragment>,
    r: Option<ReconView>,
) -> Option<(FileValidationType, Seq<Fragment>)>
    decreases (if 0 <= i < d.len() {
        d.len() - i
    } else {
        0
    }), 0int,
{
    match r {
        None => None,
        Some(ReconView::Success(cf, next)) => if i < next && 0 <= i < d.len() {
            jpeg_walk(d, cs, msl, ev, next, seen_appn, seen_sofn, frags + cf)
        } else {
            None
        },
        Some(ReconView::Failure(fi)) => Some(
            (FileValidationType::Partial, frags.push(Range { start: i as u64, end: fi as u64 })),
        ),
    }
}

/// Validating a potential JPEG file from its start of image marker, with entropy verdicts `ev`.
pub open spec fn spec_jpeg_validate(
    d: Seq<u8>,
    m: &MatchPair,
    cs: usize,
    config: &SearchlightConfig,
    ev: spec_fn(int) -> bool,
) -> Option<(FileValidationType, Seq<Fragment>)> {
    let msl = (match config.max_reconstruction_search_len {
        Some(x) => x,
        None => u64::MAX,
    }) as usize as int;
    jpeg_walk(d, cs as int, msl, ev, m.start_idx as usize as int, false, false, Seq::empty())
}

/// The verdicts agree with those observed.
pub open spec fn agrees(ev: spec_fn(int) -> bool, obs: Map<int, bool>) -> bool {
    forall|k: int| #[trigger] obs.contains_key(k) ==> ev(k) == obs[k]
}

/// The verdicts observed, and false elsewhere.
pub open spec fn observed(obs: Map<int, bool>) -> spec_fn(int) -> bool {
    |k: int| if obs.contains_key(k) {
        obs[k]
    } else {
        false
    }
}

/// Each observed verdict is what the entropy test `f` gave for the cluster of `cs` bytes at its
/// position.
pub open spec fn verdicts_observed<E: Fn(&[u8]) -> bool>(
    f: E,
    d: Seq<u8>,
    cs: int,
    obs: Map<int, bool>,
) -> bool {
    forall|k: int|
        #[trigger] obs.contains_key(k) ==> exists|c: &[u8]|
            c@ == d.subrange(k, k + cs) && #[trigger] call_ensures(f, (c,), obs[k])
}

/// Room for the index arithmetic of the validator.
pub open spec fn jpeg_room(len: int, cs: int) -> bool {
    len + 2 * cs + 0x2_0000 <= usize::MAX
}

/// A validator for JPEG images; `entropy_valid` says whether a cluster's Shannon entropy is
/// high enough for compressed data.
pub struct JpegValidator<E> {
    pub entropy_valid: E,
}

impl<E: Fn(&[u8]) -> bool> JpegValidator<E> {
    /// The JPEG validator with the given entropy test.
    pub fn new(entropy_valid: E) -> (v: Self)
        ensures
            v.entropy_valid == entropy_valid,
    {
        JpegValidator { entropy_valid }
    }

    /// Reconstructs the scan data after the start of scan marker at `scan_marker_idx` (see
    /// `spec_jpeg_recon`), classifying clusters with the entropy test; `obs` are the verdicts
    /// observed so far, all at or before the marker, and the verdicts observed afterwards are
    /// returned.
    fn reconstruct_scan_data(
        &self,
        file_data: &[u8],
        scan_marker_idx: usize,
        cluster_size: usize,
        max_search_len: usize,
        Ghost(obs0): Ghost<Map<int, bool>>,
    ) -> (r: (JpegScanReconstructionInfo, Ghost<Map<int, bool>>))
        requires
            forall|c: &[u8]| call_requires(self.entropy_valid, (c,)),
            jpeg_room(file_data@.len() as int, cluster_size as int),
            scan_marker_idx < file_data@.len(),
            forall|k: int| #[trigger] obs0.contains_key(k) ==> k <= scan_marker_idx,
            verdicts_observed(self.entropy_valid, file_data@, cluster_size as int, obs0),
            forall|ev: spec_fn(int) -> bool|
                agrees(ev, obs0) ==> #[trigger] spec_jpeg_recon(
                    file_data@,
                    scan_marker_idx as int,
                    cluster_size as int,
                    max_search_len as int,
                    ev,
                ) is Some,
        ensures
            verdicts_observed(self.entropy_valid, file_data@, cluster_size as int, r.1@),
            forall|k: int| #[trigger] obs0.contains_key(k) ==> r.1@.contains_key(k) && r.1@[k] == obs0[k],
            forall|k: int|
                #[trigger] r.1@.contains_key(k) ==> k <= match jpeg_recon_view(r.0) {
                    ReconView::Success(_, next) => next,
                    ReconView::Failure(fi) => fi,
                },
            forall|ev: spec_fn(int) -> bool|
                agrees(ev, r.1@) ==> #[trigger] spec_jpeg_recon(
                    file_data@,
                    scan_marker_idx as int,
                    cluster_size as int,
                    max_search_len as int,
                    ev,
                ) == Some(jpeg_recon_view(r.0)),
    {
        let ghost d = file_data@;
        let ghost smi = scan_marker_idx as int;
        let ghost cs = cluster_size as int;
        let ghost msl = max_search_len as int;
        let ghost mut obs = obs0;
        proof {
            let ev0 = observed(obs0);
            assert(agrees(ev0, obs0));
            assert(spec_jpeg_recon(d, smi, cs, msl, ev0) is Some);
            lemma_next_multiple(smi + 1, cs);
        }
        let fragmentation_start = next_multiple_of((scan_marker_idx + 1) as u64, cluster_size as u64)
            as usize;
        let mut fragments: Vec<Fragment> = vec![
            Range { start: scan_marker_idx as u64, end: fragmentation_start as u64 },
        ];
        assert(fragments@ =~= seq![Range { start: smi as u64, end: fragmentation_start as u64 }]);
        let mut cluster_idx = fragmentation_start;
        loop
            invariant
                d == file_data@,
                smi == scan_marker_idx,
                cs == cluster_size,
                msl == max_search_len,
                jpeg_room(d.len() as int, cs),
                0 < cs <= u32::MAX as int + 1,
                smi < cluster_idx,
                cluster_idx <= d.len() + cs,
                forall|c: &[u8]| call_requires(self.entropy_valid, (c,)),
                verdicts_observed(self.entropy_valid, d, cs, obs),
                forall|k: int| #[trigger] obs0.contains_key(k) ==> obs.contains_key(k) && obs[k] == obs0[k],
                forall|k: int| #[trigger] obs.contains_key(k) ==> k < cluster_idx,
                forall|ev: spec_fn(int) -> bool|
                    agrees(ev, obs) ==> #[trigger] spec_jpeg_recon(d, smi, cs, msl, ev) == recon_scan(
                        d,
                        smi,
                        cs,
                        msl,
                        ev,
                        cluster_idx as int,
                        fragments@,
                    ),
                forall|ev: spec_fn(int) -> bool|
                    agrees(ev, obs) ==> #[trigger] spec_jpeg_recon(d, smi, cs, msl, ev) is Some,
            decreases d.len() - cluster_idx,
        {
            proof {
                let ev0 = observed(obs);
                assert(agrees(ev0, obs));
                assert(spec_jpeg_recon(d, smi, cs, msl, ev0) is Some);
            }
            if (cluster_idx + cluster_size) - scan_marker_idx > max_search_len || cluster_idx
                + cluster_size > file_data.len() {
                return (JpegScanReconstructionInfo::Failure { failure_idx: cluster_idx }, Ghost(obs));
            }
            let cluster = &file_data[cluster_idx..(cluster_idx + cluster_size)];
            let verdict = (self.entropy_valid)(cluster);
            let ghost obs_before = obs;
            proof {
                obs = obs.insert(cluster_idx as int, verdict);
                assert(cluster@ == d.subrange(cluster_idx as int, cluster_idx + cs));
                assert forall|k: int| #[trigger] obs.contains_key(k) implies exists|c: &[u8]|
                    c@ == d.subrange(k, k + cs) && #[trigger] call_ensures(self.entropy_valid, (c,), obs[k]) by {
                    if k == cluster_idx as int {
                        assert(obs[k] == verdict);
                        assert(call_ensures(self.entropy_valid, (cluster,), obs[k]));
                    } else {
                        assert(obs_before.contains_key(k));
                        assert(obs[k] == obs_before[k]);
                        let c = choose|c: &[u8]|
                            c@ == d.subrange(k, k + cs) && #[trigger] call_ensures(
                                self.entropy_valid,
                                (c,),
                                obs_before[k],
                            );
                        assert(call_ensures(self.entropy_valid, (c,), obs[k]));
                    }
                }
                assert forall|ev: spec_fn(int) -> bool| agrees(ev, obs) implies agrees(ev, obs_before)
                    && ev(cluster_idx as int) == verdict by {
                    assert(obs.contains_key(cluster_idx as int));
                    assert forall|k: int| #[trigger] obs_before.contains_key(k) implies ev(k)
                        == obs_before[k] by {
                        assert(obs.contains_key(k));
                    }
                }
            }
            let (likely, end) = jpeg_data(cluster, verdict);
            let ghost frags0 = fragments@;
            match end {
                Some(next_marker) => {
                    fragments.push(
                        Range { start: cluster_idx as u64, end: (next_marker + cluster_idx) as u64 },
                    );
                    simplify_ranges(&mut fragments);
                    return (
                        JpegScanReconstructionInfo::Success {
                            chunk_frags: fragments,
                            next_chunk_idx: next_marker + cluster_idx,
                        },
                        Ghost(obs),
                    );
                },
                None => {
                    if likely {
                        fragments.push(
                            Range {
                                start: cluster_idx as u64,
                                end: (cluster_idx + cluster_size) as u64,
                            },
                        );
                    }
                },
            }
            cluster_idx += cluster_size;
        }
    }
}

impl<E: Fn(&[u8]) -> bool> FileValidator for JpegValidator<E> {
    open spec fn validate_ok(
        &self,
        file_data: Seq<u8>,
        file_match: &MatchPair,
        all_matches: Seq<Match>,
        cluster_size: usize,
        config: &SearchlightConfig,
    ) -> bool {
        &&& forall|c: &[u8]| call_requires(self.entropy_valid, (c,))
        &&& jpeg_room(file_data.len() as int, cluster_size as int)
        &&& forall|ev: spec_fn(int) -> bool|
            #[trigger] spec_jpeg_validate(file_data, file_match, cluster_size, config, ev) is Some
    }

    open spec fn validate_result(
        &self,
        file_data: Seq<u8>,
        file_match: &MatchPair,
        all_matches: Seq<Match>,
        cluster_size: usize,
        config: &SearchlightConfig,
        result: (FileValidationType, Seq<Fragment>),
    ) -> bool {
        exists|obs: Map<int, bool>|
            verdicts_observed(self.entropy_valid, file_data, cluster_size as int, obs)
                && #[trigger] spec_jpeg_validate(
                file_data,
                file_match,
                cluster_size,
                config,
                observed(obs),
            ) == Some(result)
    }

    /// Walks the markers of the JPEG file from its start (see `jpeg_walk`), following JFIF and
    /// ITU-T T.81, reconstructing scan data with the cluster classifier; the outcome is the
    /// walk's for the entropy verdicts the test gave.
    fn validate(
        &self,
        file_data: &[u8],
        file_match: &MatchPair,
        _all_matches: &[Match],
        cluster_size: usize,
        config: &SearchlightConfig,
    ) -> (r: FileValidationInfo) {
        let ghost d = file_data@;
        let ghost cs = cluster_size as int;
        let max_search_len = (match config.max_reconstruction_search_len {
            Some(x) => x,
            None => u64::MAX,
        }) as usize;
        let ghost msl = max_search_len as int;
        let start = file_match.start_idx as usize;
        let mut seen_appn = false;
        let mut seen_sofn = false;
        let mut fragments: Vec<Fragment> = Vec::new();
        let ghost mut obs: Map<int, bool> = Map::empty();
        let mut i = start;
        loop
            invariant
                d == file_data@,
                cs == cluster_size,
                msl == max_search_len,
                jpeg_room(d.len() as int, cs),
                forall|c: &[u8]| call_requires(self.entropy_valid, (c,)),
                verdicts_observed(self.entropy_valid, d, cs, obs),
                forall|k: int| #[trigger] obs.contains_key(k) ==> k <= i,
                forall|ev: spec_fn(int) -> bool|
                    agrees(ev, obs) ==> #[trigger] spec_jpeg_validate(
                        d,
                        file_match,
                        cluster_size,
                        config,
                        ev,
                    ) == jpeg_walk(d, cs, msl, ev, i as int, seen_appn, seen_sofn, fragments@),
                forall|ev: spec_fn(int) -> bool|
                    #[trigger] spec_jpeg_validate(d, file_match, cluster_size, config, ev) is Some,
            decreases d.len() - i,
        {
            let ghost ev0 = observed(obs);
            let ghost frags0 = fragments@;
            let ghost i0 = i as int;
            let ghost appn0 = seen_appn;
            let ghost sofn0 = seen_sofn;
            proof {
                assert(agrees(ev0, obs));
                assert(spec_jpeg_validate(d, file_match, cluster_size, config, ev0) is Some);
            }
            if file_data[i] == 0xff && file_data[i + 1] != 0x00 {
                let m = file_data[i + 1];
                if (m ^ 0xd0) < 0x09 || m == 0x01 {
                    fragments.push(Range { start: i as u64, end: (i + 2) as u64 });
                    simplify_ranges(&mut fragments);
                    i += 2;
                    proof {
                        assert forall|ev: spec_fn(int) -> bool| agrees(ev, obs) implies #[trigger] spec_jpeg_validate(
                            d,
                            file_match,
                            cluster_size,
                            config,
                            ev,
                        ) == jpeg_walk(d, cs, msl, ev, i as int, seen_appn, seen_sofn, fragments@) by {
                            assert(jpeg_walk(d, cs, msl, ev, i0, appn0, sofn0, frags0) == jpeg_walk(
                                d,
                                cs,
                                msl,
                                ev,
                                i as int,
                                seen_appn,
                                seen_sofn,
                                fragments@,
                            ));
                        }
                        assert(spec_jpeg_validate(d, file_match, cluster_size, config, ev0) is Some);
                        assert(jpeg_walk(d, cs, msl, ev0, i as int, seen_appn, seen_sofn, fragments@) is Some);
                        assert(i0 < i < d.len());
                    }
                } else if m == JPEG_EOI {
                    fragments.push(Range { start: i as u64, end: (i + 2 + cluster_size) as u64 });
                    simplify_ranges(&mut fragments);
                    let validation_type = if seen_appn && seen_sofn {
                        FileValidationType::Correct
                    } else {
                        FileValidationType::FormatError
                    };
                    assert(spec_jpeg_validate(d, file_match, cluster_size, config, ev0) == Some(
                        (validation_type, fragments@),
                    ));
                    return FileValidationInfo { validation_type, fragments };
                } else if m == JPEG_SOS {
                    proof {
                        assert forall|ev: spec_fn(int) -> bool| agrees(ev, obs) implies #[trigger] spec_jpeg_recon(
                            d,
                            i as int,
                            cs,
                            msl,
                            ev,
                        ) is Some by {
                            assert(spec_jpeg_validate(d, file_match, cluster_size, config, ev) is Some);
                            assert(jpeg_walk(d, cs, msl, ev, i0, appn0, sofn0, frags0) == walk_after_scan(
                                d,
                                cs,
                                msl,
                                ev,
                                i0,
                                appn0,
                                sofn0,
                                frags0,
                                spec_jpeg_recon(d, i0, cs, msl, ev),
                            ));
                        }
                    }
                    let ghost frags0 = fragments@;
                    let ghost i0 = i as int;
                    let ghost obs_before = obs;
                    let (recons_info, Ghost(obs2)) = self.reconstruct_scan_data(
                        file_data,
                        i,
                        cluster_size,
                        max_search_len,
                        Ghost(obs),
                    );
                    proof {
                        obs = obs2;
                        assert forall|ev: spec_fn(int) -> bool| agrees(ev, obs) implies agrees(ev, obs_before) by {
                            assert forall|k: int| #[trigger] obs_before.contains_key(k) implies ev(k)
                                == obs_before[k] by {
                                assert(obs.contains_key(k));
                            }
                        }
                    }
                    match recons_info {
                        JpegScanReconstructionInfo::Success { chunk_frags, next_chunk_idx } => {
                            let mut chunk_frags = chunk_frags;
                            fragments.append(&mut chunk_frags);
                            i = next_chunk_idx;
                            proof {
                                assert forall|ev: spec_fn(int) -> bool| agrees(ev, obs) implies #[trigger] spec_jpeg_validate(
                                    d,
                                    file_match,
                                    cluster_size,
                                    config,
                                    ev,
                                ) == jpeg_walk(d, cs, msl, ev, i as int, seen_appn, seen_sofn, fragments@) by {
                                    assert(agrees(ev, obs_before));
                                    assert(spec_jpeg_validate(d, file_match, cluster_size, config, ev) is Some);
                                    assert(jpeg_walk(d, cs, msl, ev, i0, appn0, sofn0, frags0) == walk_after_scan(
                                        d,
                                        cs,
                                        msl,
                                        ev,
                                        i0,
                                        appn0,
                                        sofn0,
                                        frags0,
                                        spec_jpeg_recon(d, i0, cs, msl, ev),
                                    ));
                                }
                                let ev1 = observed(obs);
                                assert(agrees(ev1, obs));
                                assert(agrees(ev1, obs_before));
                                assert(spec_jpeg_validate(d, file_match, cluster_size, config, ev1) is Some);
                                assert(jpeg_walk(d, cs, msl, ev1, i0, appn0, sofn0, frags0) == walk_after_scan(
                                    d,
                                    cs,
                                    msl,
                                    ev1,
                                    i0,
                                    appn0,
                                    sofn0,
                                    frags0,
                                    spec_jpeg_recon(d, i0, cs, msl, ev1),
                                ));
                                assert(jpeg_walk(d, cs, msl, ev1, i as int, seen_appn, seen_sofn, fragments@) is Some);
                                assert(i0 < i < d.len());
                            }
                        },
                        JpegScanReconstructionInfo::Failure { failure_idx } => {
                            fragments.push(Range { start: i as u64, end: failure_idx as u64 });
                            proof {
                                let ev1 = observed(obs);
                                assert(agrees(ev1, obs));
                                assert(agrees(ev1, obs_before));
                                assert(jpeg_walk(d, cs, msl, ev1, i0, appn0, sofn0, frags0) == walk_after_scan(
                                    d,
                                    cs,
                                    msl,
                                    ev1,
                                    i0,
                                    appn0,
                                    sofn0,
                                    frags0,
                                    spec_jpeg_recon(d, i0, cs, msl, ev1),
                                ));
                                assert(spec_jpeg_validate(d, file_match, cluster_size, config, ev1) == Some(
                                    (FileValidationType::Partial, fragments@),
                                ));
                            }
                            return FileValidationInfo {
                                validation_type: FileValidationType::Partial,
                                fragments,
                            };
                        },
                    }
                } else {
                    if m == JPEG_APP0 || m == JPEG_APP1 {
                        seen_appn = true;
                    } else if m == JPEG_SOF0 || m == JPEG_SOF2 {
                        seen_sofn = true;
                    }
                    let segment_len = read_be_u16(file_data, i + 2);
                    fragments.push(Range { start: i as u64, end: (i + segment_len as usize + 2) as u64 });
                    simplify_ranges(&mut fragments);
                    i += segment_len as usize + 2;
                    proof {
                        assert forall|ev: spec_fn(int) -> bool| agrees(ev, obs) implies #[trigger] spec_jpeg_validate(
                            d,
                            file_match,
                            cluster_size,
                            config,
                            ev,
                        ) == jpeg_walk(d, cs, msl, ev, i as int, seen_appn, seen_sofn, fragments@) by {
                            assert(jpeg_walk(d, cs, msl, ev, i0, appn0, sofn0, frags0) == jpeg_walk(
                                d,
                                cs,
                                msl,
                                ev,
                                i as int,
                                seen_appn,
                                seen_sofn,
                                fragments@,
                            ));
                        }
                        assert(spec_jpeg_validate(d, file_match, cluster_size, config, ev0) is Some);
                        assert(jpeg_walk(d, cs, msl, ev0, i as int, seen_appn, seen_sofn, fragments@) is Some);
                        assert(i0 < i < d.len());
                    }
                }
            } else {
                let validation_type = if seen_appn || seen_sofn {
                    FileValidationType::Partial
                } else {
                    FileValidationType::Unrecognised
                };
                assert(spec_jpeg_validate(d, file_match, cluster_size, config, ev0) == Some(
                    (validation_type, fragments@),
                ));
                return FileValidationInfo { validation_type, fragments };
            }
        }
    }
}

} // verus!
