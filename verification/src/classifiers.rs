use vstd::prelude::*;

verus! {

/// Entropy above which a cluster is taken for compressed data (the entropy, a float, is
/// computed outside).
pub const ENTROPY_THRESHOLD_TENTHS: u32 = 6;

/// The count of 0xff00 pairs that contents must reach.
pub const FF00_THRESHOLD: u32 = 0;

/// The count of 0xff00 pairs from which the contents alone make a cluster scan data.
pub const FF00_CERTAINTY_THRESHOLD: u32 = 4;

/// The state of scanning a cluster: the 0xff00 pairs counted before any other marker, the
/// first marker that is not a restart marker or 0xff00 (its index), the last restart marker,
/// whether restart markers were in order, and whether a reserved marker came first.
pub struct JpegScan {
    pub count_ff00: int,
    pub first_ffxx: Option<int>,
    pub curr_rst: Option<u8>,
    pub rst_ordering_valid: bool,
    pub found_invalid_marker: bool,
}

/// Scanning the cluster from byte `i` (up to the byte before the last): at each 0xff, a
/// following 0x00 counts (before any other marker); a restart marker 0xd0..=0xd7 must follow the
/// previous one cyclically (before any other marker); a reserved marker 0x01..=0xbf before any
/// other marker ends the scan as invalid; any other marker is the first other marker if none was
/// seen.
pub open spec fn jpeg_scan(c: Seq<u8>, i: int, st: JpegScan) -> JpegScan
    decreases c.len() - i,
{
    if i < 0 || i + 1 >= c.len() {
        st
    } else if c[i] != 0xff {
        jpeg_scan(c, i + 1, st)
    } else {
        let v = c[i + 1];
        if v == 0x00 {
            jpeg_scan(
                c,
                i + 1,
                JpegScan {
                    count_ff00: if st.first_ffxx is None {
                        st.count_ff00 + 1
                    } else {
                        st.count_ff00
                    },
                    ..st
                },
            )
        } else if 0xd0 <= v <= 0xd7 {
            if st.first_ffxx is None {
                match st.curr_rst {
                    Some(r) => if v == r + 1 || (v == 0xd0 && r == 0xd7) {
                        jpeg_scan(c, i + 1, JpegScan { curr_rst: Some(v), ..st })
                    } else {
                        jpeg_scan(c, i + 1, JpegScan { rst_ordering_valid: false, ..st })
                    },
                    None => jpeg_scan(c, i + 1, JpegScan { curr_rst: Some(v), ..st }),
                }
            } else {
                jpeg_scan(c, i + 1, st)
            }
        } else if 0x01 <= v <= 0xbf {
            if st.first_ffxx is None {
                JpegScan { found_invalid_marker: true, ..st }
            } else {
                jpeg_scan(c, i + 1, st)
            }
        } else {
            if st.first_ffxx is None {
                jpeg_scan(c, i + 1, JpegScan { first_ffxx: Some(i), ..st })
            } else {
                jpeg_scan(c, i + 1, st)
            }
        }
    }
}

/// Whether the cluster is likely JPEG scan data, and where it likely ends: its entropy is high
/// enough (`entropy_valid`) or it has enough 0xff00 pairs, restart markers are in order and no
/// reserved marker comes before another marker; if so, the end is the first other marker.
pub open spec fn spec_jpeg_data(c: Seq<u8>, entropy_valid: bool) -> (bool, Option<usize>) {
    let st = jpeg_scan(
        c,
        0,
        JpegScan {
            count_ff00: 0,
            first_ffxx: None,
            curr_rst: None,
            rst_ordering_valid: true,
            found_invalid_marker: false,
        },
    );
    let contents_valid = st.count_ff00 >= FF00_THRESHOLD && st.rst_ordering_valid
        && !st.found_invalid_marker;
    let likely = (entropy_valid || st.count_ff00 >= FF00_CERTAINTY_THRESHOLD) && contents_valid;
    (
        likely,
        if likely {
            match st.first_ffxx {
                Some(k) => Some(k as usize),
                None => None,
            }
        } else {
            None
        },
    )
}

/// Classifies a cluster as JPEG scan data or not (see `spec_jpeg_data`), given whether its
/// Shannon entropy exceeds 0.6: returns whether it likely is, and if so the index of the first
/// 0xff that is followed by neither 0x00 nor a restart marker, the likely end of the scan data.
pub fn jpeg_data(cluster: &[u8], entropy_valid: bool) -> (r: (bool, Option<usize>))
    requires
        1 <= cluster@.len() <= u32::MAX as int + 1,
    ensures
        r == spec_jpeg_data(cluster@, entropy_valid),
        r.1 matches Some(k) ==> k + 1 < cluster@.len(),
{
    let ghost c = cluster@;
    let mut count_ff00: u32 = 0;
    let mut first_ffxx: Option<usize> = None;
    let mut curr_rst_marker: Option<u8> = None;
    let mut rst_marker_ordering_valid = true;
    let mut found_invalid_marker = false;
    let ghost init = JpegScan {
        count_ff00: 0,
        first_ffxx: None,
        curr_rst: None,
        rst_ordering_valid: true,
        found_invalid_marker: false,
    };
    let n = cluster.len() - 1;
    let mut i: usize = 0;
    while i < n && !found_invalid_marker
        invariant
            c == cluster@,
            n == c.len() - 1,
            i <= n,
            n <= u32::MAX,
            count_ff00 <= i,
            first_ffxx matches Some(k) ==> k < i,
            curr_rst_marker matches Some(r) ==> 0xd0 <= r <= 0xd7,
            jpeg_scan(c, 0, init) == ({
                let st = JpegScan {
                    count_ff00: count_ff00 as int,
                    first_ffxx: match first_ffxx {
                        Some(k) => Some(k as int),
                        None => None,
                    },
                    curr_rst: curr_rst_marker,
                    rst_ordering_valid: rst_marker_ordering_valid,
                    found_invalid_marker,
                };
                if found_invalid_marker {
                    st
                } else {
                    jpeg_scan(c, i as int, st)
                }
            }),
        decreases n - i + (if found_invalid_marker {
            0int
        } else {
            1
        }),
    {
        if cluster[i] == 0xff {
            let v = cluster[i + 1];
            if v == 0x00 {
                if first_ffxx.is_none() {
                    count_ff00 += 1;
                }
            } else if 0xd0 <= v && v <= 0xd7 {
                if first_ffxx.is_none() {
                    match curr_rst_marker {
                        Some(curr_rst) => {
                            if v == curr_rst + 1 || (v == 0xd0 && curr_rst == 0xd7) {
                                curr_rst_marker = Some(v);
                            } else {
                                rst_marker_ordering_valid = false;
                            }
                        },
                        None => {
                            curr_rst_marker = Some(v);
                        },
                    }
                }
            } else if 0x01 <= v && v <= 0xbf {
                if first_ffxx.is_none() {
                    found_invalid_marker = true;
                }
            } else {
                if first_ffxx.is_none() {
                    first_ffxx = Some(i);
                }
            }
        }
        if !found_invalid_marker {
            i += 1;
        }
    }
    let contents_valid = count_ff00 >= FF00_THRESHOLD && rst_marker_ordering_valid
        && !found_invalid_marker;
    let is_likely_jpeg = (entropy_valid || count_ff00 >= FF00_CERTAINTY_THRESHOLD) && contents_valid;
    (
        is_likely_jpeg,
        if is_likely_jpeg {
            first_ffxx
        } else {
            None
        },
    )
}

} // verus!
