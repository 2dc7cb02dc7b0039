pub mod bytes;
pub mod fragments_index;
pub mod iter;
pub mod multi_reader;
pub mod str_parse;
pub mod subrange;

use std::ops::Range;

use vstd::prelude::*;

use crate::search::Match;
use crate::validation::Fragment;

use self::subrange::{cluster_range, subranges_exact};

verus! {

/// The next multiple of `multiple` strictly above `num`, e.g. `next_multiple_of(7, 3) == 9` and
/// `next_multiple_of(9, 3) == 12`.
pub fn next_multiple_of(num: u64, multiple: u64) -> (r: u64)
    requires
        multiple > 0,
        (num / multiple + 1) * multiple <= u64::MAX,
    ensures
        r == (num / multiple + 1) * multiple,
        r % multiple == 0,
        num < r <= num + multiple,
{
    proof {
        lemma_next_multiple(num as int, multiple as int);
    }
    ((num / multiple) + 1) * multiple
}

pub proof fn lemma_next_multiple(num: int, m: int)
    requires
        m > 0,
        num >= 0,
    ensures
        ((num / m + 1) * m) % m == 0,
        num < (num / m + 1) * m <= num + m,
        (num / m) * m <= num < (num / m) * m + m,
        ((num / m) * m) % m == 0,
{
    vstd::arithmetic::div_mod::lemma_fundamental_div_mod(num, m);
    vstd::arithmetic::div_mod::lemma_mod_multiples_basic(num / m + 1, m);
    vstd::arithmetic::div_mod::lemma_mod_multiples_basic(num / m, m);
    assert((num / m + 1) * m == (num / m) * m + m) by (nonlinear_arith);
    assert(m * (num / m) == (num / m) * m) by (nonlinear_arith);
}

/// The greatest multiple of `multiple` not above `num`, e.g. `prev_multiple_of(7, 3) == 6` and
/// `prev_multiple_of(9, 3) == 9`.
pub fn prev_multiple_of(num: u64, multiple: u64) -> (r: u64)
    requires
        multiple > 0,
    ensures
        r == (num / multiple) * multiple,
        r % multiple == 0,
        r <= num < r + multiple,
{
    proof {
        lemma_next_multiple(num as int, multiple as int);
    }
    (num / multiple) * multiple
}

/// The candidate cluster sizes: the powers of two from 512 bytes to 64 KiB.
pub open spec fn candidate_cluster_size(j: int) -> u64 {
    if j <= 0 {
        512
    } else if j == 1 {
        1024
    } else if j == 2 {
        2048
    } else if j == 3 {
        4096
    } else if j == 4 {
        8192
    } else if j == 5 {
        16384
    } else if j == 6 {
        32768
    } else {
        65536
    }
}

/// The key of bucket `j` (0 to 8): 0 for unaligned, else the cluster size.
fn bucket_key_exec(j: usize) -> (k: u64)
    requires
        j <= 8,
    ensures
        k == bucket_key(j as int),
{
    if j == 0 {
        0
    } else if j == 1 {
        512
    } else if j == 2 {
        1024
    } else if j == 3 {
        2048
    } else if j == 4 {
        4096
    } else if j == 5 {
        8192
    } else if j == 6 {
        16384
    } else if j == 7 {
        32768
    } else {
        65536
    }
}

/// `start` is a multiple of the candidate cluster size of bucket `k` (1 to 8).
pub open spec fn aligned_on_bucket(start: u64, k: int) -> bool {
    start % candidate_cluster_size(k - 1) == 0
}

/// The number of headers starting on a multiple of `cs`.
pub open spec fn count_aligned(headers: Seq<Match>, cs: u64) -> nat
    decreases headers.len(),
{
    if headers.len() == 0 {
        0
    } else {
        count_aligned(headers.drop_last(), cs) + if headers.last().start_idx % cs == 0 {
            1nat
        } else {
            0nat
        }
    }
}

/// The number of headers not starting on a multiple of any candidate cluster size (that is, of
/// 512).
pub open spec fn count_unaligned(headers: Seq<Match>) -> nat
    decreases headers.len(),
{
    if headers.len() == 0 {
        0
    } else {
        count_unaligned(headers.drop_last()) + if headers.last().start_idx % 512 != 0 {
            1nat
        } else {
            0nat
        }
    }
}

/// The tally of bucket `j`: bucket 0 counts unaligned headers, bucket `j` (1 to 8) the headers
/// aligned on the `j - 1`th candidate cluster size.
pub open spec fn bucket_count(headers: Seq<Match>, j: int) -> nat {
    if j == 0 {
        count_unaligned(headers)
    } else {
        count_aligned(headers, candidate_cluster_size(j - 1))
    }
}

/// The key of bucket `j`: 0 for unaligned, else the cluster size.
pub open spec fn bucket_key(j: int) -> u64 {
    if j == 0 {
        0
    } else {
        candidate_cluster_size(j - 1)
    }
}

/// Scanning buckets `0..n` in order of key and keeping the last one (among the non-empty) whose
/// count is at least the best so far: the winning key and its count.
pub open spec fn scan_buckets(headers: Seq<Match>, n: int) -> (u64, nat)
    decreases n,
{
    if n <= 0 {
        (0, 0)
    } else {
        let prev = scan_buckets(headers, n - 1);
        let c = bucket_count(headers, n - 1);
        if c > 0 && c >= prev.1 {
            (bucket_key(n - 1), c)
        } else {
            prev
        }
    }
}

/// Estimates the cluster size from the header start indices: each header counts for every
/// power of two from 512 to 65,536 that divides its start index (or once for "unaligned" if
/// none does), and the most common count wins, the largest size on ties. Returns None when
/// "unaligned" wins or there are no headers.
pub fn estimate_cluster_size(headers: &[Match]) -> (r: Option<u64>)
    ensures
        r == (if scan_buckets(headers@, 9).0 > 0 {
            Some(scan_buckets(headers@, 9).0)
        } else {
            None::<u64>
        }),
{
    let mut counts: Vec<u64> = Vec::new();
    let mut j: usize = 0;
    while j < 9
        invariant
            j <= 9,
            counts@.len() == j,
            forall|k: int| 0 <= k < j ==> counts@[k] == 0,
        decreases 9 - j,
    {
        counts.push(0);
        j += 1;
    }
    let mut h: usize = 0;
    while h < headers.len()
        invariant
            h <= headers@.len(),
            counts@.len() == 9,
            forall|k: int|
                0 <= k < 9 ==> #[trigger] counts@[k] == bucket_count(headers@.take(h as int), k),
            forall|k: int| 0 <= k < 9 ==> #[trigger] counts@[k] <= h,
        decreases headers@.len() - h,
    {
        let start = headers[h].start_idx;
        let ghost prev = headers@.take(h as int);
        let ghost cur = headers@.take(h + 1);
        assert(cur.drop_last() =~= prev);
        let mut found_candidate = false;
        let mut j: usize = 1;
        while j <= 8
            invariant
                1 <= j <= 9,
                h < headers@.len(),
                headers@.len() <= usize::MAX,
                start == headers@[h as int].start_idx,
                cur == headers@.take(h + 1),
                prev == headers@.take(h as int),
                cur.drop_last() == prev,
                counts@.len() == 9,
                counts@[0] <= h,
                found_candidate == exists|k: int| 1 <= k < j && #[trigger] aligned_on_bucket(start, k),
                forall|k: int| 0 <= k < j ==> #[trigger] counts@[k] <= h + 1,
                forall|k: int| j <= k < 9 ==> #[trigger] counts@[k] <= h,
                forall|k: int|
                    1 <= k < j ==> #[trigger] counts@[k] == bucket_count(cur, k),
                forall|k: int|
                    j <= k < 9 || k == 0 ==> #[trigger] counts@[k] == bucket_count(prev, k),
            decreases 9 - j,
        {
            let cluster_size = bucket_key_exec(j);
            assert(aligned_on_bucket(start, j as int) == (start % cluster_size == 0));
            assert(counts@[j as int] <= h);
            assert(h < usize::MAX);
            if start % cluster_size == 0 {
                counts.set(j, counts[j] + 1);
                found_candidate = true;
            }
            j += 1;
        }
        proof {
            lemma_unaligned(start);
        }
        if !found_candidate {
            counts.set(0, counts[0] + 1);
        }
        h += 1;
    }
    assert(headers@.take(h as int) =~= headers@);
    let mut max: u64 = 0;
    let mut cluster_size: u64 = 0;
    let mut j: usize = 0;
    while j < 9
        invariant
            j <= 9,
            counts@.len() == 9,
            forall|k: int| 0 <= k < 9 ==> #[trigger] counts@[k] == bucket_count(headers@, k),
            (cluster_size, max as nat) == scan_buckets(headers@, j as int),
        decreases 9 - j,
    {
        let key: u64 = bucket_key_exec(j);
        let v = counts[j];
        if v > 0 && v >= max {
            max = v;
            cluster_size = key;
        }
        j += 1;
    }
    if cluster_size > 0 {
        Some(cluster_size)
    } else {
        None
    }
}

proof fn lemma_unaligned(start: u64)
    ensures
        (start % 512 != 0) == !(exists|k: int| 1 <= k < 9 && #[trigger] aligned_on_bucket(start, k)),
{
    assert(start % 512 != 0 ==> start % 1024 != 0 && start % 2048 != 0 && start % 4096 != 0
        && start % 8192 != 0 && start % 16384 != 0 && start % 32768 != 0 && start % 65536 != 0)
        by (bit_vector);
    if start % 512 == 0 {
        assert(aligned_on_bucket(start, 1));
    } else {
        assert forall|k: int| 1 <= k < 9 implies !#[trigger] aligned_on_bucket(start, k) by {}
    }
}

/// Takes a list of in-order ranges and merges each range into the previous one when the previous
/// one ends where it starts.
pub open spec fn spec_simplify(rs: Seq<Range<u64>>) -> Seq<Range<u64>>
    decreases rs.len(),
{
    if rs.len() == 0 {
        Seq::empty()
    } else {
        let p = spec_simplify(rs.drop_last());
        if p.len() > 0 && p.last().end == rs.last().start {
            p.update(p.len() - 1, Range { start: p.last().start, end: rs.last().end })
        } else {
            p.push(rs.last())
        }
    }
}

/// No range ends where the next one starts.
pub open spec fn no_touching(rs: Seq<Range<u64>>) -> bool {
    forall|k: int| 0 <= k < rs.len() - 1 ==> #[trigger] rs[k].end != rs[k + 1].start
}

proof fn lemma_simplify_no_touching(rs: Seq<Range<u64>>)
    ensures
        no_touching(spec_simplify(rs)),
        rs.len() > 0 ==> spec_simplify(rs).len() > 0 && spec_simplify(rs).last().end == rs.last().end,
    decreases rs.len(),
{
    if rs.len() > 0 {
        lemma_simplify_no_touching(rs.drop_last());
        let p = spec_simplify(rs.drop_last());
        let r = spec_simplify(rs);
        assert forall|k: int| 0 <= k < r.len() - 1 implies #[trigger] r[k].end != r[k + 1].start by {
            if k + 1 < p.len() - 0 && k + 1 < r.len() - 1 {
                assert(r[k] == p[k] && r[k + 1] == p[k + 1]);
            } else if p.len() > 0 && p.last().end == rs.last().start {
                assert(r[k] == p[k]);
                assert(r[k + 1].start == p[k + 1].start);
            } else {
                assert(r[k] == p[k]);
            }
        }
    }
}

/// Merging keeps a nonempty list nonempty, starting where it started.
pub proof fn lemma_simplify_first(rs: Seq<Range<u64>>)
    requires
        rs.len() > 0,
    ensures
        spec_simplify(rs).len() > 0,
        spec_simplify(rs)[0].start == rs[0].start,
    decreases rs.len(),
{
    let p = spec_simplify(rs.drop_last());
    if rs.len() > 1 {
        lemma_simplify_first(rs.drop_last());
        assert(rs.drop_last()[0] == rs[0]);
        if p.last().end == rs.last().start {
            assert(p.update(p.len() - 1, Range { start: p.last().start, end: rs.last().end })[0].start == p[0].start);
        } else {
            assert(p.push(rs.last())[0] == p[0]);
        }
    } else {
        assert(rs.drop_last() =~= Seq::<Range<u64>>::empty());
        assert(p.len() == 0);
        assert(p.push(rs.last())[0] == rs[0]);
    }
}

/// A list in which no range ends where the next starts is left as it is: simplifying merges
/// exactly the runs of touching ranges, each run whole.
pub proof fn lemma_simplify_identity(rs: Seq<Range<u64>>)
    requires
        no_touching(rs),
    ensures
        spec_simplify(rs) == rs,
    decreases rs.len(),
{
    if rs.len() > 0 {
        let init = rs.drop_last();
        assert(no_touching(init)) by {
            assert forall|k: int| 0 <= k < init.len() - 1 implies #[trigger] init[k].end != init[k + 1].start by {
                assert(init[k] == rs[k] && init[k + 1] == rs[k + 1]);
            }
        }
        lemma_simplify_identity(init);
        if init.len() > 0 {
            assert(rs[rs.len() - 2].end != rs[rs.len() - 1].start);
        }
        assert(init.push(rs.last()) =~= rs);
    }
}

/// Merging adjacent ranges a second time changes nothing: no two ranges it leaves touch.
pub proof fn lemma_simplify_idempotent(rs: Seq<Range<u64>>)
    ensures
        no_touching(spec_simplify(rs)),
        spec_simplify(spec_simplify(rs)) == spec_simplify(rs),
{
    lemma_simplify_no_touching(rs);
    lemma_simplify_identity(spec_simplify(rs));
}

/// Merges adjacent ranges in place: where a range ends where the next one starts, the two
/// become one.
pub fn simplify_ranges(ranges: &mut Vec<Range<u64>>)
    ensures
        final(ranges)@ == spec_simplify(old(ranges)@),
{
    let ghost orig = ranges@;
    if ranges.len() == 0 {
        return;
    }
    let mut i: usize = 1;
    let mut k: usize = 1;
    assert(spec_simplify(orig.take(1)) =~= orig.take(1)) by {
        assert(orig.take(1).drop_last() =~= Seq::<Range<u64>>::empty());
        assert(spec_simplify(orig.take(1).drop_last()) =~= Seq::<Range<u64>>::empty());
    }
    assert(ranges@ =~= orig.take(1) + orig.skip(1));
    while i < ranges.len()
        invariant
            1 <= k <= orig.len(),
            orig.len() <= usize::MAX,
            1 <= i,
            spec_simplify(orig.take(k as int)).len() == i,
            ranges@ == spec_simplify(orig.take(k as int)) + orig.skip(k as int),
        decreases orig.len() - k,
    {
        let ghost p = spec_simplify(orig.take(k as int));
        assert(orig.take(k + 1).drop_last() =~= orig.take(k as int));
        assert(orig.take(k + 1).last() == orig[k as int]);
        assert(ranges@[i as int] == orig[k as int]);
        assert(ranges@[i - 1] == p.last());
        if ranges[i - 1].end == ranges[i].start {
            let removed = ranges.remove(i);
            let prev_start = ranges[i - 1].start;
            ranges.set(i - 1, Range { start: prev_start, end: removed.end });
            assert(ranges@ =~= spec_simplify(orig.take(k + 1)) + orig.skip(k + 1));
        } else {
            assert(ranges@ =~= spec_simplify(orig.take(k + 1)) + orig.skip(k + 1));
            i += 1;
        }
        k += 1;
    }
    assert(orig.take(k as int) =~= orig);
    assert(ranges@ =~= spec_simplify(orig));
}

/// The clusters of `0..n` that lie outside the gap `gap_idx..gap_idx + gap_len`, in order.
pub open spec fn clusters_outside_gap(start: int, size: int, n: int, gap_idx: int, gap_len: int) -> Seq<Range<u64>>
    decreases n,
{
    if n <= 0 {
        Seq::empty()
    } else {
        let prev = clusters_outside_gap(start, size, n - 1, gap_idx, gap_len);
        if n - 1 < gap_idx || n - 1 >= gap_idx + gap_len {
            prev.push(Range { start: (start + (n - 1) * size) as u64, end: (start + n * size) as u64 })
        } else {
            prev
        }
    }
}

/// Generates candidate in-order arrangements of `num_file_clusters` clusters within
/// `fragmentation_range`: for each position of a single gap of the remaining clusters (from the
/// first cluster to the last), the clusters outside the gap, merged where adjacent.
pub fn generate_fragmentations(
    cluster_size: usize,
    fragmentation_range: Range<usize>,
    num_file_clusters: usize,
) -> (res: Vec<Vec<Fragment>>)
    requires
        cluster_size >= 1,
        num_file_clusters < usize::MAX,
        fragmentation_range.start <= fragmentation_range.end,
        fragmentation_range.start % cluster_size == 0,
        fragmentation_range.end % cluster_size == 0,
        num_file_clusters <= (fragmentation_range.end - fragmentation_range.start) / (
        cluster_size as int),
    ensures
        ({
            let n = (fragmentation_range.end - fragmentation_range.start) / (cluster_size as int);
            let gap_len = n - num_file_clusters;
            &&& res@.len() == num_file_clusters + 1
            &&& forall|g: int|
                0 <= g < res@.len() ==> #[trigger] res@[g]@ == spec_simplify(
                    clusters_outside_gap(
                        fragmentation_range.start as int,
                        cluster_size as int,
                        n,
                        g,
                        gap_len,
                    ),
                )
        }),
{
    let start = fragmentation_range.start;
    let end = fragmentation_range.end;
    let ghost ni = (fragmentation_range.end - fragmentation_range.start) / (cluster_size as int);
    let clusters = subranges_exact(Range { start, end }, cluster_size);
    let n = clusters.len();
    assert(n == ni);
    let gap_len = n - num_file_clusters;
    let mut res: Vec<Vec<Fragment>> = Vec::new();
    let mut gap_idx: usize = 0;
    while gap_idx <= n - gap_len
        invariant
            n == ni,
            num_file_clusters < usize::MAX,
            gap_len == n - num_file_clusters,
            gap_idx <= n - gap_len + 1,
            res@.len() == gap_idx,
            clusters.spec_subranges().len() == n,
            forall|k: int|
                0 <= k < n ==> #[trigger] clusters.spec_subranges()[k] == cluster_range(
                    start as int,
                    cluster_size as int,
                    k,
                ),
            start as int + n * cluster_size <= usize::MAX,
            forall|g: int|
                0 <= g < res@.len() ==> #[trigger] res@[g]@ == spec_simplify(
                    clusters_outside_gap(start as int, cluster_size as int, ni, g, gap_len as int),
                ),
        decreases n - gap_len + 1 - gap_idx,
    {
        let mut file_clusters: Vec<Range<u64>> = Vec::new();
        let mut c: usize = 0;
        while c < n
            invariant
                n == ni,
                gap_idx <= n - gap_len,
                c <= n,
                clusters.spec_subranges().len() == n,
                forall|k: int|
                    0 <= k < n ==> #[trigger] clusters.spec_subranges()[k] == cluster_range(
                        start as int,
                        cluster_size as int,
                        k,
                    ),
                start as int + n * cluster_size <= usize::MAX,
                file_clusters@ == clusters_outside_gap(
                    start as int,
                    cluster_size as int,
                    c as int,
                    gap_idx as int,
                    gap_len as int,
                ),
            decreases n - c,
        {
            if c < gap_idx || c >= gap_idx + gap_len {
                let r = clusters.get(c);
                proof {
                    assert((c + 1) * cluster_size == c * cluster_size + cluster_size) by (nonlinear_arith);
                    assert((c + 1) * cluster_size <= n * cluster_size) by (nonlinear_arith)
                        requires c + 1 <= n;
                }
                file_clusters.push(Range { start: r.start as u64, end: r.end as u64 });
            }
            c += 1;
        }
        simplify_ranges(&mut file_clusters);
        res.push(file_clusters);
        gap_idx += 1;
    }
    res
}

/// The slices of `data` that the ranges `idxs` select, in order.
pub fn idxs_to_slice<'a, T>(data: &'a [T], idxs: &[Range<usize>]) -> (res: Vec<&'a [T]>)
    requires
        forall|i: int|
            0 <= i < idxs@.len() ==> #[trigger] idxs@[i].start <= idxs@[i].end <= data@.len(),
    ensures
        res@.len() == idxs@.len(),
        forall|i: int|
            0 <= i < idxs@.len() ==> #[trigger] res@[i]@ == data@.subrange(
                idxs@[i].start as int,
                idxs@[i].end as int,
            ),
{
    let mut res: Vec<&'a [T]> = Vec::new();
    let mut i: usize = 0;
    while i < idxs.len()
        invariant
            i <= idxs@.len(),
            res@.len() == i,
            forall|k: int|
                0 <= k < idxs@.len() ==> #[trigger] idxs@[k].start <= idxs@[k].end <= data@.len(),
            forall|k: int|
                0 <= k < i ==> #[trigger] res@[k]@ == data@.subrange(
                    idxs@[k].start as int,
                    idxs@[k].end as int,
                ),
        decreases idxs@.len() - i,
    {
        let s = idxs[i].start;
        let e = idxs[i].end;
        res.push(&data[s..e]);
        i += 1;
    }
    res
}

} // verus!
