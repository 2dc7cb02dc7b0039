use std::collections::HashMap;
use std::ops::Range;

use vstd::prelude::*;
use vstd::string::{StrSliceExecFns, StringExecFns};

use crate::search::ac_cpu::{lemma_run_append, spec_run, AcCpu, AcState};
use crate::search::pairing::{ids_mapped, lookup_tag, MatchPair, MatchPart};
use crate::search::search_common::{AcTable, AcTableElem};
use crate::search::Match;
use crate::searchlight::config::FileType;
use crate::utils::{estimate_cluster_size, scan_buckets};
use crate::utils::iter::ToGappedWindows;
use crate::searchlight::config::SearchlightConfig;
use crate::validation::{FileValidationInfo, FileValidationType, FileValidator, Fragment};

verus! {

/// Searching the image data `s` block by block: each block is the first `bs` bytes of `s` (all
/// of them if fewer), found at position `off`, and skips its first `overlap` bytes, which the
/// previous block searched already; the next block starts `gap` bytes later, while that is
/// within the data, and overlaps this one by `bs - gap` bytes (fewer where it is shorter).
/// Partial matches carry over from block to block. The partial matches left, and the matches
/// found in order.
pub open spec fn spec_search_blocks(
    rows: Seq<Seq<AcTableElem>>,
    states: Seq<AcState>,
    s: Seq<u8>,
    bs: int,
    gap: int,
    off: int,
    overlap: int,
) -> (Seq<AcState>, Seq<Match>)
    decreases s.len(),
{
    let w = s.take(if bs < s.len() { bs } else { s.len() as int });
    let r = spec_run(rows, states, w.skip(overlap), off + overlap);
    if 0 < gap <= s.len() {
        let next_len = s.len() - gap;
        let nw = if bs < next_len { bs } else { next_len };
        let ov = if bs - gap < nw { bs - gap } else { nw };
        let rest = spec_search_blocks(rows, r.0, s.skip(gap), bs, gap, off + gap, ov);
        (rest.0, r.1 + rest.1)
    } else {
        r
    }
}

/// The matches of a search of the whole image in blocks of `bs` bytes, each overlapping the
/// previous one by the length of the longest pattern, `mpl`.
pub open spec fn spec_search_image(
    rows: Seq<Seq<AcTableElem>>,
    data: Seq<u8>,
    bs: int,
    mpl: int,
) -> Seq<Match> {
    spec_search_blocks(rows, Seq::empty(), data, bs, bs - mpl, 0, 0).1
}

/// The blocks tile the data after the first `ov` bytes: each block searches from where the
/// previous one stopped, so the search in blocks is one search over the rest of the data.
proof fn lemma_blocks_tile(
    rows: Seq<Seq<AcTableElem>>,
    st: Seq<AcState>,
    s: Seq<u8>,
    bs: int,
    gap: int,
    off: int,
    ov: int,
)
    requires
        0 < gap <= bs,
        0 <= ov <= s.len(),
        ov <= bs,
    ensures
        spec_search_blocks(rows, st, s, bs, gap, off, ov) == spec_run(rows, st, s.skip(ov), off + ov),
    decreases s.len(),
{
    let k = if bs < s.len() { bs } else { s.len() as int };
    let w = s.take(k);
    let r = spec_run(rows, st, w.skip(ov), off + ov);
    if 0 < gap <= s.len() {
        let next_len = s.len() - gap;
        let nw = if bs < next_len { bs } else { next_len };
        let ov2 = if bs - gap < nw { bs - gap } else { nw };
        lemma_blocks_tile(rows, r.0, s.skip(gap), bs, gap, off + gap, ov2);
        assert(gap + ov2 == k);
        assert(s.skip(gap).skip(ov2) =~= s.skip(k));
        assert(s.skip(ov) =~= w.skip(ov) + s.skip(k));
        lemma_run_append(rows, st, w.skip(ov), s.skip(k), off + ov);
    } else {
        assert(w =~= s);
    }
}

/// Searching the image block by block, each block overlapping the previous one by the length of
/// the longest pattern, finds exactly the matches of one search over the whole image, in the
/// same order: no match is lost or found twice at a block boundary.
pub proof fn lemma_blocks_search_whole(rows: Seq<Seq<AcTableElem>>, data: Seq<u8>, bs: int, mpl: int)
    requires
        0 <= mpl < bs,
    ensures
        spec_search_image(rows, data, bs, mpl) == spec_run(rows, Seq::empty(), data, 0).1,
{
    lemma_blocks_tile(rows, Seq::empty(), data, bs, bs - mpl, 0, 0);
    assert(data.skip(0) =~= data);
}

/// The matches are in order of their start index.
pub open spec fn sorted_by_start(ms: Seq<Match>) -> bool {
    forall|i: int, j: int| 0 <= i < j < ms.len() ==> #[trigger] ms[i].start_idx <= #[trigger] ms[j].start_idx
}

/// The matches that start at `k`, in the order they come in.
pub open spec fn starting_at(ms: Seq<Match>, k: u64) -> Seq<Match> {
    ms.filter(|m: Match| m.start_idx == k)
}

/// Sorts the matches by start index with std's `slice::sort_by_key`, which its documentation
/// says is stable: the result holds the same matches, in order of start index, and the matches
/// that start at the same index keep the order they had.
#[verifier::external_body]
fn sort_by_start(matches: &mut Vec<Match>)
    ensures
        final(matches)@.to_multiset() == old(matches)@.to_multiset(),
        sorted_by_start(final(matches)@),
        forall|k: u64| #[trigger] starting_at(final(matches)@, k) == starting_at(old(matches)@, k),
{
    matches.sort_by_key(|m| m.start_idx);
}

/// Searches the image data for the table's patterns in blocks of `block_size` bytes, each block
/// overlapping the previous one by the length of the longest pattern so that no match is cut
/// (partial matches also carry over between blocks), and returns the matches in order of their
/// start index, those with the same start index in the order they were found.
pub fn search_image(table: AcTable, data: &[u8], block_size: usize) -> (r: Vec<Match>)
    requires
        table.wf(),
        (table.max_pat_len as int) < block_size,
    ensures
        r@.to_multiset() == spec_search_image(
            table.rows(),
            data@,
            block_size as int,
            table.max_pat_len as int,
        ).to_multiset(),
        sorted_by_start(r@),
        forall|k: u64| #[trigger] starting_at(r@, k) == starting_at(
            spec_search_image(table.rows(), data@, block_size as int, table.max_pat_len as int),
            k,
        ),
{
    let ghost rows = table.rows();
    let mpl = table.max_pat_len as usize;
    let gap = block_size - mpl;
    let ghost bs = block_size as int;
    let ghost goal = spec_search_blocks(rows, Seq::empty(), data@, bs, gap as int, 0, 0);
    let mut searcher = AcCpu::new(table);
    let mut windows = data.to_gapped_windows(block_size, gap);
    let mut matches: Vec<Match> = Vec::new();
    let mut off: usize = 0;
    let mut overlap: usize = 0;
    assert(data@.skip(0) =~= data@);
    assert(matches@ + goal.1 =~= goal.1);
    loop
        invariant
            searcher.spec_table().wf(),
            searcher.spec_table().rows() == rows,
            bs == block_size,
            windows.size() == block_size,
            windows.gap() == gap,
            0 < gap <= bs,
            gap == bs - mpl,
            off <= data@.len(),
            match windows.rest() {
                Some(s) => {
                    &&& s == data@.skip(off as int)
                    &&& overlap <= bs - gap
                    &&& overlap <= s.len()
                    &&& overlap <= bs
                    &&& goal == ({
                        let r = spec_search_blocks(
                            rows,
                            searcher.states(),
                            s,
                            bs,
                            gap as int,
                            off as int,
                            overlap as int,
                        );
                        (r.0, matches@ + r.1)
                    })
                },
                None => goal == (searcher.states(), matches@),
            },
        ensures
            goal == (searcher.states(), matches@),
        decreases match windows.rest() {
            Some(s) => s.len() + 1,
            None => 0,
        },
    {
        let ghost s0 = windows.rest();
        let ghost off0 = off as int;
        let ghost ov0 = overlap as int;
        match windows.next() {
            None => {
                break;
            },
            Some(w) => {
                let ghost s = s0->0;
                let ghost states0 = searcher.states();
                let ghost m0 = matches@;
                let ghost k = if block_size < s.len() { block_size as int } else { s.len() as int };
                assert(w@ == s.take(k));
                let remaining = data.len() - off;
                assert(remaining == s.len());
                let mut found = searcher.search(w, off as u64, overlap);
                let ghost found_view = found@;
                let ghost r1 = spec_run(rows, states0, w@.skip(ov0), off0 + ov0);
                assert((searcher.states(), found_view) == r1);
                matches.append(&mut found);
                assert(matches@ =~= m0 + found_view);
                if gap <= remaining {
                    let next_len = remaining - gap;
                    let nw = if block_size < next_len {
                        block_size
                    } else {
                        next_len
                    };
                    overlap = if mpl < nw {
                        mpl
                    } else {
                        nw
                    };
                    off = off + gap;
                    assert(data@.skip(off as int) =~= s.skip(gap as int));
                    let ghost rest = spec_search_blocks(
                        rows,
                        r1.0,
                        s.skip(gap as int),
                        bs,
                        gap as int,
                        off as int,
                        overlap as int,
                    );
                    assert(spec_search_blocks(rows, states0, s, bs, gap as int, off0, ov0) == (
                        rest.0,
                        r1.1 + rest.1,
                    ));
                    assert(m0 + (r1.1 + rest.1) =~= matches@ + rest.1);
                } else {
                    assert(spec_search_blocks(rows, states0, s, bs, gap as int, off0, ov0) == r1);
                }
            },
        }
    }
    sort_by_start(&mut matches);
    matches
}

/// Whether the map knows the id of every match (pairing needs it to).
pub fn ids_all_mapped<'a>(
    matches: &[Match],
    id_ftype_map: &HashMap<u64, (usize, &'a FileType, MatchPart)>,
) -> (b: bool)
    ensures
        b == ids_mapped(id_ftype_map@, matches@),
{
    let mut i: usize = 0;
    while i < matches.len()
        invariant
            i <= matches@.len(),
            forall|j: int| 0 <= j < i ==> #[trigger] id_ftype_map@.contains_key(matches@[j].id),
        decreases matches@.len() - i,
    {
        if !id_ftype_map.contains_key(&matches[i].id) {
            return false;
        }
        i += 1;
    }
    true
}

/// Whether the map tags the match as a header.
pub open spec fn is_header<'a>(m: Map<u64, (usize, &'a FileType, MatchPart)>) -> spec_fn(Match) -> bool {
    |x: Match| m[x.id].2 == MatchPart::Header
}

/// The matches that are headers, in order (those the cluster size is estimated from).
pub fn header_matches<'a>(
    matches: &[Match],
    id_ftype_map: &HashMap<u64, (usize, &'a FileType, MatchPart)>,
) -> (r: Vec<Match>)
    requires
        ids_mapped(id_ftype_map@, matches@),
    ensures
        r@ == matches@.filter(is_header(id_ftype_map@)),
{
    let ghost pred = is_header(id_ftype_map@);
    let mut r: Vec<Match> = Vec::new();
    let mut i: usize = 0;
    assert(matches@.take(0) =~= Seq::<Match>::empty());
    proof {
        reveal(Seq::filter);
    }
    while i < matches.len()
        invariant
            i <= matches@.len(),
            pred == is_header(id_ftype_map@),
            ids_mapped(id_ftype_map@, matches@),
            r@ == matches@.take(i as int).filter(pred),
        decreases matches@.len() - i,
    {
        let m = matches[i];
        assert(id_ftype_map@.contains_key(matches@[i as int].id));
        let tag = lookup_tag(id_ftype_map, m.id);
        assert(matches@.take(i + 1).drop_last() =~= matches@.take(i as int));
        assert(matches@.take(i + 1).last() == m);
        proof {
            reveal(Seq::filter);
        }
        assert(pred(m) == (tag.2 == MatchPart::Header));
        if tag.2 == MatchPart::Header {
            r.push(m);
        }
        i += 1;
    }
    assert(matches@.take(i as int) =~= matches@);
    r
}

/// A potential file that validation recognised, as it is to be carved: its validation outcome,
/// its fragments, and the least start and greatest end among them.
pub struct CarvedFile {
    pub validation_type: FileValidationType,
    pub fragments: Vec<Fragment>,
    pub start_idx: u64,
    pub end_idx: u64,
}

/// The fragments carved for a potential file: those validation found, or the whole span of the
/// pair where it found none.
pub open spec fn carved_fragments(pot_file: &MatchPair, frags: Seq<Fragment>) -> Seq<Fragment> {
    if frags.len() == 0 {
        seq![Range { start: pot_file.start_idx, end: (pot_file.end_idx + 1) as u64 }]
    } else {
        frags
    }
}

/// `v` is the least start among the fragments.
pub open spec fn least_start(frags: Seq<Fragment>, v: u64) -> bool {
    &&& exists|i: int| 0 <= i < frags.len() && #[trigger] frags[i].start == v
    &&& forall|i: int| 0 <= i < frags.len() ==> v <= #[trigger] frags[i].start
}

/// `v` is the greatest end among the fragments.
pub open spec fn greatest_end(frags: Seq<Fragment>, v: u64) -> bool {
    &&& exists|i: int| 0 <= i < frags.len() && #[trigger] frags[i].end == v
    &&& forall|i: int| 0 <= i < frags.len() ==> #[trigger] frags[i].end <= v
}

/// The decimal digit character for `d` (below 10).
pub open spec fn digit_char(d: nat) -> char {
    (0x30 + d) as char
}

/// A number in decimal, without leading zeros.
pub open spec fn decimal(n: nat) -> Seq<char>
    decreases n,
{
    if n < 10 {
        seq![digit_char(n)]
    } else {
        decimal(n / 10).push(digit_char(n % 10))
    }
}

/// Appends `n` in decimal.
fn push_decimal(s: &mut String, n: u64)
    ensures
        final(s)@ == old(s)@ + decimal(n as nat),
    decreases n,
{
    if n >= 10 {
        push_decimal(s, n / 10);
    }
    let d = (n % 10) as usize;
    let digits = "0123456789";
    proof {
        reveal_strlit("0123456789");
    }
    let one = digits.substring_char(d, d + 1);
    assert(one@ =~= seq![digit_char(d as nat)]);
    s.append(one);
}

/// The name a carved file gets: its start and end index in decimal, joined by '-', then '.'
/// and the extension of its file type ("dat" where the type has none).
pub open spec fn spec_file_name(start: u64, end: u64, ext: Option<Seq<char>>) -> Seq<char> {
    decimal(start as nat) + seq!['-'] + decimal(end as nat) + seq!['.'] + match ext {
        Some(e) => e,
        None => seq!['d', 'a', 't'],
    }
}

/// The name of a carved file spanning `start` to `end`, with the extension `ext`.
pub fn carved_file_name(start: u64, end: u64, ext: &Option<String>) -> (s: String)
    ensures
        s@ == spec_file_name(start, end, match ext {
            Some(e) => Some(e@),
            None => None,
        }),
{
    let mut s = String::new();
    push_decimal(&mut s, start);
    s.append("-");
    proof {
        reveal_strlit("-");
    }
    push_decimal(&mut s, end);
    s.append(".");
    proof {
        reveal_strlit(".");
    }
    match ext {
        Some(e) => s.append(e.as_str()),
        None => {
            s.append("dat");
            proof {
                reveal_strlit("dat");
            }
        },
    }
    s
}

/// The cluster size to validate with: the one given; else the estimate from the header matches;
/// else 1.
pub fn choose_cluster_size(given: Option<u64>, headers: &[Match]) -> (r: u64)
    ensures
        r == match given {
            Some(cs) => cs,
            None => if scan_buckets(headers@, 9).0 > 0 {
                scan_buckets(headers@, 9).0
            } else {
                1
            },
        },
{
    match given {
        Some(cs) => cs,
        None => match estimate_cluster_size(headers) {
            Some(e) => e,
            None => 1,
        },
    }
}

/// What is carved of a validated potential file: nothing if validation did not recognise it;
/// else its fragments (the pair's whole span where validation found none), spanning from the
/// least fragment start to the greatest fragment end.
pub fn carve_plan(pot_file: &MatchPair, validation: FileValidationInfo) -> (r: Option<CarvedFile>)
    requires
        pot_file.end_idx < u64::MAX,
    ensures
        r is None <==> validation.validation_type == FileValidationType::Unrecognised,
        r matches Some(c) ==> {
            &&& c.validation_type == validation.validation_type
            &&& c.fragments@ == carved_fragments(pot_file, validation.fragments@)
            &&& least_start(c.fragments@, c.start_idx)
            &&& greatest_end(c.fragments@, c.end_idx)
        },
{
    if validation.validation_type == FileValidationType::Unrecognised {
        return None;
    }
    let fragments = if validation.fragments.len() == 0 {
        let mut f: Vec<Fragment> = Vec::new();
        f.push(Range { start: pot_file.start_idx, end: pot_file.end_idx + 1 });
        assert(f@ =~= carved_fragments(pot_file, validation.fragments@));
        f
    } else {
        validation.fragments
    };
    let ghost fs = fragments@;
    let mut start_idx = fragments[0].start;
    let mut end_idx = fragments[0].end;
    let mut i: usize = 1;
    while i < fragments.len()
        invariant
            fs == fragments@,
            1 <= i <= fs.len(),
            exists|j: int| 0 <= j < i && #[trigger] fs[j].start == start_idx,
            forall|j: int| 0 <= j < i ==> start_idx <= #[trigger] fs[j].start,
            exists|j: int| 0 <= j < i && #[trigger] fs[j].end == end_idx,
            forall|j: int| 0 <= j < i ==> #[trigger] fs[j].end <= end_idx,
        decreases fs.len() - i,
    {
        if fragments[i].start < start_idx {
            start_idx = fragments[i].start;
        }
        if fragments[i].end > end_idx {
            end_idx = fragments[i].end;
        }
        i += 1;
    }
    Some(CarvedFile { validation_type: validation.validation_type, fragments, start_idx, end_idx })
}


/// What carving makes of one potential file: how validation found it, and, where it recognised
/// it, the name of the file to carve and what to carve.
pub struct CarveOutcome {
    pub validation_type: FileValidationType,
    pub carved: Option<(String, CarvedFile)>,
}

/// The extension of the pair's file type, if it has one.
pub open spec fn pair_extension(p: &MatchPair) -> Option<Seq<char>> {
    match p.file_type.extension {
        Some(e) => Some(e@),
        None => None,
    }
}

/// `o` is what carving makes of the potential file `p` for some outcome of its validation: the
/// validation type, and, unless validation did not recognise the file, the carve plan for the
/// validated fragments, named by its span and the type's extension.
pub open spec fn outcome_of<V: FileValidator>(
    validator: &V,
    image: Seq<u8>,
    p: &MatchPair,
    matches: Seq<Match>,
    cluster_size: usize,
    config: &SearchlightConfig,
    o: CarveOutcome,
) -> bool {
    exists|res: (FileValidationType, Seq<Fragment>)|
        #[trigger] validator.validate_result(image, p, matches, cluster_size, config, res) && o.validation_type
            == res.0 && match o.carved {
            None => res.0 == FileValidationType::Unrecognised,
            Some((name, c)) => {
                &&& res.0 != FileValidationType::Unrecognised
                &&& c.validation_type == res.0
                &&& c.fragments@ == carved_fragments(p, res.1)
                &&& least_start(c.fragments@, c.start_idx)
                &&& greatest_end(c.fragments@, c.end_idx)
                &&& name@ == spec_file_name(c.start_idx, c.end_idx, pair_extension(p))
            },
        }
}

/// Validates each potential file in the image and plans what to carve of it, in order.
pub fn plan_carving<V: FileValidator>(
    validator: &V,
    image: &[u8],
    pairs: &[MatchPair],
    matches: &[Match],
    cluster_size: usize,
    config: &SearchlightConfig,
) -> (r: Vec<CarveOutcome>)
    requires
        forall|i: int|
            0 <= i < pairs@.len() ==> #[trigger] validator.validate_ok(
                image@,
                &pairs@[i],
                matches@,
                cluster_size,
                config,
            ) && pairs@[i].end_idx < u64::MAX,
    ensures
        r@.len() == pairs@.len(),
        forall|i: int|
            0 <= i < pairs@.len() ==> outcome_of(
                validator,
                image@,
                &pairs@[i],
                matches@,
                cluster_size,
                config,
                #[trigger] r@[i],
            ),
{
    let mut out: Vec<CarveOutcome> = Vec::new();
    let mut i: usize = 0;
    while i < pairs.len()
        invariant
            i <= pairs@.len(),
            out@.len() == i,
            forall|k: int|
                0 <= k < pairs@.len() ==> #[trigger] validator.validate_ok(
                    image@,
                    &pairs@[k],
                    matches@,
                    cluster_size,
                    config,
                ) && pairs@[k].end_idx < u64::MAX,
            forall|k: int|
                0 <= k < i ==> outcome_of(
                    validator,
                    image@,
                    &pairs@[k],
                    matches@,
                    cluster_size,
                    config,
                    #[trigger] out@[k],
                ),
        decreases pairs@.len() - i,
    {
        let p = &pairs[i];
        assert(validator.validate_ok(image@, &pairs@[i as int], matches@, cluster_size, config));
        let v = validator.validate(image, p, matches, cluster_size, config);
        let ghost res = (v.validation_type, v.fragments@);
        let vt = v.validation_type;
        let carved = match carve_plan(p, v) {
            Some(c) => {
                let name = carved_file_name(c.start_idx, c.end_idx, &p.file_type.extension);
                Some((name, c))
            },
            None => None,
        };
        let o = CarveOutcome { validation_type: vt, carved };
        assert(validator.validate_result(image@, p, matches@, cluster_size, config, res));
        assert(outcome_of(validator, image@, p, matches@, cluster_size, config, o));
        let ghost before = out@;
        out.push(o);
        assert forall|k: int| 0 <= k < i + 1 implies outcome_of(
            validator,
            image@,
            &pairs@[k],
            matches@,
            cluster_size,
            config,
            #[trigger] out@[k],
        ) by {
            if k < i {
                assert(out@[k] == before[k]);
            }
        }
        i += 1;
    }
    out
}

} // verus!
