use std::collections::HashMap;

use vstd::prelude::*;

use super::{match_id_hash_slice_u16, spec_hash_u16, Match};
use crate::searchlight::config::{pattern_values, FileType, MatchString, PairingStrategy, SearchlightConfig};

verus! {

/// A potential file: a range of the image (both ends inclusive) and the file type it would be.
#[derive(Debug, PartialEq)]
pub struct MatchPair<'a> {
    pub file_type: &'a FileType,
    pub start_idx: u64,
    pub end_idx: u64,
}

impl<'a> MatchPair<'a> {
    /// A pair from the start of the header match `start` to the end of the footer match `end`.
    pub fn new(file_type: &'a FileType, start: &Match, end: &Match) -> (p: Self)
        ensures
            p.file_type == file_type,
            p.start_idx == start.start_idx,
            p.end_idx == end.end_idx,
    {
        MatchPair { file_type, start_idx: start.start_idx, end_idx: end.end_idx }
    }

    /// A pair from the start of the header match `start`, `size` bytes long.
    pub fn new_sized(file_type: &'a FileType, start: &Match, size: u64) -> (p: Self)
        requires
            start.start_idx + size <= u64::MAX,
        ensures
            p.file_type == file_type,
            p.start_idx == start.start_idx,
            p.end_idx == start.start_idx + size,
    {
        MatchPair { file_type, start_idx: start.start_idx, end_idx: start.start_idx + size }
    }
}

/// Whether a match is a header or a footer of its file type.
#[derive(Debug, PartialEq, Eq, Clone, Copy, Structural)]
pub enum MatchPart {
    Header,
    Footer,
}

impl MatchPart {
    /// The lowercase name of the part.
    pub fn to_str(&self) -> (s: &'static str)
        ensures
            s@ == match self {
                MatchPart::Header => "header"@,
                MatchPart::Footer => "footer"@,
            },
    {
        match self {
            MatchPart::Header => "header",
            MatchPart::Footer => "footer",
        }
    }
}

/// Inserts the ids of `pats` into `m`, in order, each mapped to `tag`.
pub open spec fn insert_ids<T>(m: Map<u64, T>, pats: Seq<Seq<u16>>, tag: T) -> Map<u64, T>
    decreases pats.len(),
{
    if pats.len() == 0 {
        m
    } else {
        insert_ids(m, pats.drop_last(), tag).insert(spec_hash_u16(pats.last()), tag)
    }
}

/// The tags (file type index and part) of the ids of the first `n` file types: each header
/// and footer of each type in order, later entries replacing earlier ones with the same id.
pub open spec fn spec_id_tags(fts: Seq<FileType>, n: int) -> Map<u64, (usize, MatchPart)>
    decreases n,
{
    if n <= 0 {
        Map::empty()
    } else {
        let m = spec_id_tags(fts, n - 1);
        let ft = fts[n - 1];
        let m2 = insert_ids(m, pattern_values(ft.headers@), ((n - 1) as usize, MatchPart::Header));
        insert_ids(m2, pattern_values(ft.footers@), ((n - 1) as usize, MatchPart::Footer))
    }
}

proof fn lemma_insert_ids_index<T>(m: Map<u64, T>, pats: Seq<Seq<u16>>, tag: T, id: u64)
    ensures
        insert_ids(m, pats, tag).contains_key(id) == (m.contains_key(id) || exists|k: int|
            0 <= k < pats.len() && spec_hash_u16(pats[k]) == id),
        insert_ids(m, pats, tag).contains_key(id) && !m.contains_key(id) ==> insert_ids(
            m,
            pats,
            tag,
        )[id] == tag,
        (exists|k: int| 0 <= k < pats.len() && spec_hash_u16(pats[k]) == id) ==> insert_ids(
            m,
            pats,
            tag,
        )[id] == tag,
        !(exists|k: int| 0 <= k < pats.len() && spec_hash_u16(pats[k]) == id) ==> insert_ids(
            m,
            pats,
            tag,
        ).contains_key(id) == m.contains_key(id) && (m.contains_key(id) ==> insert_ids(
            m,
            pats,
            tag,
        )[id] == m[id]),
    decreases pats.len(),
{
    if pats.len() > 0 {
        lemma_insert_ids_index(m, pats.drop_last(), tag, id);
        if exists|k: int| 0 <= k < pats.len() - 1 && spec_hash_u16(pats.drop_last()[k]) == id {
        }
        if exists|k: int| 0 <= k < pats.len() && spec_hash_u16(pats[k]) == id {
            let k = choose|k: int| 0 <= k < pats.len() && spec_hash_u16(pats[k]) == id;
            if k < pats.len() - 1 {
                assert(pats.drop_last()[k] == pats[k]);
            }
        }
        if exists|k: int| 0 <= k < pats.len() - 1 && spec_hash_u16(pats.drop_last()[k]) == id {
            let k = choose|k: int| 0 <= k < pats.len() - 1 && spec_hash_u16(pats.drop_last()[k]) == id;
            assert(pats[k] == pats.drop_last()[k]);
        }
    }
}

/// Inserts the ids of `pats` with the given tag.
fn insert_tagged<'a>(
    map: &mut HashMap<u64, (usize, &'a FileType, MatchPart)>,
    pats: &Vec<MatchString>,
    tag: (usize, &'a FileType, MatchPart),
)
    ensures
        final(map)@ == insert_ids(old(map)@, pattern_values(pats@), tag),
{
    let mut k: usize = 0;
    while k < pats.len()
        invariant
            k <= pats@.len(),
            map@ == insert_ids(old(map)@, pattern_values(pats@.take(k as int)), tag),
        decreases pats@.len() - k,
    {
        let id = match_id_hash_slice_u16(pats[k].as_slice());
        assert(pattern_values(pats@.take(k + 1)) =~= pattern_values(pats@.take(k as int)).push(
            pats@[k as int]@,
        ));
        let ghost nv = pattern_values(pats@.take(k + 1));
        assert(nv.drop_last() =~= pattern_values(pats@.take(k as int)));
        assert(nv.last() == pats@[k as int]@);
        map.insert(id, tag);
        assert(map@ == insert_ids(old(map)@, nv, tag));
        k += 1;
    }
    assert(pats@.take(k as int) =~= pats@);
}

/// Maps each header and footer id of the configured file types to the type's index, the type
/// and whether it is a header or footer; where ids collide, the later pattern wins.
pub fn preprocess_config<'a>(config: &'a SearchlightConfig) -> (r: HashMap<
    u64,
    (usize, &'a FileType, MatchPart),
>)
    ensures
        forall|id: u64|
            #[trigger] r@.contains_key(id) == spec_id_tags(
                config.file_types@,
                config.file_types@.len() as int,
            ).contains_key(id),
        forall|id: u64|
            #[trigger] r@.contains_key(id) ==> {
                let t = spec_id_tags(config.file_types@, config.file_types@.len() as int)[id];
                &&& r@[id].0 == t.0
                &&& r@[id].2 == t.1
                &&& *r@[id].1 == config.file_types@[t.0 as int]
            },
        types_consistent(r@),
{
    let mut map: HashMap<u64, (usize, &'a FileType, MatchPart)> = HashMap::new();
    let ghost fts = config.file_types@;
    let mut i: usize = 0;
    while i < config.file_types.len()
        invariant
            fts == config.file_types@,
            i <= fts.len(),
            forall|id: u64| #[trigger]
                map@.contains_key(id) == spec_id_tags(fts, i as int).contains_key(id),
            forall|id: u64|
                #[trigger] map@.contains_key(id) ==> {
                    let t = spec_id_tags(fts, i as int)[id];
                    &&& map@[id].0 == t.0
                    &&& map@[id].2 == t.1
                    &&& t.0 < i
                    &&& *map@[id].1 == fts[t.0 as int]
                },
        decreases fts.len() - i,
    {
        let ft = &config.file_types[i];
        let ghost m0 = map@;
        let ghost t0 = spec_id_tags(fts, i as int);
        insert_tagged(&mut map, &ft.headers, (i, ft, MatchPart::Header));
        let ghost m1 = map@;
        let ghost t1 = insert_ids(t0, pattern_values(ft.headers@), (i, MatchPart::Header));
        insert_tagged(&mut map, &ft.footers, (i, ft, MatchPart::Footer));
        proof {
            let t2 = insert_ids(t1, pattern_values(ft.footers@), (i, MatchPart::Footer));
            assert(t2 == spec_id_tags(fts, i + 1));
            assert forall|id: u64| #[trigger] map@.contains_key(id) == t2.contains_key(id) && (
            map@.contains_key(id) ==> {
                let t = t2[id];
                &&& map@[id].0 == t.0
                &&& map@[id].2 == t.1
                &&& t.0 < i + 1
                &&& *map@[id].1 == fts[t.0 as int]
            }) by {
                lemma_insert_ids_index(m0, pattern_values(ft.headers@), (i, ft, MatchPart::Header), id);
                lemma_insert_ids_index(t0, pattern_values(ft.headers@), (i, MatchPart::Header), id);
                lemma_insert_ids_index(m1, pattern_values(ft.footers@), (i, ft, MatchPart::Footer), id);
                lemma_insert_ids_index(t1, pattern_values(ft.footers@), (i, MatchPart::Footer), id);
            }
        }
        i += 1;
    }
    assert forall|a: u64, b: u64|
        #![trigger map@[a], map@[b]]
        map@.contains_key(a) && map@.contains_key(b) && map@[a].0 == map@[b].0 implies map@[a].1
        == map@[b].1 by {
        assert(*map@[a].1 == fts[map@[a].0 as int]);
        assert(*map@[b].1 == fts[map@[b].0 as int]);
    }
    map
}

/// A stack of match indices per file type index, in order of first use.
pub open spec fn tr_view(tr: Seq<(usize, Vec<usize>)>) -> Seq<(usize, Seq<usize>)> {
    Seq::new(tr.len(), |i: int| (tr[i].0, tr[i].1@))
}

/// `p` is the first position of the tracker with key `k`.
pub open spec fn is_first_key(tr: Seq<(usize, Seq<usize>)>, k: usize, p: int) -> bool {
    &&& 0 <= p < tr.len()
    &&& tr[p].0 == k
    &&& forall|q: int| 0 <= q < p ==> tr[q].0 != k
}

/// The position of key `k` in the tracker, if any.
pub open spec fn tr_pos(tr: Seq<(usize, Seq<usize>)>, k: usize) -> Option<int> {
    if exists|p: int| is_first_key(tr, k, p) {
        Some(choose|p: int| is_first_key(tr, k, p))
    } else {
        None
    }
}

proof fn lemma_tr_pos(tr: Seq<(usize, Seq<usize>)>, k: usize, p: int)
    requires
        is_first_key(tr, k, p),
    ensures
        tr_pos(tr, k) == Some(p),
{
    let c = choose|p: int| is_first_key(tr, k, p);
    assert(is_first_key(tr, k, c));
    if c < p {
        assert(tr[c].0 != k);
    } else if c > p {
        assert(tr[p].0 != k);
    }
}

/// The tag of match `i`.
pub open spec fn tag<'a>(
    m: Map<u64, (usize, &'a FileType, MatchPart)>,
    ms: Seq<Match>,
    i: int,
) -> (usize, &'a FileType, MatchPart) {
    m[ms[i].id]
}

/// `in_range` does not panic: the footer ends after the header starts.
pub open spec fn in_range_defined(h: Match, f: Match) -> bool {
    f.end_idx > h.start_idx
}

/// The header and footer are within the maximum length of each other (no limit if None).
pub open spec fn spec_in_range(h: Match, f: Match, max_len: Option<u64>) -> bool {
    f.end_idx - h.start_idx <= match max_len {
        Some(l) => l as int,
        None => u64::MAX as int,
    }
}

/// A pair spanning from the header start to the footer end.
pub open spec fn spec_pair<'a>(ft: &'a FileType, h: Match, f: Match) -> MatchPair<'a> {
    MatchPair { file_type: ft, start_idx: h.start_idx, end_idx: f.end_idx }
}

/// A pair spanning `size` bytes from the header start.
pub open spec fn spec_sized<'a>(ft: &'a FileType, h: Match, size: u64) -> MatchPair<'a> {
    MatchPair { file_type: ft, start_idx: h.start_idx, end_idx: (h.start_idx + size) as u64 }
}

/// The position of the last header in `stack[..n]`.
pub open spec fn last_header_pos<'a>(
    m: Map<u64, (usize, &'a FileType, MatchPart)>,
    ms: Seq<Match>,
    stack: Seq<usize>,
    n: int,
) -> Option<int>
    decreases n,
{
    if n <= 0 {
        None
    } else if tag(m, ms, stack[n - 1] as int).2 == MatchPart::Header {
        Some(n - 1)
    } else {
        last_header_pos(m, ms, stack, n - 1)
    }
}

/// The state of pairing: completed pairs, the tracker, and the indices of matches to remove.
pub type PairState<'a> = (Seq<MatchPair<'a>>, Seq<(usize, Seq<usize>)>, Seq<usize>);

/// The first pass over match `idx`: headers of types with footers are tracked; headers of types
/// without footers are completed with the type's maximum length; a footer of a `PairNext` type
/// is paired with the latest tracked header of its type (the pair kept only if in range); a
/// footer of a `PairLast` type completes the last tracked header with the previous footer when
/// that footer is in range and this one is not, and is tracked otherwise.
pub open spec fn p1_step<'a>(
    m: Map<u64, (usize, &'a FileType, MatchPart)>,
    ms: Seq<Match>,
    st: PairState<'a>,
    idx: int,
) -> PairState<'a> {
    let (complete, tr, rem) = st;
    let mm = ms[idx];
    let (fi, ft, part) = m[mm.id];
    if ft.footers@.len() != 0 && part == MatchPart::Header {
        match tr_pos(tr, fi) {
            Some(p) => (complete, tr.update(p, (fi, tr[p].1.push(idx as usize))), rem),
            None => (complete, tr.push((fi, seq![idx as usize])), rem),
        }
    } else if part == MatchPart::Header {
        (complete.push(spec_sized(ft, mm, ft.max_len->0)), tr, rem.push(idx as usize))
    } else if ft.pairing == PairingStrategy::PairNext {
        match tr_pos(tr, fi) {
            Some(p) => {
                let stack = tr[p].1;
                if stack.len() > 0 {
                    let mi = stack.last();
                    let c2 = if spec_in_range(ms[mi as int], mm, ft.max_len) {
                        complete.push(spec_pair(ft, ms[mi as int], mm))
                    } else {
                        complete
                    };
                    (c2, tr.update(p, (fi, stack.drop_last())), rem.push(mi).push(idx as usize))
                } else {
                    (complete, tr, rem.push(idx as usize))
                }
            },
            None => (complete, tr, rem.push(idx as usize)),
        }
    } else {
        match tr_pos(tr, fi) {
            Some(p) => {
                let stack = tr[p].1;
                match last_header_pos(m, ms, stack, stack.len() as int) {
                    Some(hp) => {
                        let hmi = stack[hp];
                        let mi = stack.last();
                        if mi != hmi && spec_in_range(ms[hmi as int], ms[mi as int], ft.max_len)
                            && !spec_in_range(ms[hmi as int], mm, ft.max_len) {
                            (
                                complete.push(spec_pair(ft, ms[hmi as int], ms[mi as int])),
                                tr.update(p, (fi, stack.drop_last().remove(hp))),
                                rem.push(mi).push(hmi),
                            )
                        } else {
                            (complete, tr.update(p, (fi, stack.push(idx as usize))), rem)
                        }
                    },
                    None => (complete, tr.update(p, (fi, stack.push(idx as usize))), rem),
                }
            },
            None => st,
        }
    }
}

/// The first pass over match `idx` does not panic.
pub open spec fn p1_step_ok<'a>(
    m: Map<u64, (usize, &'a FileType, MatchPart)>,
    ms: Seq<Match>,
    st: PairState<'a>,
    idx: int,
) -> bool {
    let (complete, tr, rem) = st;
    let mm = ms[idx];
    let (fi, ft, part) = m[mm.id];
    if ft.footers@.len() != 0 && part == MatchPart::Header {
        true
    } else if part == MatchPart::Header {
        ft.max_len is Some && mm.start_idx + ft.max_len->0 <= u64::MAX
    } else if ft.pairing == PairingStrategy::PairNext {
        match tr_pos(tr, fi) {
            Some(p) => {
                let stack = tr[p].1;
                stack.len() > 0 ==> {
                    let mi = stack.last();
                    &&& tag(m, ms, mi as int).2 == MatchPart::Header
                    &&& tag(m, ms, mi as int).1.pairing == ft.pairing
                    &&& in_range_defined(ms[mi as int], mm)
                }
            },
            None => true,
        }
    } else {
        match tr_pos(tr, fi) {
            Some(p) => {
                let stack = tr[p].1;
                match last_header_pos(m, ms, stack, stack.len() as int) {
                    Some(hp) => {
                        let hmi = stack[hp];
                        let mi = stack.last();
                        mi != hmi ==> {
                            &&& in_range_defined(ms[hmi as int], ms[mi as int])
                            &&& spec_in_range(ms[hmi as int], ms[mi as int], ft.max_len)
                                ==> in_range_defined(ms[hmi as int], mm)
                        }
                    },
                    None => true,
                }
            },
            None => true,
        }
    }
}

/// The first pass from match `idx` on.
pub open spec fn p1_from<'a>(
    m: Map<u64, (usize, &'a FileType, MatchPart)>,
    ms: Seq<Match>,
    st: PairState<'a>,
    idx: int,
) -> PairState<'a>
    decreases ms.len() - idx,
{
    if idx < 0 || idx >= ms.len() {
        st
    } else {
        p1_from(m, ms, p1_step(m, ms, st, idx), idx + 1)
    }
}

/// The first pass from match `idx` on does not panic.
pub open spec fn p1_ok_from<'a>(
    m: Map<u64, (usize, &'a FileType, MatchPart)>,
    ms: Seq<Match>,
    st: PairState<'a>,
    idx: int,
) -> bool
    decreases ms.len() - idx,
{
    if idx < 0 || idx >= ms.len() {
        true
    } else {
        p1_step_ok(m, ms, st, idx) && p1_ok_from(m, ms, p1_step(m, ms, st, idx), idx + 1)
    }
}

/// Scanning `stack[i + 1..n]` for the header `stack[i]`: the last footer in range, and whether
/// any match is out of range.
pub open spec fn p2_scan<'a>(
    m: Map<u64, (usize, &'a FileType, MatchPart)>,
    ms: Seq<Match>,
    stack: Seq<usize>,
    i: int,
    n: int,
    max_len: Option<u64>,
) -> (Option<int>, bool)
    decreases n - i,
{
    if n <= i + 1 {
        (None, false)
    } else {
        let prev = p2_scan(m, ms, stack, i, n - 1, max_len);
        let s = stack[n - 1] as int;
        let inr = spec_in_range(ms[stack[i] as int], ms[s], max_len);
        if tag(m, ms, s).2 == MatchPart::Footer && inr {
            (Some(n - 1), prev.1)
        } else if !inr {
            (prev.0, true)
        } else {
            prev
        }
    }
}

/// The scan does not panic.
pub open spec fn p2_scan_ok(ms: Seq<Match>, stack: Seq<usize>, i: int, n: int) -> bool {
    forall|j: int|
        i + 1 <= j < n ==> #[trigger] in_range_defined(ms[stack[i] as int], ms[stack[j] as int])
}

pub proof fn lemma_p2_scan_bounds<'a>(
    m: Map<u64, (usize, &'a FileType, MatchPart)>,
    ms: Seq<Match>,
    stack: Seq<usize>,
    i: int,
    n: int,
    max_len: Option<u64>,
)
    ensures
        match p2_scan(m, ms, stack, i, n, max_len).0 {
            Some(j) => i < j < n,
            None => true,
        },
    decreases n - i,
{
    if n > i + 1 {
        lemma_p2_scan_bounds(m, ms, stack, i, n - 1, max_len);
    }
}

/// A header precedes position `i` of the stack.
pub open spec fn header_before<'a>(
    m: Map<u64, (usize, &'a FileType, MatchPart)>,
    ms: Seq<Match>,
    stack: Seq<usize>,
    i: int,
) -> bool {
    exists|p: int| 0 <= p < i && #[trigger] tag(m, ms, stack[p] as int).2 == MatchPart::Header
}

/// The second pass over one tracked stack, from position `i`: remaining headers of `PairNext`
/// types are completed with the maximum length unless a footer is required, and dropped; a
/// header of a `PairLast` type is paired with the last footer in range once some match is out
/// of its range or the matches have ended, or completed with the maximum length at the end if
/// no footer is required, or dropped if a footer is required and some match is out of range; a
/// footer with no header before it is dropped.
pub open spec fn p2_stack<'a>(
    m: Map<u64, (usize, &'a FileType, MatchPart)>,
    ms: Seq<Match>,
    end: bool,
    stack: Seq<usize>,
    i: int,
    complete: Seq<MatchPair<'a>>,
    rem: Seq<usize>,
) -> (Seq<MatchPair<'a>>, Seq<usize>)
    decreases stack.len() - i,
{
    if i < 0 || i >= stack.len() {
        (complete, rem)
    } else {
        let midx = stack[i];
        let (_, ft, part) = tag(m, ms, midx as int);
        if ft.pairing == PairingStrategy::PairNext {
            let c2 = if !ft.requires_footer {
                complete.push(spec_sized(ft, ms[midx as int], ft.max_len->0))
            } else {
                complete
            };
            p2_stack(m, ms, end, stack, i + 1, c2, rem.push(midx))
        } else if part == MatchPart::Header {
            proof {
                lemma_p2_scan_bounds(m, ms, stack, i, stack.len() as int, ft.max_len);
            }
            let (pj, left) = p2_scan(m, ms, stack, i, stack.len() as int, ft.max_len);
            if left || end {
                match pj {
                    Some(j) => p2_stack(
                        m,
                        ms,
                        end,
                        stack.remove(j).remove(i),
                        i,
                        complete.push(spec_pair(ft, ms[midx as int], ms[stack[j] as int])),
                        rem.push(midx).push(stack[j]),
                    ),
                    None => if end && !ft.requires_footer {
                        let c2 = match ft.max_len {
                            Some(l) => complete.push(spec_sized(ft, ms[midx as int], l)),
                            None => complete,
                        };
                        p2_stack(m, ms, end, stack, i + 1, c2, rem.push(midx))
                    } else if ft.requires_footer && left {
                        p2_stack(m, ms, end, stack.remove(i), i, complete, rem.push(midx))
                    } else {
                        p2_stack(m, ms, end, stack, i + 1, complete, rem)
                    },
                }
            } else {
                p2_stack(m, ms, end, stack, i + 1, complete, rem)
            }
        } else {
            if !header_before(m, ms, stack, i) {
                p2_stack(m, ms, end, stack.remove(i), i, complete, rem.push(midx))
            } else {
                p2_stack(m, ms, end, stack, i + 1, complete, rem)
            }
        }
    }
}

/// The second pass over one stack does not panic.
pub open spec fn p2_stack_ok<'a>(
    m: Map<u64, (usize, &'a FileType, MatchPart)>,
    ms: Seq<Match>,
    end: bool,
    stack: Seq<usize>,
    i: int,
) -> bool
    decreases stack.len() - i,
{
    if i < 0 || i >= stack.len() {
        true
    } else {
        let midx = stack[i];
        let (_, ft, part) = tag(m, ms, midx as int);
        if ft.pairing == PairingStrategy::PairNext {
            &&& part == MatchPart::Header
            &&& !ft.requires_footer ==> ft.max_len is Some && ms[midx as int].start_idx
                + ft.max_len->0 <= u64::MAX
            &&& p2_stack_ok(m, ms, end, stack, i + 1)
        } else if part == MatchPart::Header {
            proof {
                lemma_p2_scan_bounds(m, ms, stack, i, stack.len() as int, ft.max_len);
            }
            let (pj, left) = p2_scan(m, ms, stack, i, stack.len() as int, ft.max_len);
            &&& p2_scan_ok(ms, stack, i, stack.len() as int)
            &&& if left || end {
                match pj {
                    Some(j) => p2_stack_ok(m, ms, end, stack.remove(j).remove(i), i),
                    None => if end && !ft.requires_footer {
                        &&& (ft.max_len is Some ==> ms[midx as int].start_idx + ft.max_len->0
                            <= u64::MAX)
                        &&& p2_stack_ok(m, ms, end, stack, i + 1)
                    } else if ft.requires_footer && left {
                        p2_stack_ok(m, ms, end, stack.remove(i), i)
                    } else {
                        p2_stack_ok(m, ms, end, stack, i + 1)
                    },
                }
            } else {
                p2_stack_ok(m, ms, end, stack, i + 1)
            }
        } else {
            if !header_before(m, ms, stack, i) {
                p2_stack_ok(m, ms, end, stack.remove(i), i)
            } else {
                p2_stack_ok(m, ms, end, stack, i + 1)
            }
        }
    }
}

/// The second pass over the first `n` tracked stacks, in order.
pub open spec fn p2_all<'a>(
    m: Map<u64, (usize, &'a FileType, MatchPart)>,
    ms: Seq<Match>,
    end: bool,
    tr: Seq<(usize, Seq<usize>)>,
    n: int,
    complete: Seq<MatchPair<'a>>,
    rem: Seq<usize>,
) -> (Seq<MatchPair<'a>>, Seq<usize>)
    decreases n,
{
    if n <= 0 {
        (complete, rem)
    } else {
        let prev = p2_all(m, ms, end, tr, n - 1, complete, rem);
        p2_stack(m, ms, end, tr[n - 1].1, 0, prev.0, prev.1)
    }
}

/// The second pass over the first `n` stacks does not panic.
pub open spec fn p2_all_ok<'a>(
    m: Map<u64, (usize, &'a FileType, MatchPart)>,
    ms: Seq<Match>,
    end: bool,
    tr: Seq<(usize, Seq<usize>)>,
    n: int,
) -> bool
    decreases n,
{
    if n <= 0 {
        true
    } else {
        p2_all_ok(m, ms, end, tr, n - 1) && p2_stack_ok(m, ms, end, tr[n - 1].1, 0)
    }
}

/// The matches whose indices are not in `rem`, in order.
pub open spec fn keep(ms: Seq<Match>, rem: Set<usize>, n: int) -> Seq<Match>
    decreases n,
{
    if n <= 0 {
        Seq::empty()
    } else if rem.contains((n - 1) as usize) {
        keep(ms, rem, n - 1)
    } else {
        keep(ms, rem, n - 1).push(ms[n - 1])
    }
}

/// The state after the first pass over all matches.
pub open spec fn p1_result<'a>(
    m: Map<u64, (usize, &'a FileType, MatchPart)>,
    ms: Seq<Match>,
) -> PairState<'a> {
    p1_from(m, ms, (Seq::empty(), Seq::empty(), Seq::empty()), 0)
}

/// The pairs found and the indices of the matches consumed, after both passes.
pub open spec fn spec_pair_all<'a>(
    m: Map<u64, (usize, &'a FileType, MatchPart)>,
    ms: Seq<Match>,
    end: bool,
) -> (Seq<MatchPair<'a>>, Seq<usize>) {
    let st = p1_result(m, ms);
    p2_all(m, ms, end, st.1, st.1.len() as int, st.0, st.2)
}

/// Every match id is in the map.
pub open spec fn ids_mapped<'a>(m: Map<u64, (usize, &'a FileType, MatchPart)>, ms: Seq<Match>) -> bool {
    forall|i: int| 0 <= i < ms.len() ==> #[trigger] m.contains_key(ms[i].id)
}

/// Every tracked match index is below `n`.
pub open spec fn tracked_below(tr: Seq<(usize, Seq<usize>)>, n: int) -> bool {
    forall|p: int, q: int| 0 <= p < tr.len() && 0 <= q < tr[p].1.len() ==> #[trigger] tr[p].1[q] < n
}

/// Every index in `s` is below `n`.
pub open spec fn all_below(s: Seq<usize>, n: int) -> bool {
    forall|q: int| 0 <= q < s.len() ==> #[trigger] s[q] < n
}

/// Ids tagged with the same file type index are tagged with the same file type.
pub open spec fn types_consistent<'a>(m: Map<u64, (usize, &'a FileType, MatchPart)>) -> bool {
    forall|a: u64, b: u64|
        #![trigger m[a], m[b]]
        m.contains_key(a) && m.contains_key(b) && m[a].0 == m[b].0 ==> m[a].1 == m[b].1
}

/// Every match on the stack is tagged with the file type index `fi`.
pub open spec fn stack_typed<'a>(
    m: Map<u64, (usize, &'a FileType, MatchPart)>,
    ms: Seq<Match>,
    stack: Seq<usize>,
    fi: usize,
) -> bool {
    forall|q: int| 0 <= q < stack.len() ==> (#[trigger] tag(m, ms, stack[q] as int)).0 == fi
}

/// The matches on the stack all have one file type index.
pub open spec fn stack_uniform<'a>(m: Map<u64, (usize, &'a FileType, MatchPart)>, ms: Seq<Match>, stack: Seq<usize>) -> bool {
    forall|q1: int, q2: int|
        0 <= q1 < stack.len() && 0 <= q2 < stack.len() ==> (#[trigger] tag(m, ms, stack[q1] as int)).0
            == (#[trigger] tag(m, ms, stack[q2] as int)).0
}

/// Every tracked stack holds matches of its own file type index.
pub open spec fn tracked_typed<'a>(
    m: Map<u64, (usize, &'a FileType, MatchPart)>,
    ms: Seq<Match>,
    tr: Seq<(usize, Seq<usize>)>,
) -> bool {
    forall|p: int| 0 <= p < tr.len() ==> #[trigger] stack_typed(m, ms, tr[p].1, tr[p].0)
}

/// Pairing does not panic: every match id is mapped, and no step panics.
pub open spec fn pair_ok<'a>(
    m: Map<u64, (usize, &'a FileType, MatchPart)>,
    ms: Seq<Match>,
    end: bool,
) -> bool {
    let st = p1_result(m, ms);
    &&& ids_mapped(m, ms)
    &&& p1_ok_from(m, ms, (Seq::empty(), Seq::empty(), Seq::empty()), 0)
    &&& p2_all_ok(m, ms, end, st.1, st.1.len() as int)
}

/// The tag that the map gives `id`.
pub(crate) fn lookup_tag<'a>(map: &HashMap<u64, (usize, &'a FileType, MatchPart)>, id: u64) -> (t: (
    usize,
    &'a FileType,
    MatchPart,
))
    requires
        map@.contains_key(id),
    ensures
        t == map@[id],
{
    *map.get(&id).unwrap()
}

/// The position of the stack of file type `k` in the tracker.
fn find_key(tr: &Vec<(usize, Vec<usize>)>, k: usize) -> (r: Option<usize>)
    ensures
        match r {
            Some(p) => tr_pos(tr_view(tr@), k) == Some(p as int),
            None => tr_pos(tr_view(tr@), k) is None,
        },
{
    let mut p: usize = 0;
    while p < tr.len()
        invariant
            p <= tr@.len(),
            forall|q: int| 0 <= q < p ==> tr@[q].0 != k,
        decreases tr@.len() - p,
    {
        if tr[p].0 == k {
            proof {
                assert(is_first_key(tr_view(tr@), k, p as int));
                lemma_tr_pos(tr_view(tr@), k, p as int);
            }
            return Some(p);
        }
        p += 1;
    }
    proof {
        if exists|q: int| is_first_key(tr_view(tr@), k, q) {
            let q = choose|q: int| is_first_key(tr_view(tr@), k, q);
            assert(tr@[q].0 == k);
        }
    }
    None
}

/// The position of the last header in the stack.
fn last_header<'a>(
    map: &HashMap<u64, (usize, &'a FileType, MatchPart)>,
    matches: &Vec<Match>,
    stack: &Vec<usize>,
) -> (r: Option<usize>)
    requires
        ids_mapped(map@, matches@),
        all_below(stack@, matches@.len() as int),
    ensures
        match r {
            Some(p) => last_header_pos(map@, matches@, stack@, stack@.len() as int) == Some(
                p as int,
            ) && p < stack@.len(),
            None => last_header_pos(map@, matches@, stack@, stack@.len() as int) is None,
        },
{
    let mut n: usize = stack.len();
    while n > 0
        invariant
            n <= stack@.len(),
            ids_mapped(map@, matches@),
            all_below(stack@, matches@.len() as int),
            last_header_pos(map@, matches@, stack@, stack@.len() as int) == last_header_pos(
                map@,
                matches@,
                stack@,
                n as int,
            ),
        decreases n,
    {
        let mi = stack[n - 1];
        assert(stack@[n - 1] < matches@.len());
        let t = lookup_tag(map, matches[mi].id);
        if t.2 == MatchPart::Header {
            return Some(n - 1);
        }
        n -= 1;
    }
    None
}

/// Whether the footer ends within `max_size` bytes of the header's start (no limit if None).
fn in_range(header: &Match, footer: &Match, max_size: Option<u64>) -> (r: bool)
    requires
        in_range_defined(*header, *footer),
    ensures
        r == spec_in_range(*header, *footer, max_size),
{
    let limit: u64 = match max_size {
        Some(l) => l,
        None => u64::MAX,
    };
    footer.end_idx - header.start_idx <= limit
}

/// An optional position as an integer.
pub open spec fn opt_int(o: Option<usize>) -> Option<int> {
    match o {
        Some(x) => Some(x as int),
        None => None,
    }
}

/// Scans the matches after the header at `stack[i]`: the last footer in range, and whether any
/// match is out of range.
fn scan_after<'a>(
    map: &HashMap<u64, (usize, &'a FileType, MatchPart)>,
    matches: &Vec<Match>,
    stack: &Vec<usize>,
    i: usize,
    max_len: Option<u64>,
) -> (r: (Option<usize>, bool))
    requires
        i < stack@.len(),
        ids_mapped(map@, matches@),
        all_below(stack@, matches@.len() as int),
        p2_scan_ok(matches@, stack@, i as int, stack@.len() as int),
    ensures
        (opt_int(r.0), r.1) == p2_scan(
            map@,
            matches@,
            stack@,
            i as int,
            stack@.len() as int,
            max_len,
        ),
{
    let mut pair_idx: Option<usize> = None;
    let mut left = false;
    let n = stack.len();
    let mut j: usize = i + 1;
    assert(stack@[i as int] < matches@.len());
    let hi = stack[i];
    while j < stack.len()
        invariant
            i < j <= stack@.len(),
            hi == stack@[i as int],
            hi < matches@.len(),
            ids_mapped(map@, matches@),
            all_below(stack@, matches@.len() as int),
            p2_scan_ok(matches@, stack@, i as int, stack@.len() as int),
            (opt_int(pair_idx), left) == p2_scan(map@, matches@, stack@, i as int, j as int, max_len),
        decreases stack@.len() - j,
    {
        let sj = stack[j];
        assert(stack@[j as int] < matches@.len());
        assert(in_range_defined(matches@[stack@[i as int] as int], matches@[stack@[j as int] as int]));
        let t = lookup_tag(map, matches[sj].id);
        let inr = in_range(&matches[hi], &matches[sj], max_len);
        if t.2 == MatchPart::Footer && inr {
            pair_idx = Some(j);
        } else if !inr {
            left = true;
        }
        j += 1;
    }
    (pair_idx, left)
}

/// Whether a header precedes position `i` of the stack.
fn has_header_before<'a>(
    map: &HashMap<u64, (usize, &'a FileType, MatchPart)>,
    matches: &Vec<Match>,
    stack: &Vec<usize>,
    i: usize,
) -> (b: bool)
    requires
        i <= stack@.len(),
        ids_mapped(map@, matches@),
        all_below(stack@, matches@.len() as int),
    ensures
        b == header_before(map@, matches@, stack@, i as int),
{
    let mut p: usize = 0;
    while p < i
        invariant
            p <= i <= stack@.len(),
            ids_mapped(map@, matches@),
            all_below(stack@, matches@.len() as int),
            forall|q: int|
                0 <= q < p ==> #[trigger] tag(map@, matches@, stack@[q] as int).2
                    != MatchPart::Header,
        decreases i - p,
    {
        let mi = stack[p];
        assert(stack@[p as int] < matches@.len());
        let t = lookup_tag(map, matches[mi].id);
        if t.2 == MatchPart::Header {
            assert(tag(map@, matches@, stack@[p as int] as int).2 == MatchPart::Header);
            return true;
        }
        p += 1;
    }
    false
}

/// One step of the first pass, on match `idx`.
fn first_pass_step<'a>(
    map: &HashMap<u64, (usize, &'a FileType, MatchPart)>,
    matches: &Vec<Match>,
    idx: usize,
    complete: &mut Vec<MatchPair<'a>>,
    tracker: &mut Vec<(usize, Vec<usize>)>,
    rem: &mut Vec<usize>,
)
    requires
        idx < matches@.len(),
        ids_mapped(map@, matches@),
        tracked_below(tr_view(old(tracker)@), idx as int),
        all_below(old(rem)@, idx as int),
        p1_step_ok(map@, matches@, (old(complete)@, tr_view(old(tracker)@), old(rem)@), idx as int),
    ensures
        (final(complete)@, tr_view(final(tracker)@), final(rem)@) == p1_step(
            map@,
            matches@,
            (old(complete)@, tr_view(old(tracker)@), old(rem)@),
            idx as int,
        ),
        tracked_below(tr_view(final(tracker)@), idx + 1),
        all_below(final(rem)@, idx + 1),
{
    let ghost tr0 = tr_view(tracker@);
    let (fi, ft, part) = lookup_tag(map, matches[idx].id);
    if ft.has_footer() && part == MatchPart::Header {
        match find_key(tracker, fi) {
            Some(p) => {
                let ghost old_stack = tracker@[p as int].1@;
                tracker[p].1.push(idx);
                proof {
                    assert(tr_view(tracker@) =~= tr0.update(p as int, (fi, old_stack.push(idx))));
                }
            },
            None => {
                let mut s: Vec<usize> = Vec::new();
                s.push(idx);
                tracker.push((fi, s));
                proof {
                    assert(tr_view(tracker@) =~= tr0.push((fi, seq![idx])));
                }
            },
        }
    } else if part == MatchPart::Header {
        let l: u64 = match ft.max_len {
            Some(l) => l,
            None => {
                return ;
            },
        };
        complete.push(MatchPair::new_sized(ft, &matches[idx], l));
        rem.push(idx);
    } else if ft.pairing == PairingStrategy::PairNext {
        match find_key(tracker, fi) {
            Some(p) => {
                let ghost old_stack = tracker@[p as int].1@;
                let popped = tracker[p].1.pop();
                proof {
                    assert(tr_view(tracker@) =~= tr0.update(p as int, (fi, tracker@[p as int].1@)));
                }
                match popped {
                    Some(mi) => {
                        assert(old_stack[old_stack.len() - 1] < idx);
                        if in_range(&matches[mi], &matches[idx], ft.max_len) {
                            complete.push(MatchPair::new(ft, &matches[mi], &matches[idx]));
                        }
                        rem.push(mi);
                        rem.push(idx);
                    },
                    None => {
                        rem.push(idx);
                    },
                }
            },
            None => {
                rem.push(idx);
            },
        }
    } else {
        match find_key(tracker, fi) {
            Some(p) => {
                let ghost old_stack = tracker@[p as int].1@;
                assert(all_below(old_stack, idx as int)) by {
                    assert forall|q: int| 0 <= q < old_stack.len() implies #[trigger] old_stack[q]
                        < idx by {
                        assert(tr0[p as int].1[q] < idx);
                    }
                }
                match last_header(map, matches, &tracker[p].1) {
                    Some(hp) => {
                        let hmi = tracker[p].1[hp];
                        let last = tracker[p].1.len() - 1;
                        let mi = tracker[p].1[last];
                        if mi != hmi && in_range(&matches[hmi], &matches[mi], ft.max_len)
                            && !in_range(&matches[hmi], &matches[idx], ft.max_len) {
                            complete.push(MatchPair::new(ft, &matches[hmi], &matches[mi]));
                            tracker[p].1.pop();
                            tracker[p].1.remove(hp);
                            proof {
                                assert(tr_view(tracker@) =~= tr0.update(
                                    p as int,
                                    (fi, old_stack.drop_last().remove(hp as int)),
                                ));
                            }
                            rem.push(mi);
                            rem.push(hmi);
                        } else {
                            tracker[p].1.push(idx);
                            proof {
                                assert(tr_view(tracker@) =~= tr0.update(
                                    p as int,
                                    (fi, old_stack.push(idx)),
                                ));
                            }
                        }
                    },
                    None => {
                        tracker[p].1.push(idx);
                        proof {
                            assert(tr_view(tracker@) =~= tr0.update(p as int, (fi, old_stack.push(idx))));
                        }
                    },
                }
            },
            None => {},
        }
    }
}

/// The second pass over one tracked stack.
fn pair_remaining<'a>(
    map: &HashMap<u64, (usize, &'a FileType, MatchPart)>,
    matches: &Vec<Match>,
    end: bool,
    stack: &mut Vec<usize>,
    complete: &mut Vec<MatchPair<'a>>,
    rem: &mut Vec<usize>,
)
    requires
        ids_mapped(map@, matches@),
        all_below(old(stack)@, matches@.len() as int),
        all_below(old(rem)@, matches@.len() as int),
        p2_stack_ok(map@, matches@, end, old(stack)@, 0),
    ensures
        (final(complete)@, final(rem)@) == p2_stack(
            map@,
            matches@,
            end,
            old(stack)@,
            0,
            old(complete)@,
            old(rem)@,
        ),
        all_below(final(rem)@, matches@.len() as int),
{
    let ghost target = p2_stack(map@, matches@, end, stack@, 0, complete@, rem@);
    let mut i: usize = 0;
    while i < stack.len()
        invariant
            i <= stack@.len(),
            ids_mapped(map@, matches@),
            all_below(stack@, matches@.len() as int),
            all_below(rem@, matches@.len() as int),
            p2_stack(map@, matches@, end, stack@, i as int, complete@, rem@) == target,
            p2_stack_ok(map@, matches@, end, stack@, i as int),
        decreases stack@.len() - i,
    {
        let midx = stack[i];
        assert(stack@[i as int] < matches@.len());
        let (_, ft, part) = lookup_tag(map, matches[midx].id);
        if ft.pairing == PairingStrategy::PairNext {
            if !ft.requires_footer {
                let l: u64 = match ft.max_len {
                    Some(l) => l,
                    None => {
                        return ;
                    },
                };
                complete.push(MatchPair::new_sized(ft, &matches[midx], l));
            }
            rem.push(midx);
            i += 1;
        } else if part == MatchPart::Header {
            proof {
                lemma_p2_scan_bounds(map@, matches@, stack@, i as int, stack@.len() as int, ft.max_len);
            }
            let (pj, left) = scan_after(map, matches, stack, i, ft.max_len);
            if left || end {
                match pj {
                    Some(j) => {
                        let sj = stack[j];
                        assert(stack@[j as int] < matches@.len());
                        complete.push(MatchPair::new(ft, &matches[midx], &matches[sj]));
                        rem.push(midx);
                        rem.push(sj);
                        let ghost s0 = stack@;
                        stack.remove(j);
                        stack.remove(i);
                        proof {
                            assert(stack@ =~= s0.remove(j as int).remove(i as int));
                            assert forall|q: int| 0 <= q < stack@.len() implies #[trigger] stack@[q]
                                < matches@.len() by {
                                if q < i {
                                    assert(stack@[q] == s0[q]);
                                } else if q + 1 < j {
                                    assert(stack@[q] == s0[q + 1]);
                                } else {
                                    assert(stack@[q] == s0[q + 2]);
                                }
                            }
                        }
                    },
                    None => {
                        if end && !ft.requires_footer {
                            match ft.max_len {
                                Some(l) => {
                                    complete.push(MatchPair::new_sized(ft, &matches[midx], l));
                                },
                                None => {},
                            }
                            rem.push(midx);
                            i += 1;
                        } else if ft.requires_footer && left {
                            rem.push(midx);
                            let ghost s0 = stack@;
                            stack.remove(i);
                            proof {
                                assert forall|q: int| 0 <= q < stack@.len() implies #[trigger] stack@[q]
                                    < matches@.len() by {
                                    if q < i {
                                        assert(stack@[q] == s0[q]);
                                    } else {
                                        assert(stack@[q] == s0[q + 1]);
                                    }
                                }
                            }
                        } else {
                            i += 1;
                        }
                    },
                }
            } else {
                i += 1;
            }
        } else {
            if !has_header_before(map, matches, stack, i) {
                rem.push(midx);
                let ghost s0 = stack@;
                stack.remove(i);
                proof {
                    assert forall|q: int| 0 <= q < stack@.len() implies #[trigger] stack@[q]
                        < matches@.len() by {
                        if q < i {
                            assert(stack@[q] == s0[q]);
                        } else {
                            assert(stack@[q] == s0[q + 1]);
                        }
                    }
                }
            } else {
                i += 1;
            }
        }
    }
}

proof fn lemma_p2_all_ok_each<'a>(
    m: Map<u64, (usize, &'a FileType, MatchPart)>,
    ms: Seq<Match>,
    end: bool,
    tr: Seq<(usize, Seq<usize>)>,
    n: int,
    t: int,
)
    requires
        p2_all_ok(m, ms, end, tr, n),
        0 <= t < n,
    ensures
        p2_stack_ok(m, ms, end, tr[t].1, 0),
    decreases n,
{
    if t < n - 1 {
        lemma_p2_all_ok_each(m, ms, end, tr, n - 1, t);
    }
}

/// Removes the matches whose indices are in `rem`, keeping the order of the others.
fn remove_indices(matches: &mut Vec<Match>, rem: &Vec<usize>)
    requires
        all_below(rem@, old(matches)@.len() as int),
    ensures
        final(matches)@ == keep(old(matches)@, rem@.to_set(), old(matches)@.len() as int),
{
    let n = matches.len();
    let mut mark: Vec<bool> = vec![false; n];
    let mut j: usize = 0;
    while j < rem.len()
        invariant
            j <= rem@.len(),
            mark@.len() == n,
            n == matches@.len(),
            all_below(rem@, n as int),
            forall|q: int| 0 <= q < n ==> #[trigger] mark@[q] == rem@.take(j as int).contains(
                q as usize,
            ),
        decreases rem@.len() - j,
    {
        let r = rem[j];
        assert(rem@[j as int] < n);
        mark[r] = true;
        proof {
            assert(rem@.take(j + 1) =~= rem@.take(j as int).push(r));
            assert forall|q: int| 0 <= q < n implies #[trigger] mark@[q] == rem@.take(j + 1).contains(
                q as usize,
            ) by {
                if q as usize == r {
                    assert(rem@.take(j + 1)[j as int] == r);
                } else {
                    if rem@.take(j as int).contains(q as usize) {
                        let k = choose|k: int| 0 <= k < j && #[trigger] rem@.take(j as int)[k] == q as usize;
                        assert(rem@.take(j + 1)[k] == q as usize);
                    }
                    if rem@.take(j + 1).contains(q as usize) {
                        let k = choose|k: int| 0 <= k < j + 1 && #[trigger] rem@.take(j + 1)[k] == q as usize;
                        assert(k < j);
                        assert(rem@.take(j as int)[k] == q as usize);
                    }
                }
            }
        }
        j += 1;
    }
    assert(rem@.take(rem@.len() as int) =~= rem@);
    let mut kept: Vec<Match> = Vec::new();
    let mut i: usize = 0;
    while i < n
        invariant
            i <= n,
            n == matches@.len(),
            mark@.len() == n,
            forall|q: int| 0 <= q < n ==> #[trigger] mark@[q] == rem@.contains(q as usize),
            kept@ == keep(matches@, rem@.to_set(), i as int),
        decreases n - i,
    {
        if !mark[i] {
            kept.push(matches[i]);
        }
        i += 1;
    }
    *matches = kept;
}

/// Pairs the matches (sorted by start index) of configured file types, using the map from
/// [`preprocess_config`]: a header of a type without footers is completed with the type's
/// maximum length; a header of a `PairNext` type with the next footer of its type, kept if
/// within the maximum length; a header of a `PairLast` type with the last footer of its type
/// within the maximum length, once a later match of its type is out of range or the matches have
/// ended. Headers of types that need no footer are completed with the maximum length at the end.
/// Matches that were paired or dropped are removed from `matches`; the others stay, in order,
/// for a later call with more matches.
pub fn pair<'a>(
    matches: &mut Vec<Match>,
    id_ftype_map: &HashMap<u64, (usize, &'a FileType, MatchPart)>,
    end_of_matches: bool,
) -> (r: Vec<MatchPair<'a>>)
    requires
        pair_ok(id_ftype_map@, old(matches)@, end_of_matches),
    ensures
        r@ == spec_pair_all(id_ftype_map@, old(matches)@, end_of_matches).0,
        final(matches)@ == keep(
            old(matches)@,
            spec_pair_all(id_ftype_map@, old(matches)@, end_of_matches).1.to_set(),
            old(matches)@.len() as int,
        ),
{
    let ghost m = id_ftype_map@;
    let ghost ms = matches@;
    let mut complete: Vec<MatchPair<'a>> = Vec::new();
    let mut tracker: Vec<(usize, Vec<usize>)> = Vec::new();
    let mut rem: Vec<usize> = Vec::new();
    assert(tr_view(tracker@) =~= Seq::empty());
    let mut k: usize = 0;
    while k < matches.len()
        invariant
            matches@ == ms,
            id_ftype_map@ == m,
            k <= ms.len(),
            ids_mapped(m, ms),
            tracked_below(tr_view(tracker@), k as int),
            all_below(rem@, k as int),
            p1_from(m, ms, (complete@, tr_view(tracker@), rem@), k as int) == p1_result(m, ms),
            p1_ok_from(m, ms, (complete@, tr_view(tracker@), rem@), k as int),
            p2_all_ok(m, ms, end_of_matches, p1_result(m, ms).1, p1_result(m, ms).1.len() as int),
        decreases ms.len() - k,
    {
        first_pass_step(id_ftype_map, matches, k, &mut complete, &mut tracker, &mut rem);
        k += 1;
    }
    let ghost tr1 = tr_view(tracker@);
    let ghost c1 = complete@;
    let ghost r1 = rem@;
    assert((c1, tr1, r1) == p1_result(m, ms));
    let total = tracker.len();
    let mut t: usize = 0;
    while t < total
        invariant
            matches@ == ms,
            id_ftype_map@ == m,
            ids_mapped(m, ms),
            total == tr1.len(),
            t <= total,
            tracker@.len() == total - t,
            forall|q: int| 0 <= q < tracker@.len() ==> #[trigger] tr_view(tracker@)[q] == tr1[q + t],
            tracked_below(tr1, ms.len() as int),
            all_below(rem@, ms.len() as int),
            (complete@, rem@) == p2_all(m, ms, end_of_matches, tr1, t as int, c1, r1),
            p2_all_ok(m, ms, end_of_matches, tr1, tr1.len() as int),
        decreases total - t,
    {
        proof {
            lemma_p2_all_ok_each(m, ms, end_of_matches, tr1, tr1.len() as int, t as int);
            assert(tr_view(tracker@)[0] == tr1[t as int]);
            assert forall|q: int| 0 <= q < tr1[t as int].1.len() implies #[trigger] tr1[t as int].1[q]
                < ms.len() by {
                assert(tr1[t as int].1[q] < ms.len());
            }
        }
        let ghost tv = tracker@;
        let (_, mut stack) = tracker.remove(0);
        pair_remaining(id_ftype_map, matches, end_of_matches, &mut stack, &mut complete, &mut rem);
        proof {
            assert forall|q: int| 0 <= q < tracker@.len() implies #[trigger] tr_view(tracker@)[q] == tr1[q + t + 1] by {
                assert(tracker@[q] == tv[q + 1]);
                assert(tr_view(tv)[q + 1] == tr1[q + 1 + t]);
            }
        }
        t += 1;
    }
    remove_indices(matches, &rem);
    complete
}

/// The span a file type allows a potential file: its maximum length, or any span if it has
/// none.
pub open spec fn len_limit(ft: &FileType) -> int {
    match ft.max_len {
        Some(l) => l as int,
        None => u64::MAX as int,
    }
}

/// The pair starts where one of the header matches starts, and ends no earlier than it starts
/// and no further from its start than its file type allows: where one of the footer matches
/// ends, after the start, or exactly the type's maximum length after the start. The header and
/// footer matches it is made of are of its file type and have their indices in `rem`.
pub open spec fn pair_sound<'a>(
    m: Map<u64, (usize, &'a FileType, MatchPart)>,
    ms: Seq<Match>,
    rem: Seq<usize>,
    p: MatchPair<'a>,
) -> bool {
    &&& exists|i: int|
        0 <= i < ms.len() && (#[trigger] tag(m, ms, i)).2 == MatchPart::Header && tag(m, ms, i).1
            == p.file_type && ms[i].start_idx == p.start_idx && rem.contains(i as usize)
    &&& p.start_idx <= p.end_idx
    &&& p.end_idx - p.start_idx <= len_limit(p.file_type)
    &&& (exists|f: int|
        0 <= f < ms.len() && (#[trigger] tag(m, ms, f)).2 == MatchPart::Footer && tag(m, ms, f).1
            == p.file_type && ms[f].end_idx == p.end_idx && p.start_idx < ms[f].end_idx && rem.contains(
            f as usize,
        )) || (
    p.file_type.max_len matches Some(l) && p.end_idx == p.start_idx + l)
}

/// Every pair is sound, made of matches whose indices are in `rem`.
pub open spec fn all_sound<'a>(
    m: Map<u64, (usize, &'a FileType, MatchPart)>,
    ms: Seq<Match>,
    c: Seq<MatchPair<'a>>,
    rem: Seq<usize>,
) -> bool {
    forall|k: int| 0 <= k < c.len() ==> pair_sound(m, ms, rem, #[trigger] c[k])
}

proof fn lemma_sound_push<'a>(
    m: Map<u64, (usize, &'a FileType, MatchPart)>,
    ms: Seq<Match>,
    c: Seq<MatchPair<'a>>,
    p: MatchPair<'a>,
    rem: Seq<usize>,
)
    requires
        all_sound(m, ms, c, rem),
        pair_sound(m, ms, rem, p),
    ensures
        all_sound(m, ms, c.push(p), rem),
{
    assert forall|k: int| 0 <= k < c.push(p).len() implies pair_sound(m, ms, rem, #[trigger] c.push(p)[k]) by {
        if k < c.len() {
            assert(c.push(p)[k] == c[k]);
        }
    }
}

/// Consuming one more match keeps every pair sound.
proof fn lemma_sound_grow<'a>(
    m: Map<u64, (usize, &'a FileType, MatchPart)>,
    ms: Seq<Match>,
    c: Seq<MatchPair<'a>>,
    rem: Seq<usize>,
    x: usize,
)
    requires
        all_sound(m, ms, c, rem),
    ensures
        all_sound(m, ms, c, rem.push(x)),
        rem.push(x).contains(x),
{
    let r2 = rem.push(x);
    assert(r2[rem.len() as int] == x);
    assert forall|v: usize| rem.contains(v) implies r2.contains(v) by {
        let j = choose|j: int| 0 <= j < rem.len() && rem[j] == v;
        assert(r2[j] == v);
    }
    assert forall|k: int| 0 <= k < c.len() implies pair_sound(m, ms, r2, #[trigger] c[k]) by {
        let p = c[k];
        assert(pair_sound(m, ms, rem, p));
        let i = choose|i: int|
            0 <= i < ms.len() && (#[trigger] tag(m, ms, i)).2 == MatchPart::Header && tag(m, ms, i).1
                == p.file_type && ms[i].start_idx == p.start_idx && rem.contains(i as usize);
        assert(r2.contains(i as usize));
        if exists|f: int|
            0 <= f < ms.len() && (#[trigger] tag(m, ms, f)).2 == MatchPart::Footer && tag(m, ms, f).1
                == p.file_type && ms[f].end_idx == p.end_idx && p.start_idx < ms[f].end_idx
                && rem.contains(f as usize) {
            let f = choose|f: int|
                0 <= f < ms.len() && (#[trigger] tag(m, ms, f)).2 == MatchPart::Footer && tag(m, ms, f).1
                    == p.file_type && ms[f].end_idx == p.end_idx && p.start_idx < ms[f].end_idx
                    && rem.contains(f as usize);
            assert(r2.contains(f as usize));
        }
    }
}

proof fn lemma_sized_sound<'a>(
    m: Map<u64, (usize, &'a FileType, MatchPart)>,
    ms: Seq<Match>,
    ft: &'a FileType,
    i: int,
    rem: Seq<usize>,
)
    requires
        0 <= i < ms.len(),
        tag(m, ms, i).2 == MatchPart::Header,
        tag(m, ms, i).1 == ft,
        ft.max_len is Some,
        ms[i].start_idx + ft.max_len->0 <= u64::MAX,
        rem.contains(i as usize),
    ensures
        pair_sound(m, ms, rem, spec_sized(ft, ms[i], ft.max_len->0)),
{
}

proof fn lemma_footer_pair_sound<'a>(
    m: Map<u64, (usize, &'a FileType, MatchPart)>,
    ms: Seq<Match>,
    ft: &'a FileType,
    h: int,
    f: int,
    rem: Seq<usize>,
)
    requires
        0 <= h < ms.len(),
        0 <= f < ms.len(),
        tag(m, ms, h).2 == MatchPart::Header,
        tag(m, ms, f).2 == MatchPart::Footer,
        tag(m, ms, h).1 == ft,
        tag(m, ms, f).1 == ft,
        in_range_defined(ms[h], ms[f]),
        spec_in_range(ms[h], ms[f], ft.max_len),
        rem.contains(h as usize),
        rem.contains(f as usize),
    ensures
        pair_sound(m, ms, rem, spec_pair(ft, ms[h], ms[f])),
{
}

proof fn lemma_last_header_pos<'a>(
    m: Map<u64, (usize, &'a FileType, MatchPart)>,
    ms: Seq<Match>,
    stack: Seq<usize>,
    n: int,
)
    ensures
        last_header_pos(m, ms, stack, n) matches Some(hp) ==> 0 <= hp < n && tag(
            m,
            ms,
            stack[hp] as int,
        ).2 == MatchPart::Header,
        forall|q: int|
            (match last_header_pos(m, ms, stack, n) {
                Some(hp) => hp < q < n,
                None => 0 <= q < n,
            }) ==> tag(m, ms, #[trigger] stack[q] as int).2 != MatchPart::Header,
    decreases n,
{
    if n > 0 && tag(m, ms, stack[n - 1] as int).2 != MatchPart::Header {
        lemma_last_header_pos(m, ms, stack, n - 1);
    }
}

proof fn lemma_below_remove(s: Seq<usize>, j: int, n: int)
    requires
        all_below(s, n),
        0 <= j < s.len(),
    ensures
        all_below(s.remove(j), n),
{
    assert forall|q: int| 0 <= q < s.remove(j).len() implies #[trigger] s.remove(j)[q] < n by {
        if q < j {
            assert(s.remove(j)[q] == s[q]);
        } else {
            assert(s.remove(j)[q] == s[q + 1]);
        }
    }
}

/// Two mapped matches with the same file type index have the same file type.
proof fn lemma_same_type<'a>(m: Map<u64, (usize, &'a FileType, MatchPart)>, ms: Seq<Match>, a: int, b: int)
    requires
        ids_mapped(m, ms),
        types_consistent(m),
        0 <= a < ms.len(),
        0 <= b < ms.len(),
        tag(m, ms, a).0 == tag(m, ms, b).0,
    ensures
        tag(m, ms, a).1 == tag(m, ms, b).1,
{
    assert(m.contains_key(ms[a].id) && m.contains_key(ms[b].id));
}

proof fn lemma_stack_edit<'a>(
    m: Map<u64, (usize, &'a FileType, MatchPart)>,
    ms: Seq<Match>,
    s: Seq<usize>,
    fi: usize,
    x: usize,
    j: int,
)
    requires
        stack_typed(m, ms, s, fi),
    ensures
        tag(m, ms, x as int).0 == fi ==> stack_typed(m, ms, s.push(x), fi),
        s.len() > 0 ==> stack_typed(m, ms, s.drop_last(), fi),
        0 <= j < s.len() ==> stack_typed(m, ms, s.remove(j), fi),
        stack_typed(m, ms, seq![x], fi) <== tag(m, ms, x as int).0 == fi,
{
    if tag(m, ms, x as int).0 == fi {
        assert forall|q: int| 0 <= q < s.push(x).len() implies (#[trigger] tag(m, ms, s.push(x)[q] as int)).0 == fi by {
            if q < s.len() {
                assert(s.push(x)[q] == s[q]);
            }
        }
        assert(seq![x][0] == x);
    }
    if s.len() > 0 {
        assert forall|q: int| 0 <= q < s.drop_last().len() implies (#[trigger] tag(m, ms, s.drop_last()[q] as int)).0 == fi by {
            assert(s.drop_last()[q] == s[q]);
        }
    }
    if 0 <= j < s.len() {
        assert forall|q: int| 0 <= q < s.remove(j).len() implies (#[trigger] tag(m, ms, s.remove(j)[q] as int)).0 == fi by {
            if q < j {
                assert(s.remove(j)[q] == s[q]);
            } else {
                assert(s.remove(j)[q] == s[q + 1]);
            }
        }
    }
}

proof fn lemma_typed_edit<'a>(
    m: Map<u64, (usize, &'a FileType, MatchPart)>,
    ms: Seq<Match>,
    tr: Seq<(usize, Seq<usize>)>,
    p: int,
    fi: usize,
    s2: Seq<usize>,
)
    requires
        tracked_typed(m, ms, tr),
        stack_typed(m, ms, s2, fi),
    ensures
        0 <= p < tr.len() && tr[p].0 == fi ==> tracked_typed(m, ms, tr.update(p, (fi, s2))),
        tracked_typed(m, ms, tr.push((fi, s2))),
{
    if 0 <= p < tr.len() && tr[p].0 == fi {
        assert forall|a: int| 0 <= a < tr.update(p, (fi, s2)).len() implies #[trigger] stack_typed(
            m,
            ms,
            tr.update(p, (fi, s2))[a].1,
            tr.update(p, (fi, s2))[a].0,
        ) by {
            if a != p {
                assert(tr.update(p, (fi, s2))[a] == tr[a]);
            }
        }
    }
    assert forall|a: int| 0 <= a < tr.push((fi, s2)).len() implies #[trigger] stack_typed(
        m,
        ms,
        tr.push((fi, s2))[a].1,
        tr.push((fi, s2))[a].0,
    ) by {
        if a < tr.len() {
            assert(tr.push((fi, s2))[a] == tr[a]);
        }
    }
}

proof fn lemma_p1_step_sound<'a>(
    m: Map<u64, (usize, &'a FileType, MatchPart)>,
    ms: Seq<Match>,
    st: PairState<'a>,
    idx: int,
)
    requires
        0 <= idx < ms.len(),
        ms.len() <= usize::MAX,
        ids_mapped(m, ms),
        types_consistent(m),
        all_sound(m, ms, st.0, st.2),
        tracked_below(st.1, ms.len() as int),
        tracked_typed(m, ms, st.1),
        p1_step_ok(m, ms, st, idx),
    ensures
        all_sound(m, ms, p1_step(m, ms, st, idx).0, p1_step(m, ms, st, idx).2),
        tracked_below(p1_step(m, ms, st, idx).1, ms.len() as int),
        tracked_typed(m, ms, p1_step(m, ms, st, idx).1),
{
    let (complete, tr, rem) = st;
    let n = ms.len() as int;
    let mm = ms[idx];
    let (fi, ft, part) = m[mm.id];
    let r = p1_step(m, ms, st, idx);
    assert(tag(m, ms, idx) == m[mm.id]);
    if let Some(p) = tr_pos(tr, fi) {
        assert(is_first_key(tr, fi, p));
    }
    if ft.footers@.len() != 0 && part == MatchPart::Header {
        match tr_pos(tr, fi) {
            Some(p) => {
                let s2 = tr[p].1.push(idx as usize);
                assert(stack_typed(m, ms, tr[p].1, tr[p].0));
                lemma_stack_edit(m, ms, tr[p].1, fi, idx as usize, 0);
                lemma_typed_edit(m, ms, tr, p, fi, s2);
                assert forall|a: int, b: int| 0 <= a < r.1.len() && 0 <= b < r.1[a].1.len() implies #[trigger] r.1[a].1[b] < n by {
                    if a == p && b < tr[p].1.len() {
                        assert(s2[b] == tr[p].1[b]);
                    }
                }
            },
            None => {
                lemma_stack_edit(m, ms, Seq::<usize>::empty(), fi, idx as usize, 0);
                lemma_typed_edit(m, ms, tr, 0, fi, seq![idx as usize]);
                assert forall|a: int, b: int| 0 <= a < r.1.len() && 0 <= b < r.1[a].1.len() implies #[trigger] r.1[a].1[b] < n by {
                    if a < tr.len() {
                        assert(r.1[a] == tr[a]);
                    }
                }
            },
        }
    } else if part == MatchPart::Header {
        assert(tag(m, ms, idx).2 == MatchPart::Header);
        lemma_sound_grow(m, ms, complete, rem, idx as usize);
        lemma_sized_sound(m, ms, ft, idx, rem.push(idx as usize));
        lemma_sound_push(m, ms, complete, spec_sized(ft, mm, ft.max_len->0), rem.push(idx as usize));
    } else if ft.pairing == PairingStrategy::PairNext {
        match tr_pos(tr, fi) {
            Some(p) => {
                let stack = tr[p].1;
                if stack.len() > 0 {
                    let mi = stack.last();
                    assert(stack[stack.len() - 1] < n);
                    assert(stack_typed(m, ms, tr[p].1, tr[p].0));
                    assert(tag(m, ms, stack[stack.len() - 1] as int).0 == fi);
                    lemma_same_type(m, ms, mi as int, idx);
                    lemma_stack_edit(m, ms, stack, fi, 0, 0);
                    lemma_typed_edit(m, ms, tr, p, fi, stack.drop_last());
                    let rem2 = rem.push(mi).push(idx as usize);
                    lemma_sound_grow(m, ms, complete, rem, mi);
                    lemma_sound_grow(m, ms, complete, rem.push(mi), idx as usize);
                    assert(rem2.contains(mi)) by {
                        assert(rem2[rem.len() as int] == mi);
                    }
                    if spec_in_range(ms[mi as int], mm, ft.max_len) {
                        lemma_footer_pair_sound(m, ms, ft, mi as int, idx, rem2);
                        lemma_sound_push(m, ms, complete, spec_pair(ft, ms[mi as int], mm), rem2);
                    }
                    assert forall|a: int, b: int| 0 <= a < r.1.len() && 0 <= b < r.1[a].1.len() implies #[trigger] r.1[a].1[b] < n by {
                        if a == p {
                            assert(stack.drop_last()[b] == stack[b]);
                        }
                    }
                } else {
                    lemma_sound_grow(m, ms, complete, rem, idx as usize);
                }
            },
            None => {
                lemma_sound_grow(m, ms, complete, rem, idx as usize);
            },
        }
    } else {
        match tr_pos(tr, fi) {
            Some(p) => {
                let stack = tr[p].1;
                lemma_last_header_pos(m, ms, stack, stack.len() as int);
                match last_header_pos(m, ms, stack, stack.len() as int) {
                    Some(hp) => {
                        let hmi = stack[hp];
                        let mi = stack.last();
                        assert(stack[stack.len() - 1] < n);
                        assert(hmi < n);
                        assert(stack_typed(m, ms, tr[p].1, tr[p].0));
                        assert(tag(m, ms, stack[stack.len() - 1] as int).0 == fi);
                        assert(tag(m, ms, stack[hp] as int).0 == fi);
                        lemma_same_type(m, ms, mi as int, idx);
                        lemma_same_type(m, ms, hmi as int, idx);
                        lemma_stack_edit(m, ms, stack, fi, idx as usize, 0);
                        lemma_typed_edit(m, ms, tr, p, fi, stack.push(idx as usize));
                        if stack.len() > 0 {
                            lemma_stack_edit(m, ms, stack.drop_last(), fi, idx as usize, hp);
                            if hp < stack.drop_last().len() {
                                lemma_typed_edit(m, ms, tr, p, fi, stack.drop_last().remove(hp));
                            }
                        }
                        if mi != hmi && spec_in_range(ms[hmi as int], ms[mi as int], ft.max_len)
                            && !spec_in_range(ms[hmi as int], mm, ft.max_len) {
                            let rem2 = rem.push(mi).push(hmi);
                            lemma_sound_grow(m, ms, complete, rem, mi);
                            lemma_sound_grow(m, ms, complete, rem.push(mi), hmi);
                            assert(rem2.contains(mi)) by {
                                assert(rem2[rem.len() as int] == mi);
                            }
                            lemma_footer_pair_sound(m, ms, ft, hmi as int, mi as int, rem2);
                            lemma_sound_push(m, ms, complete, spec_pair(ft, ms[hmi as int], ms[mi as int]), rem2);
                            assert(hp < stack.len() - 1);
                            assert(all_below(stack.drop_last(), n)) by {
                                assert forall|q: int| 0 <= q < stack.drop_last().len() implies #[trigger] stack.drop_last()[q] < n by {
                                    assert(stack.drop_last()[q] == stack[q]);
                                }
                            }
                            lemma_below_remove(stack.drop_last(), hp, n);
                            assert forall|a: int, b: int| 0 <= a < r.1.len() && 0 <= b < r.1[a].1.len() implies #[trigger] r.1[a].1[b] < n by {
                                if a == p {
                                    assert(r.1[a].1 == stack.drop_last().remove(hp));
                                }
                            }
                        } else {
                            let s2 = stack.push(idx as usize);
                            assert forall|a: int, b: int| 0 <= a < r.1.len() && 0 <= b < r.1[a].1.len() implies #[trigger] r.1[a].1[b] < n by {
                                if a == p && b < stack.len() {
                                    assert(s2[b] == stack[b]);
                                }
                            }
                        }
                    },
                    None => {
                        let s2 = stack.push(idx as usize);
                        assert(stack_typed(m, ms, tr[p].1, tr[p].0));
                        lemma_stack_edit(m, ms, stack, fi, idx as usize, 0);
                        lemma_typed_edit(m, ms, tr, p, fi, s2);
                        assert forall|a: int, b: int| 0 <= a < r.1.len() && 0 <= b < r.1[a].1.len() implies #[trigger] r.1[a].1[b] < n by {
                            if a == p && b < stack.len() {
                                assert(s2[b] == stack[b]);
                            }
                        }
                    },
                }
            },
            None => {},
        }
    }
}

proof fn lemma_p1_from_sound<'a>(
    m: Map<u64, (usize, &'a FileType, MatchPart)>,
    ms: Seq<Match>,
    st: PairState<'a>,
    idx: int,
)
    requires
        0 <= idx,
        ms.len() <= usize::MAX,
        ids_mapped(m, ms),
        types_consistent(m),
        all_sound(m, ms, st.0, st.2),
        tracked_below(st.1, ms.len() as int),
        tracked_typed(m, ms, st.1),
        p1_ok_from(m, ms, st, idx),
    ensures
        all_sound(m, ms, p1_from(m, ms, st, idx).0, p1_from(m, ms, st, idx).2),
        tracked_below(p1_from(m, ms, st, idx).1, ms.len() as int),
        tracked_typed(m, ms, p1_from(m, ms, st, idx).1),
    decreases ms.len() - idx,
{
    if idx < ms.len() {
        lemma_p1_step_sound(m, ms, st, idx);
        lemma_p1_from_sound(m, ms, p1_step(m, ms, st, idx), idx + 1);
    }
}

proof fn lemma_p2_scan_found<'a>(
    m: Map<u64, (usize, &'a FileType, MatchPart)>,
    ms: Seq<Match>,
    stack: Seq<usize>,
    i: int,
    n: int,
    max_len: Option<u64>,
)
    ensures
        p2_scan(m, ms, stack, i, n, max_len).0 matches Some(j) ==> spec_in_range(
            ms[stack[i] as int],
            ms[stack[j] as int],
            max_len,
        ) && tag(m, ms, stack[j] as int).2 == MatchPart::Footer,
    decreases n - i,
{
    if n > i + 1 {
        lemma_p2_scan_found(m, ms, stack, i, n - 1, max_len);
    }
}

proof fn lemma_uniform_remove<'a>(m: Map<u64, (usize, &'a FileType, MatchPart)>, ms: Seq<Match>, s: Seq<usize>, j: int)
    requires
        stack_uniform(m, ms, s),
        0 <= j < s.len(),
    ensures
        stack_uniform(m, ms, s.remove(j)),
{
    assert forall|q1: int, q2: int|
        0 <= q1 < s.remove(j).len() && 0 <= q2 < s.remove(j).len() implies (#[trigger] tag(
            m,
            ms,
            s.remove(j)[q1] as int,
        )).0 == (#[trigger] tag(m, ms, s.remove(j)[q2] as int)).0 by {
        let a1 = if q1 < j { q1 } else { q1 + 1 };
        let a2 = if q2 < j { q2 } else { q2 + 1 };
        assert(s.remove(j)[q1] == s[a1]);
        assert(s.remove(j)[q2] == s[a2]);
    }
}

proof fn lemma_p2_stack_sound<'a>(
    m: Map<u64, (usize, &'a FileType, MatchPart)>,
    ms: Seq<Match>,
    end: bool,
    stack: Seq<usize>,
    i: int,
    complete: Seq<MatchPair<'a>>,
    rem: Seq<usize>,
)
    requires
        0 <= i,
        ids_mapped(m, ms),
        types_consistent(m),
        stack_uniform(m, ms, stack),
        all_sound(m, ms, complete, rem),
        all_below(stack, ms.len() as int),
        p2_stack_ok(m, ms, end, stack, i),
    ensures
        all_sound(m, ms, p2_stack(m, ms, end, stack, i, complete, rem).0, p2_stack(m, ms, end, stack, i, complete, rem).1),
    decreases stack.len() - i,
{
    if i < stack.len() {
        let n = ms.len() as int;
        let midx = stack[i];
        assert(midx < n);
        let (_, ft, part) = tag(m, ms, midx as int);
        if ft.pairing == PairingStrategy::PairNext {
            lemma_sound_grow(m, ms, complete, rem, midx);
            if !ft.requires_footer {
                lemma_sized_sound(m, ms, ft, midx as int, rem.push(midx));
                lemma_sound_push(m, ms, complete, spec_sized(ft, ms[midx as int], ft.max_len->0), rem.push(midx));
                lemma_p2_stack_sound(
                    m,
                    ms,
                    end,
                    stack,
                    i + 1,
                    complete.push(spec_sized(ft, ms[midx as int], ft.max_len->0)),
                    rem.push(midx),
                );
            } else {
                lemma_p2_stack_sound(m, ms, end, stack, i + 1, complete, rem.push(midx));
            }
        } else if part == MatchPart::Header {
            lemma_p2_scan_bounds(m, ms, stack, i, stack.len() as int, ft.max_len);
            lemma_p2_scan_found(m, ms, stack, i, stack.len() as int, ft.max_len);
            let (pj, left) = p2_scan(m, ms, stack, i, stack.len() as int, ft.max_len);
            if left || end {
                match pj {
                    Some(j) => {
                        assert(in_range_defined(ms[stack[i] as int], ms[stack[j] as int]));
                        assert(stack[j] < n);
                        assert(tag(m, ms, stack[j] as int).0 == tag(m, ms, stack[i] as int).0);
                        lemma_same_type(m, ms, stack[j] as int, midx as int);
                        let pr = spec_pair(ft, ms[midx as int], ms[stack[j] as int]);
                        let rem2 = rem.push(midx).push(stack[j]);
                        lemma_sound_grow(m, ms, complete, rem, midx);
                        lemma_sound_grow(m, ms, complete, rem.push(midx), stack[j]);
                        assert(rem2.contains(midx)) by {
                            assert(rem2[rem.len() as int] == midx);
                        }
                        lemma_footer_pair_sound(m, ms, ft, midx as int, stack[j] as int, rem2);
                        lemma_sound_push(m, ms, complete, pr, rem2);
                        lemma_below_remove(stack, j, n);
                        lemma_below_remove(stack.remove(j), i, n);
                        lemma_uniform_remove(m, ms, stack, j);
                        assert(i < j);
                        assert(stack.remove(j)[i] == stack[i]);
                        lemma_uniform_remove(m, ms, stack.remove(j), i);
                        lemma_p2_stack_sound(
                            m,
                            ms,
                            end,
                            stack.remove(j).remove(i),
                            i,
                            complete.push(pr),
                            rem.push(midx).push(stack[j]),
                        );
                    },
                    None => if end && !ft.requires_footer {
                        match ft.max_len {
                            Some(l) => {
                                lemma_sound_grow(m, ms, complete, rem, midx);
                                lemma_sized_sound(m, ms, ft, midx as int, rem.push(midx));
                                lemma_sound_push(m, ms, complete, spec_sized(ft, ms[midx as int], l), rem.push(midx));
                                lemma_p2_stack_sound(
                                    m,
                                    ms,
                                    end,
                                    stack,
                                    i + 1,
                                    complete.push(spec_sized(ft, ms[midx as int], l)),
                                    rem.push(midx),
                                );
                            },
                            None => {
                                lemma_sound_grow(m, ms, complete, rem, midx);
                                lemma_p2_stack_sound(m, ms, end, stack, i + 1, complete, rem.push(midx));
                            },
                        }
                    } else if ft.requires_footer && left {
                        lemma_sound_grow(m, ms, complete, rem, midx);
                        lemma_below_remove(stack, i, n);
                        lemma_uniform_remove(m, ms, stack, i);
                        lemma_p2_stack_sound(m, ms, end, stack.remove(i), i, complete, rem.push(midx));
                    } else {
                        lemma_p2_stack_sound(m, ms, end, stack, i + 1, complete, rem);
                    },
                }
            } else {
                lemma_p2_stack_sound(m, ms, end, stack, i + 1, complete, rem);
            }
        } else {
            if !header_before(m, ms, stack, i) {
                lemma_sound_grow(m, ms, complete, rem, midx);
                lemma_below_remove(stack, i, n);
                lemma_uniform_remove(m, ms, stack, i);
                lemma_p2_stack_sound(m, ms, end, stack.remove(i), i, complete, rem.push(midx));
            } else {
                lemma_p2_stack_sound(m, ms, end, stack, i + 1, complete, rem);
            }
        }
    }
}

proof fn lemma_p2_all_sound<'a>(
    m: Map<u64, (usize, &'a FileType, MatchPart)>,
    ms: Seq<Match>,
    end: bool,
    tr: Seq<(usize, Seq<usize>)>,
    n: int,
    complete: Seq<MatchPair<'a>>,
    rem: Seq<usize>,
)
    requires
        n <= tr.len(),
        ids_mapped(m, ms),
        types_consistent(m),
        tracked_typed(m, ms, tr),
        all_sound(m, ms, complete, rem),
        tracked_below(tr, ms.len() as int),
        p2_all_ok(m, ms, end, tr, n),
    ensures
        all_sound(m, ms, p2_all(m, ms, end, tr, n, complete, rem).0, p2_all(m, ms, end, tr, n, complete, rem).1),
    decreases n,
{
    if n > 0 {
        lemma_p2_all_sound(m, ms, end, tr, n - 1, complete, rem);
        let prev = p2_all(m, ms, end, tr, n - 1, complete, rem);
        assert(all_below(tr[n - 1].1, ms.len() as int));
        assert(stack_typed(m, ms, tr[n - 1].1, tr[n - 1].0));
        assert(stack_uniform(m, ms, tr[n - 1].1));
        lemma_p2_stack_sound(m, ms, end, tr[n - 1].1, 0, prev.0, prev.1);
    }
}

/// Where ids with the same file type index have the same file type (as `preprocess_config`
/// gives them): every potential file that pairing gives starts where one of the header matches
/// of its file type starts, and
/// ends either where one of the footer matches of its file type ends, after the start and
/// within the file type's maximum length (a footer out of that range is not paired), or, completed without a footer,
/// exactly that maximum length after the start; and that header match, and that footer match,
/// are among the matches pairing consumes (so `pair` removes them from the list it leaves).
pub proof fn lemma_pairs_start_at_headers<'a>(
    m: Map<u64, (usize, &'a FileType, MatchPart)>,
    ms: Seq<Match>,
    end: bool,
)
    requires
        pair_ok(m, ms, end),
        types_consistent(m),
        ms.len() <= usize::MAX,
    ensures
        all_sound(m, ms, spec_pair_all(m, ms, end).0, spec_pair_all(m, ms, end).1),
{
    let st0: PairState<'a> = (Seq::empty(), Seq::empty(), Seq::empty());
    lemma_p1_from_sound(m, ms, st0, 0);
    let st = p1_result(m, ms);
    lemma_p2_all_sound(m, ms, end, st.1, st.1.len() as int, st.0, st.2);
}

} // verus!
