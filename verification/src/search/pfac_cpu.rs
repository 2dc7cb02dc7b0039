use vstd::prelude::*;

use super::pfac_common::{spec_pfac_lookup, PfacTable, PfacTableElem};
use super::{fnv_step, match_id_hash_add, match_id_hash_init, Match, FNV_OFFSET_BASIS};

verus! {

/// A walk of the table that reached the end of the searched data: the state reached, the hash
/// of the values consumed, and the index at which the walk started.
#[derive(Clone, Copy, Debug, PartialEq)]
pub struct PfacState {
    pub state: u32,
    pub id: u64,
    pub start_idx: usize,
}

/// How a walk of the table ended: at the end of the data, in `state` with hash `id`; with a
/// match whose last byte is just before `end`; or without a match.
pub enum PfacWalk {
    Pending { state: u32, id: u64 },
    Found { id: u64, end: usize },
    Dead,
}

/// Walking the table over `data` from position `i`, in `state` with hash `id`: while the byte
/// has a transition, follow it and hash its value in; at the end of the data the walk is
/// pending; at a byte without transition the walk found a match if its state has no transitions
/// at all (an accepting state), and nothing otherwise.
pub open spec fn pfac_walk(
    rows: Seq<Seq<PfacTableElem>>,
    data: Seq<u8>,
    state: u32,
    id: u64,
    i: int,
) -> PfacWalk
    decreases data.len() - i,
{
    if i < 0 || i >= data.len() {
        PfacWalk::Pending { state, id }
    } else {
        match spec_pfac_lookup(rows, state, data[i]) {
            Some(e) => pfac_walk(rows, data, e.next_state, fnv_step(id, e.value as u64), i + 1),
            None => if state < rows.len() && rows[state as int].len() == 0 {
                PfacWalk::Found { id, end: i as usize }
            } else {
                PfacWalk::Dead
            },
        }
    }
}

/// Every state of a walk of a well-formed table is a state of the table.
proof fn lemma_walk_states(t: PfacTable, data: Seq<u8>, state: u32, id: u64, i: int)
    requires
        t.wf(),
        state < t.table@.len(),
        0 <= i <= data.len(),
        data.len() <= usize::MAX,
    ensures
        pfac_walk(t.rows(), data, state, id, i) matches PfacWalk::Pending { state: s, .. } ==> s
            < t.table@.len(),
        pfac_walk(t.rows(), data, state, id, i) matches PfacWalk::Found { end, .. } ==> i <= end
            < data.len(),
    decreases data.len() - i,
{
    if i < data.len() {
        let rows = t.rows();
        match spec_pfac_lookup(rows, state, data[i]) {
            Some(e) => {
                let j = choose|j: int| super::pfac_common::is_first_value(rows[state as int], data[i], j);
                assert(rows[state as int][j] == t.table@[state as int]@[j]);
                lemma_walk_states(t, data, e.next_state, fnv_step(id, e.value as u64), i + 1);
            },
            None => {},
        }
    }
}

/// Walks the table over `data` from position `start`, in `state` with hash `id` (see
/// `pfac_walk`).
pub fn walk_from(table: &PfacTable, data: &[u8], state: u32, id: u64, start: usize) -> (r: PfacWalk)
    requires
        table.wf(),
        state < table.table@.len(),
        start <= data@.len(),
    ensures
        r == pfac_walk(table.rows(), data@, state, id, start as int),
        r matches PfacWalk::Pending { state: s, .. } ==> s < table.table@.len(),
        r matches PfacWalk::Found { end, .. } ==> start <= end < data@.len(),
{
    let ghost rows = table.rows();
    let ghost goal = pfac_walk(rows, data@, state, id, start as int);
    let n = data.len();
    proof {
        lemma_walk_states(*table, data@, state, id, start as int);
    }
    let mut cur_state = state;
    let mut cur_id = id;
    let mut i = start;
    loop
        invariant
            table.wf(),
            rows == table.rows(),
            n == data@.len(),
            start <= i <= data@.len(),
            cur_state < table.table@.len(),
            goal == pfac_walk(rows, data@, state, id, start as int),
            goal == pfac_walk(rows, data@, cur_state, cur_id, i as int),
        decreases data@.len() - i,
    {
        if i >= n {
            return PfacWalk::Pending { state: cur_state, id: cur_id };
        }
        match table.lookup(cur_state, data[i]) {
            Some(elem) => {
                proof {
                    let j = choose|j: int|
                        super::pfac_common::is_first_value(rows[cur_state as int], data@[i as int], j);
                    assert(rows[cur_state as int][j] == table.table@[cur_state as int]@[j]);
                }
                cur_state = elem.next_state;
                cur_id = match_id_hash_add(cur_id, elem.value);
                i += 1;
            },
            None => {
                assert(rows[cur_state as int] == table.table@[cur_state as int]@);
                if table.table[cur_state as usize].len() == 0 {
                    return PfacWalk::Found { id: cur_id, end: i };
                } else {
                    return PfacWalk::Dead;
                }
            },
        }
    }
}

/// Continuing the walks that reached the end of the previous block, over `data` found at
/// position `off`, in order: a walk pending again is kept (with the start index it had); a walk
/// that found a match gives the match, from its start index to the byte before the one that
/// ended it; other walks are dropped.
pub open spec fn spec_continue(
    rows: Seq<Seq<PfacTableElem>>,
    data: Seq<u8>,
    off: int,
    states: Seq<PfacState>,
) -> (Seq<PfacState>, Seq<Match>)
    decreases states.len(),
{
    if states.len() == 0 {
        (Seq::empty(), Seq::empty())
    } else {
        let rest = spec_continue(rows, data, off, states.drop_last());
        let s = states.last();
        match pfac_walk(rows, data, s.state, s.id, 0) {
            PfacWalk::Pending { state, id } => (
                rest.0.push(PfacState { state, id, start_idx: s.start_idx }),
                rest.1,
            ),
            PfacWalk::Found { id, end } => (
                rest.0,
                rest.1.push(
                    Match { id, start_idx: s.start_idx as u64, end_idx: (end + off - 1) as u64 },
                ),
            ),
            PfacWalk::Dead => rest,
        }
    }
}

/// Starting a walk at each of the first `n` positions of `data` (found at position `off`), in
/// order, from the start state with the initial hash: a walk still pending at the end of the
/// data is kept, with its start index within the block; a walk that found a match gives the
/// match, from its start (in the image) to the byte before the one that ended it.
pub open spec fn spec_fresh(
    rows: Seq<Seq<PfacTableElem>>,
    data: Seq<u8>,
    off: int,
    n: int,
) -> (Seq<PfacState>, Seq<Match>)
    decreases n,
{
    if n <= 0 {
        (Seq::empty(), Seq::empty())
    } else {
        let rest = spec_fresh(rows, data, off, n - 1);
        let k = n - 1;
        match pfac_walk(rows, data, 0, FNV_OFFSET_BASIS, k) {
            PfacWalk::Pending { state, id } => (
                rest.0.push(PfacState { state, id, start_idx: k as usize }),
                rest.1,
            ),
            PfacWalk::Found { id, end } => (
                rest.0,
                rest.1.push(
                    Match { id, start_idx: (k + off) as u64, end_idx: (end + off - 1) as u64 },
                ),
            ),
            PfacWalk::Dead => rest,
        }
    }
}

/// The search of a block does not overflow: its positions fit in a `u64`, and no match ends
/// before the start of the image.
pub open spec fn search_ok(
    rows: Seq<Seq<PfacTableElem>>,
    data: Seq<u8>,
    off: int,
    states: Seq<PfacState>,
) -> bool {
    &&& off + data.len() <= u64::MAX
    &&& forall|j: int|
        0 <= j < states.len() ==> (#[trigger] pfac_walk(rows, data, states[j].state, states[j].id, 0)
            matches PfacWalk::Found { end, .. } ==> end + off >= 1)
    &&& forall|k: int|
        0 <= k < data.len() ==> (#[trigger] pfac_walk(rows, data, 0, FNV_OFFSET_BASIS, k)
            matches PfacWalk::Found { end, .. } ==> end + off >= 1)
}

/// A searcher that runs the byte state table from every position of the searched data,
/// keeping the walks that reach the end of a block so that a match may span consecutive
/// blocks.
pub struct PfacCpu {
    table: PfacTable,
    running_search_states: Vec<PfacState>,
}

impl PfacCpu {
    /// The table the searcher runs.
    pub closed spec fn spec_table(&self) -> PfacTable {
        self.table
    }

    /// The walks that reached the end of the last searched block.
    pub closed spec fn states(&self) -> Seq<PfacState> {
        self.running_search_states@
    }

    /// Every kept walk is in a state of the table.
    pub closed spec fn wf(&self) -> bool {
        &&& self.table.wf()
        &&& forall|j: int|
            0 <= j < self.running_search_states@.len() ==> #[trigger] self.running_search_states@[j].state
                < self.table.table@.len()
    }

    /// A searcher with no walks in progress.
    pub fn new(table: PfacTable) -> (s: Self)
        requires
            table.wf(),
        ensures
            s.wf(),
            s.spec_table() == table,
            s.states() == Seq::<PfacState>::empty(),
    {
        PfacCpu { table, running_search_states: Vec::new() }
    }

    /// Searches the block `data`, found at position `data_offset` of the image, continuing the
    /// walks kept from the previous block (call it on consecutive blocks in order, or discard
    /// the progress in between): the continued walks first (see `spec_continue`), then a walk
    /// from each position of the block (see `spec_fresh`). Returns the matches; the walks that
    /// reach the end of the block are kept.
    pub fn search_next(&mut self, data: &[u8], data_offset: u64) -> (matches: Vec<Match>)
        requires
            old(self).wf(),
            search_ok(old(self).spec_table().rows(), data@, data_offset as int, old(self).states()),
        ensures
            final(self).wf(),
            final(self).spec_table() == old(self).spec_table(),
            ({
                let rows = old(self).spec_table().rows();
                let c = spec_continue(rows, data@, data_offset as int, old(self).states());
                let f = spec_fresh(rows, data@, data_offset as int, data@.len() as int);
                &&& final(self).states() == c.0 + f.0
                &&& matches@ == c.1 + f.1
            }),
    {
        let ghost rows = self.table.rows();
        let ghost off = data_offset as int;
        let ghost prev_view = self.running_search_states@;
        let mut prev: Vec<PfacState> = Vec::new();
        std::mem::swap(&mut prev, &mut self.running_search_states);
        let mut next_states: Vec<PfacState> = Vec::new();
        let mut matches: Vec<Match> = Vec::new();
        let mut j: usize = 0;
        while j < prev.len()
            invariant
                self.table.wf(),
                rows == self.table.rows(),
                prev@ == prev_view,
                j <= prev@.len(),
                forall|q: int| 0 <= q < prev@.len() ==> #[trigger] prev@[q].state < self.table.table@.len(),
                search_ok(rows, data@, off, prev_view),
                off == data_offset,
                (next_states@, matches@) == spec_continue(rows, data@, off, prev@.take(j as int)),
                forall|q: int| 0 <= q < next_states@.len() ==> #[trigger] next_states@[q].state
                    < self.table.table@.len(),
            decreases prev@.len() - j,
        {
            let s = prev[j];
            assert(prev@.take(j + 1).drop_last() =~= prev@.take(j as int));
            assert(prev@.take(j + 1).last() == s);
            let w = walk_from(&self.table, data, s.state, s.id, 0);
            assert(pfac_walk(rows, data@, prev_view[j as int].state, prev_view[j as int].id, 0) == w);
            match w {
                PfacWalk::Pending { state, id } => {
                    next_states.push(PfacState { state, id, start_idx: s.start_idx });
                },
                PfacWalk::Found { id, end } => {
                    matches.push(
                        Match { id, start_idx: s.start_idx as u64, end_idx: end as u64 + data_offset - 1 },
                    );
                },
                PfacWalk::Dead => {},
            }
            j += 1;
        }
        assert(prev@.take(j as int) =~= prev_view);
        let ghost c = spec_continue(rows, data@, off, prev_view);
        let ghost n0 = next_states@.len();
        let ghost m0 = matches@.len();
        let mut k: usize = 0;
        while k < data.len()
            invariant
                self.table.wf(),
                rows == self.table.rows(),
                k <= data@.len(),
                search_ok(rows, data@, off, prev_view),
                off == data_offset,
                ({
                    let f = spec_fresh(rows, data@, off, k as int);
                    &&& next_states@ == c.0 + f.0
                    &&& matches@ == c.1 + f.1
                }),
                forall|q: int| 0 <= q < next_states@.len() ==> #[trigger] next_states@[q].state
                    < self.table.table@.len(),
            decreases data@.len() - k,
        {
            let ghost ns0 = next_states@;
            let ghost ms0 = matches@;
            let w = walk_from(&self.table, data, 0, match_id_hash_init(), k);
            assert(pfac_walk(rows, data@, 0, FNV_OFFSET_BASIS, k as int) == w);
            match w {
                PfacWalk::Pending { state, id } => {
                    next_states.push(PfacState { state, id, start_idx: k });
                    assert(next_states@ =~= c.0 + spec_fresh(rows, data@, off, k + 1).0);
                },
                PfacWalk::Found { id, end } => {
                    matches.push(
                        Match {
                            id,
                            start_idx: k as u64 + data_offset,
                            end_idx: end as u64 + data_offset - 1,
                        },
                    );
                    assert(matches@ =~= c.1 + spec_fresh(rows, data@, off, k + 1).1);
                },
                PfacWalk::Dead => {},
            }
            k += 1;
        }
        self.running_search_states = next_states;
        matches
    }

    /// Drops the walks in progress, so that a block that does not follow the last one can be
    /// searched.
    pub fn discard_progress(&mut self)
        requires
            old(self).wf(),
        ensures
            final(self).wf(),
            final(self).spec_table() == old(self).spec_table(),
            final(self).states() == Seq::<PfacState>::empty(),
    {
        self.running_search_states.clear();
    }
}

} // verus!
