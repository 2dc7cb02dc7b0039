use vstd::prelude::*;

use super::search_common::{spec_lookup, AcTable, AcTableElem};
use super::{fnv_step, match_id_hash_add_u16, match_id_hash_init, Match, FNV_OFFSET_BASIS};

verus! {

/// A partial match in progress: the current state, the hash of the values consumed so far and
/// the index at which the partial match started.
#[derive(Clone, Copy, Debug, PartialEq)]
pub struct AcState {
    pub state: u32,
    pub id: u64,
    pub start_idx: usize,
}

/// A searcher that runs the pattern automaton on the CPU, keeping the partial matches that are in
/// progress between calls so that a match may span consecutive searched blocks.
pub struct AcCpu {
    table: AcTable,
    states: Vec<AcState>,
}

/// Advances each partial match over the byte `b` at position `pos`, in order: a partial match
/// with no transition on `b` is dropped; one whose transition reaches an accepting state (a state
/// with an empty row) becomes a match ending at `pos`; the others continue.
pub open spec fn spec_advance(
    rows: Seq<Seq<AcTableElem>>,
    states: Seq<AcState>,
    b: u8,
    pos: int,
) -> (Seq<AcState>, Seq<Match>)
    decreases states.len(),
{
    if states.len() == 0 {
        (Seq::empty(), Seq::empty())
    } else {
        let rest = spec_advance(rows, states.drop_first(), b, pos);
        let s = states[0];
        match spec_lookup(rows, s.state, b) {
            Some(e) => {
                let id = fnv_step(s.id, e.value as u64);
                if rows[e.next_state as int].len() == 0 {
                    (rest.0, seq![Match { id, start_idx: s.start_idx as u64, end_idx: pos as u64 }] + rest.1)
                } else {
                    (seq![AcState { state: e.next_state, id, start_idx: s.start_idx }] + rest.0, rest.1)
                }
            },
            None => rest,
        }
    }
}

/// One byte of the search: advance the partial matches, then start a new partial match at `pos`
/// if the start state has a transition on `b`.
pub open spec fn spec_step(
    rows: Seq<Seq<AcTableElem>>,
    states: Seq<AcState>,
    b: u8,
    pos: int,
) -> (Seq<AcState>, Seq<Match>) {
    let adv = spec_advance(rows, states, b, pos);
    match spec_lookup(rows, 0, b) {
        Some(e) => (
            adv.0.push(
                AcState {
                    state: e.next_state,
                    id: fnv_step(FNV_OFFSET_BASIS, e.value as u64),
                    start_idx: pos as usize,
                },
            ),
            adv.1,
        ),
        None => adv,
    }
}

/// Runs the search over `data`, whose first byte is at position `base`: the partial matches
/// left afterwards, and the matches found, in the order found.
pub open spec fn spec_run(
    rows: Seq<Seq<AcTableElem>>,
    states: Seq<AcState>,
    data: Seq<u8>,
    base: int,
) -> (Seq<AcState>, Seq<Match>)
    decreases data.len(),
{
    if data.len() == 0 {
        (states, Seq::empty())
    } else {
        let first = spec_step(rows, states, data[0], base);
        let rest = spec_run(rows, first.0, data.drop_first(), base + 1);
        (rest.0, first.1 + rest.1)
    }
}

/// Searching `a` and then `b`, with the partial matches left by the first search carried into
/// the second, finds what one search over `a + b` finds, in the same order, and leaves the same
/// partial matches: a match may span the two.
pub proof fn lemma_run_append(
    rows: Seq<Seq<AcTableElem>>,
    st: Seq<AcState>,
    a: Seq<u8>,
    b: Seq<u8>,
    base: int,
)
    ensures
        spec_run(rows, st, a + b, base) == ({
            let r1 = spec_run(rows, st, a, base);
            let r2 = spec_run(rows, r1.0, b, base + a.len());
            (r2.0, r1.1 + r2.1)
        }),
    decreases a.len(),
{
    if a.len() == 0 {
        assert(a + b =~= b);
        assert(Seq::<Match>::empty() + spec_run(rows, st, b, base).1 =~= spec_run(rows, st, b, base).1);
    } else {
        let first = spec_step(rows, st, a[0], base);
        assert((a + b)[0] == a[0]);
        assert((a + b).drop_first() =~= a.drop_first() + b);
        lemma_run_append(rows, first.0, a.drop_first(), b, base + 1);
        let r1 = spec_run(rows, first.0, a.drop_first(), base + 1);
        let r2 = spec_run(rows, r1.0, b, base + 1 + a.drop_first().len());
        assert(first.1 + (r1.1 + r2.1) =~= (first.1 + r1.1) + r2.1);
    }
}

impl AcCpu {
    /// The table the searcher runs.
    pub closed spec fn spec_table(&self) -> AcTable {
        self.table
    }

    /// The partial matches in progress.
    pub closed spec fn states(&self) -> Seq<AcState> {
        self.states@
    }

    /// A searcher with no partial matches in progress.
    pub fn new(table: AcTable) -> (s: Self)
        ensures
            s.spec_table() == table,
            s.states() == Seq::<AcState>::empty(),
    {
        AcCpu { table, states: Vec::new() }
    }

    /// The table the searcher runs.
    pub fn table(&self) -> (t: &AcTable)
        ensures
            *t == self.spec_table(),
    {
        &self.table
    }

    /// Searches `data`, whose first byte is at position `data_offset` of the whole input,
    /// skipping the first `overlap` bytes (already searched in the previous call). Partial
    /// matches in progress carry over between calls. Returns the matches found.
    pub fn search(&mut self, data: &[u8], data_offset: u64, overlap: usize) -> (matches: Vec<Match>)
        requires
            old(self).spec_table().wf(),
            overlap <= data@.len(),
            data_offset + data@.len() <= u64::MAX,
        ensures
            final(self).spec_table() == old(self).spec_table(),
            (final(self).states(), matches@) == spec_run(
                old(self).spec_table().rows(),
                old(self).states(),
                data@.skip(overlap as int),
                data_offset + overlap,
            ),
    {
        let data = &data[overlap..data.len()];
        let data_offset = data_offset + overlap as u64;
        let ghost rows = self.table.rows();
        let ghost goal = spec_run(rows, self.states@, data@, data_offset as int);
        let mut matches: Vec<Match> = Vec::new();
        let mut i: usize = 0;
        assert(data@.skip(0) =~= data@);
        assert(matches@ + goal.1 =~= goal.1);
        while i < data.len()
            invariant
                self.table == old(self).table,
                self.table.wf(),
                rows == self.table.rows(),
                i <= data@.len(),
                data_offset + data@.len() <= u64::MAX,
                ({
                    let rest = spec_run(rows, self.states@, data@.skip(i as int), data_offset + i);
                    goal == (rest.0, matches@ + rest.1)
                }),
            decreases data@.len() - i,
        {
            let b = data[i];
            let pos = data_offset + i as u64;
            let ghost orig = self.states@;
            let ghost prev_matches = matches@;
            let ghost full = spec_advance(rows, orig, b, pos as int);
            assert(data@.skip(i as int).drop_first() =~= data@.skip(i + 1));
            let mut j: usize = 0;
            assert(self.states@.skip(0) =~= self.states@);
            assert(self.states@.take(0) + full.0 =~= full.0);
            assert(matches@.skip(prev_matches.len() as int) + full.1 =~= full.1);
            assert(matches@.take(prev_matches.len() as int) =~= prev_matches);
            while j < self.states.len()
                invariant
                    self.table == old(self).table,
                    self.table.wf(),
                    rows == self.table.rows(),
                    j <= self.states@.len(),
                    matches@.len() >= prev_matches.len(),
                    matches@.take(prev_matches.len() as int) == prev_matches,
                    ({
                        let a = spec_advance(rows, self.states@.skip(j as int), b, pos as int);
                        full == (self.states@.take(j as int) + a.0, matches@.skip(
                            prev_matches.len() as int,
                        ) + a.1)
                    }),
                decreases self.states@.len() - j,
            {
                let ghost before = self.states@;
                let ghost m_before = matches@;
                assert(before.skip(j as int).drop_first() =~= before.skip(j + 1));
                assert(before.skip(j as int)[0] == before[j as int]);
                let st = self.states[j];
                match self.table.lookup(st.state, b) {
                    Some(elem) => {
                        let elem: AcTableElem = *elem;
                        let id = match_id_hash_add_u16(st.id, elem.value);
                        proof {
                            assert(self.table.table@[elem.next_state as int]@ == rows[elem.next_state as int]);
                        }
                        if self.table.table[elem.next_state as usize].len() == 0 {
                            matches.push(Match { id, start_idx: st.start_idx as u64, end_idx: pos });
                            self.states.remove(j);
                            proof {
                                assert(self.states@.take(j as int) =~= before.take(j as int));
                                assert(self.states@.skip(j as int) =~= before.skip(j + 1));
                                assert(matches@.take(prev_matches.len() as int) =~= m_before.take(prev_matches.len() as int));
                                assert(matches@.skip(prev_matches.len() as int) =~= m_before.skip(prev_matches.len() as int).push(
                                    Match { id, start_idx: st.start_idx as u64, end_idx: pos },
                                ));
                                let a = spec_advance(rows, self.states@.skip(j as int), b, pos as int);
                                assert(m_before.skip(prev_matches.len() as int) + (seq![
                                    Match { id, start_idx: st.start_idx as u64, end_idx: pos },
                                ] + a.1) =~= matches@.skip(prev_matches.len() as int) + a.1);
                            }
                        } else {
                            self.states.set(j, AcState { state: elem.next_state, id, start_idx: st.start_idx });
                            proof {
                                let ns = AcState { state: elem.next_state, id, start_idx: st.start_idx };
                                assert(self.states@.take(j + 1) =~= before.take(j as int).push(ns));
                                assert(self.states@.skip(j + 1) =~= before.skip(j + 1));
                                let a = spec_advance(rows, self.states@.skip(j + 1), b, pos as int);
                                assert(before.take(j as int) + (seq![ns] + a.0) =~= self.states@.take(j + 1) + a.0);
                            }
                            j += 1;
                        }
                    },
                    None => {
                        self.states.remove(j);
                        proof {
                            assert(self.states@.take(j as int) =~= before.take(j as int));
                            assert(self.states@.skip(j as int) =~= before.skip(j + 1));
                        }
                    },
                }
            }
            assert(self.states@.skip(j as int) =~= Seq::<AcState>::empty());
            assert(self.states@.take(j as int) =~= self.states@);
            assert(matches@ =~= prev_matches + matches@.skip(prev_matches.len() as int));
            match self.table.lookup(0, b) {
                Some(elem) => {
                    let elem: AcTableElem = *elem;
                    let id = match_id_hash_add_u16(match_id_hash_init(), elem.value);
                    self.states.push(AcState { state: elem.next_state, id, start_idx: pos as usize });
                },
                None => {},
            }
            proof {
                let st = spec_step(rows, orig, b, pos as int);
                assert(st.0 == self.states@);
                assert(st.1 == matches@.skip(prev_matches.len() as int));
                let rest = spec_run(rows, self.states@, data@.skip(i + 1), data_offset + i + 1);
                assert(prev_matches + (st.1 + rest.1) =~= matches@ + rest.1);
            }
            i += 1;
        }
        assert(data@.skip(i as int) =~= Seq::<u8>::empty());
        matches
    }
}

} // verus!
