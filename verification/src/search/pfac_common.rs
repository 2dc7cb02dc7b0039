use vstd::prelude::*;

use super::search_common::{
    first_conn, ir_rows, spec_add_from, spec_add_pattern, AcTableBuilder, ConnectionIR, NodeIR,
};

verus! {

/// Every edge of the graph carries a byte value.
pub open spec fn values_are_bytes(rows: Seq<Seq<ConnectionIR>>) -> bool {
    forall|i: int, j: int|
        0 <= i < rows.len() && 0 <= j < rows[i].len() ==> #[trigger] rows[i][j].value <= 255
}

/// The bytes as 16-bit pattern values.
pub open spec fn widen(p: Seq<u8>) -> Seq<u16> {
    p.map_values(|b: u8| b as u16)
}

pub(crate) proof fn lemma_add_from_bytes(
    rows: Seq<Seq<ConnectionIR>>,
    map: Map<u64, u32>,
    opt: bool,
    pattern: Seq<u16>,
    hashes: Seq<u64>,
    i: int,
    node: int,
)
    requires
        values_are_bytes(rows),
        forall|k: int| 0 <= k < pattern.len() ==> #[trigger] pattern[k] <= 255,
    ensures
        values_are_bytes(spec_add_from(rows, map, opt, pattern, hashes, i, node).0),
    decreases pattern.len() - i,
{
    if !(i < 0 || i >= pattern.len() || node < 0 || node >= rows.len()) {
        match first_conn(rows[node], pattern[i]) {
            Some(j) => {
                let c = rows[node][j].connecting_to_uuid;
                if c != super::search_common::END_NODE && super::search_common::in_degree(rows, c) >= 2
                    && (c as int) < rows.len() && super::search_common::walk(rows, c as int, pattern.skip(i + 1))
                    != Some(super::search_common::END_NODE as int) {
                    let copy = rows.len() as int;
                    let conn = ConnectionIR { connecting_to_uuid: copy as u32, value: pattern[i] };
                    let rows2 = rows.push(rows[c as int]).update(node, rows[node].update(j, conn));
                    assert(values_are_bytes(rows2)) by {
                        assert forall|a: int, b: int|
                            0 <= a < rows2.len() && 0 <= b < rows2[a].len() implies #[trigger] rows2[a][b].value
                            <= 255 by {
                            if a == node && b == j {
                            } else if a == node {
                                assert(rows2[a][b] == rows[a][b]);
                            } else if a == copy {
                                assert(rows2[a][b] == rows[c as int][b]);
                            } else {
                                assert(rows2[a][b] == rows[a][b]);
                            }
                        }
                    }
                    lemma_add_from_bytes(rows2, map, opt, pattern, hashes, i + 1, copy);
                } else {
                    lemma_add_from_bytes(rows, map, opt, pattern, hashes, i + 1, c as int);
                }
            },
            None => {
                let h = hashes[i];
                let reuse = map.contains_key(h) && super::search_common::chain_is(
                    rows,
                    map[h] as int,
                    pattern.skip(i + 1),
                ) && super::search_common::chain_avoids(rows, map[h] as int, pattern.skip(i + 1), node);
                let (rows2, map2, next) = if i == pattern.len() - 1 {
                    (rows, map, super::search_common::END_NODE as int)
                } else if reuse {
                    (rows, map, map[h] as int)
                } else {
                    (
                        rows.push(Seq::<ConnectionIR>::empty()),
                        if opt {
                            map.insert(h, rows.len() as u32)
                        } else {
                            map
                        },
                        rows.len() as int,
                    )
                };
                let conn = ConnectionIR { connecting_to_uuid: next as u32, value: pattern[i] };
                let rows3 = rows2.update(node, rows2[node].push(conn));
                assert(values_are_bytes(rows2)) by {
                    assert forall|a: int, b: int|
                        0 <= a < rows2.len() && 0 <= b < rows2[a].len() implies #[trigger] rows2[a][b].value
                        <= 255 by {
                        if a < rows.len() {
                            assert(rows2[a] == rows[a]);
                        }
                    }
                }
                assert(values_are_bytes(rows3)) by {
                    assert forall|a: int, b: int|
                        0 <= a < rows3.len() && 0 <= b < rows3[a].len() implies #[trigger] rows3[a][b].value
                        <= 255 by {
                        if a == node && b == rows2[node].len() {
                        } else if a == node {
                            assert(rows3[a][b] == rows2[a][b]);
                        } else {
                            assert(rows3[a] == rows2[a]);
                        }
                    }
                }
                if i < pattern.len() - 1 && !reuse {
                    lemma_add_from_bytes(rows3, map2, opt, pattern, hashes, i + 1, next);
                }
            },
        }
    }
}

/// Builds the state table of the byte-pattern automaton, one pattern at a time, on the pattern
/// graph of [`AcTableBuilder`] with byte values.
pub struct PfacTableBuilder {
    inner: AcTableBuilder,
}

/// One entry of a row of the byte state table.
#[derive(Debug, Clone, Copy, PartialEq)]
pub struct PfacTableElem {
    pub next_state: u32,
    pub value: u8,
}

/// The byte state table: row `s` lists the transitions out of state `s`.
pub struct PfacTable {
    pub table: Vec<Vec<PfacTableElem>>,
}

impl PfacTableBuilder {
    /// The edges of each node of the graph built so far.
    pub closed spec fn rows(&self) -> Seq<Seq<ConnectionIR>> {
        self.inner.rows()
    }

    /// The remembered suffix nodes.
    pub closed spec fn suffix_map(&self) -> Map<u64, u32> {
        self.inner.suffix_map()
    }

    /// Whether identical pattern suffixes share nodes.
    pub closed spec fn suffix_opt(&self) -> bool {
        self.inner.suffix_opt()
    }

    /// The graph is well formed and carries only byte values.
    pub closed spec fn wf(&self) -> bool {
        &&& self.inner.wf()
        &&& values_are_bytes(self.inner.rows())
    }

    /// A builder holding only the start node and the end node.
    pub fn new(do_suffix_opt: bool) -> (b: Self)
        ensures
            b.wf(),
            b.rows() == seq![Seq::<ConnectionIR>::empty(), Seq::<ConnectionIR>::empty()],
            b.suffix_map() == Map::<u64, u32>::empty(),
            b.suffix_opt() == do_suffix_opt,
    {
        PfacTableBuilder { inner: AcTableBuilder::new(do_suffix_opt) }
    }

    /// The nodes of the graph built so far.
    pub fn pat_ir(&self) -> (r: &Vec<NodeIR>)
        ensures
            ir_rows(r@) == self.rows(),
    {
        self.inner.pat_ir()
    }

    /// Adds a byte pattern and returns the builder.
    pub fn with_pattern(self, pattern: &[u8]) -> (b: Self)
        requires
            self.wf(),
            self.rows().len() + pattern@.len() <= u32::MAX,
        ensures
            b.wf(),
            (b.rows(), b.suffix_map()) == spec_add_pattern(
                self.rows(),
                self.suffix_map(),
                self.suffix_opt(),
                widen(pattern@),
            ),
            b.suffix_opt() == self.suffix_opt(),
    {
        let mut b = self;
        b.add_pattern(pattern);
        b
    }

    /// Adds a byte pattern to the graph (as `AcTableBuilder::add_pattern` adds its values).
    pub fn add_pattern(&mut self, pattern: &[u8])
        requires
            old(self).wf(),
            old(self).rows().len() + pattern@.len() <= u32::MAX,
        ensures
            final(self).wf(),
            (final(self).rows(), final(self).suffix_map()) == spec_add_pattern(
                old(self).rows(),
                old(self).suffix_map(),
                old(self).suffix_opt(),
                widen(pattern@),
            ),
            final(self).suffix_opt() == old(self).suffix_opt(),
    {
        let mut values: Vec<u16> = Vec::new();
        let mut k: usize = 0;
        while k < pattern.len()
            invariant
                k <= pattern@.len(),
                values@ == widen(pattern@.take(k as int)),
            decreases pattern@.len() - k,
        {
            values.push(pattern[k] as u16);
            assert(widen(pattern@.take(k + 1)) =~= widen(pattern@.take(k as int)).push(
                pattern@[k as int] as u16,
            ));
            k += 1;
        }
        assert(pattern@.take(k as int) =~= pattern@);
        proof {
            lemma_add_from_bytes(
                self.inner.rows(),
                self.inner.suffix_map(),
                self.inner.suffix_opt(),
                values@,
                super::search_common::suffix_hashes(values@),
                0,
                super::search_common::START_NODE as int,
            );
        }
        self.inner.add_pattern(values.as_slice());
    }

    /// Converts the graph into a byte state table: node `i` becomes row `i`, each edge an entry.
    pub fn build(self) -> (t: PfacTable)
        requires
            self.wf(),
        ensures
            t.wf(),
            t.table@.len() == self.rows().len(),
            forall|i: int|
                0 <= i < t.table@.len() ==> #[trigger] t.table@[i]@.len() == self.rows()[i].len(),
            forall|i: int, j: int|
                0 <= i < t.table@.len() && 0 <= j < t.table@[i]@.len() ==> (#[trigger] t.table@[i]@[j]
                    == PfacTableElem {
                    next_state: self.rows()[i][j].connecting_to_uuid,
                    value: self.rows()[i][j].value as u8,
                }),
    {
        let ghost rows = self.rows();
        let ac = self.inner.build();
        let mut table: Vec<Vec<PfacTableElem>> = Vec::new();
        let mut i: usize = 0;
        while i < ac.table.len()
            invariant
                i <= ac.table@.len(),
                ac.table@.len() == rows.len(),
                values_are_bytes(rows),
                forall|a: int| 0 <= a < ac.table@.len() ==> #[trigger] ac.table@[a]@.len() == rows[a].len(),
                forall|a: int, b: int|
                    0 <= a < ac.table@.len() && 0 <= b < ac.table@[a]@.len() ==> (#[trigger] ac.table@[a]@[b]
                        == super::search_common::AcTableElem {
                        next_state: rows[a][b].connecting_to_uuid,
                        value: rows[a][b].value,
                    }),
                table@.len() == i,
                forall|a: int| 0 <= a < i ==> #[trigger] table@[a]@.len() == rows[a].len(),
                forall|a: int, b: int|
                    0 <= a < i && 0 <= b < table@[a]@.len() ==> (#[trigger] table@[a]@[b]
                        == PfacTableElem {
                        next_state: rows[a][b].connecting_to_uuid,
                        value: rows[a][b].value as u8,
                    }),
            decreases ac.table@.len() - i,
        {
            let row = &ac.table[i];
            let mut out: Vec<PfacTableElem> = Vec::new();
            let mut j: usize = 0;
            while j < row.len()
                invariant
                    j <= row@.len(),
                    row@ == ac.table@[i as int]@,
                    row@.len() == rows[i as int].len(),
                    i < rows.len(),
                    values_are_bytes(rows),
                    forall|b: int| 0 <= b < row@.len() ==> (#[trigger] row@[b]
                        == super::search_common::AcTableElem {
                        next_state: rows[i as int][b].connecting_to_uuid,
                        value: rows[i as int][b].value,
                    }),
                    out@.len() == j,
                    forall|b: int|
                        0 <= b < j ==> (#[trigger] out@[b] == PfacTableElem {
                            next_state: rows[i as int][b].connecting_to_uuid,
                            value: rows[i as int][b].value as u8,
                        }),
                decreases row@.len() - j,
            {
                let e = row[j];
                assert(rows[i as int][j as int].value <= 255);
                out.push(PfacTableElem { next_state: e.next_state, value: e.value as u8 });
                j += 1;
            }
            table.push(out);
            i += 1;
        }
        let t = PfacTable { table };
        assert forall|a: int, b: int|
            0 <= a < t.table@.len() && 0 <= b < t.table@[a]@.len() implies #[trigger] t.table@[a]@[b].next_state
            < t.table@.len() by {
            assert(ac.table@[a]@[b].next_state < ac.table@.len());
        }
        t
    }
}

/// `j` is the first entry of `row` with value `v`.
pub open spec fn is_first_value(row: Seq<PfacTableElem>, v: u8, j: int) -> bool {
    &&& 0 <= j < row.len()
    &&& row[j].value == v
    &&& forall|k: int| 0 <= k < j ==> row[k].value != v
}

/// The transition out of `state` on byte `v`: the first entry of the state's row with that
/// value.
pub open spec fn spec_pfac_lookup(rows: Seq<Seq<PfacTableElem>>, state: u32, v: u8) -> Option<PfacTableElem> {
    if state < rows.len() && exists|j: int| is_first_value(rows[state as int], v, j) {
        Some(rows[state as int][choose|j: int| is_first_value(rows[state as int], v, j)])
    } else {
        None
    }
}

proof fn lemma_pfac_lookup_found(rows: Seq<Seq<PfacTableElem>>, state: u32, v: u8, j: int)
    requires
        state < rows.len(),
        is_first_value(rows[state as int], v, j),
    ensures
        spec_pfac_lookup(rows, state, v) == Some(rows[state as int][j]),
{
    let row = rows[state as int];
    let c = choose|j: int| is_first_value(row, v, j);
    assert(is_first_value(row, v, c));
}

impl PfacTable {
    /// The rows of the table.
    pub open spec fn rows(&self) -> Seq<Seq<PfacTableElem>> {
        self.table@.map_values(|r: Vec<PfacTableElem>| r@)
    }

    /// There is a start state, there are at most `u32::MAX` states, and every transition leads
    /// to a state of the table.
    pub open spec fn wf(&self) -> bool {
        &&& 1 <= self.table@.len() <= u32::MAX
        &&& forall|i: int, j: int|
            0 <= i < self.table@.len() && 0 <= j < self.table@[i]@.len() ==> #[trigger] self.table@[
            i]@[j].next_state < self.table@.len()
    }

    /// The transition out of `curr_state` on `value`: the first entry of the state's row with
    /// that value, or None if there is none or the state does not exist.
    pub fn lookup(&self, curr_state: u32, value: u8) -> (r: Option<&PfacTableElem>)
        ensures
            match spec_pfac_lookup(self.rows(), curr_state, value) {
                Some(e) => r == Some(&e),
                None => r is None,
            },
            match r {
                Some(e) => curr_state < self.table@.len() && exists|j: int|
                    is_first_value(self.table@[curr_state as int]@, value, j) && *e == self.table@[
                    curr_state as int]@[j],
                None => curr_state >= self.table@.len() || forall|j: int|
                    0 <= j < self.table@[curr_state as int]@.len()
                        ==> #[trigger] self.table@[curr_state as int]@[j].value != value,
            },
    {
        if curr_state as usize >= self.table.len() {
            return None;
        }
        let row = &self.table[curr_state as usize];
        let mut j: usize = 0;
        while j < row.len()
            invariant
                j <= row@.len(),
                curr_state < self.table@.len(),
                row@ == self.table@[curr_state as int]@,
                forall|k: int| 0 <= k < j ==> row@[k].value != value,
            decreases row@.len() - j,
        {
            if row[j].value == value {
                assert(is_first_value(row@, value, j as int));
                proof {
                    lemma_pfac_lookup_found(self.rows(), curr_state, value, j as int);
                }
                return Some(&row[j]);
            }
            j += 1;
        }
        None
    }
}

} // verus!
