use std::collections::HashMap;

use vstd::prelude::*;

use crate::searchlight::config::{all_patterns, pattern_values, FileType, MatchString, SearchlightConfig};

verus! {

/// The pattern value that matches any byte.
pub const MATCH_ALL_VALUE: u16 = 0x8000;

/// Index of the start node of the pattern graph.
pub const START_NODE: u32 = 0;

/// Index of the end node of the pattern graph.
pub const END_NODE: u32 = 1;

/// An edge of the pattern graph: following it consumes `value` and leads to node `connecting_to_uuid`.
#[derive(Debug, PartialEq, Clone, Copy)]
pub struct ConnectionIR {
    pub connecting_to_uuid: u32,
    pub value: u16,
}

/// A node of the pattern graph with its outgoing edges, in insertion order.
#[derive(Debug, PartialEq, Clone)]
pub struct NodeIR {
    pub next_paths: Vec<ConnectionIR>,
}

/// Builds the state table of the pattern automaton, one pattern at a time.
#[derive(Debug)]
pub struct AcTableBuilder {
    pat_ir: Vec<NodeIR>,
    start_idx: u32,
    end_idx: u32,
    do_suffix_opt: bool,
    suffix_idx_map: HashMap<u64, u32>,
    max_pat_len: u32,
}

/// One entry of a row of the state table.
#[derive(Debug, Clone, Copy, PartialEq)]
pub struct AcTableElem {
    pub next_state: u32,
    pub value: u16,
}

/// The state table: row `s` lists the transitions out of state `s`; a state whose row is empty
/// is accepting.
#[derive(Clone, Debug)]
pub struct AcTable {
    pub table: Vec<Vec<AcTableElem>>,
    pub max_pat_len: u32,
}

/// The hash that the std default hasher gives a suffix of a pattern.
pub uninterp spec fn suffix_hash(suffix: Seq<u16>) -> u64;

/// Hashes a pattern suffix with std's `DefaultHasher` (through `BuildHasher::hash_one`); the
/// result is named, as a function of the suffix alone.
#[verifier::external_body]
fn hash_suffix(suffix: &[u16]) -> (h: u64)
    ensures
        h == suffix_hash(suffix@),
{
    std::hash::BuildHasher::hash_one(
        &std::hash::BuildHasherDefault::<std::collections::hash_map::DefaultHasher>::default(),
        suffix,
    )
}

/// The rows of a pattern graph, as sequences of edges.
pub open spec fn ir_rows(ir: Seq<NodeIR>) -> Seq<Seq<ConnectionIR>> {
    Seq::new(ir.len(), |i: int| ir[i].next_paths@)
}

/// The state table of a pattern graph: node `i` becomes state `i`, each edge an entry.
pub open spec fn table_rows(rows: Seq<Seq<ConnectionIR>>) -> Seq<Seq<AcTableElem>> {
    Seq::new(
        rows.len(),
        |i: int|
            Seq::new(
                rows[i].len(),
                |j: int| AcTableElem { next_state: rows[i][j].connecting_to_uuid, value: rows[i][j].value },
            ),
    )
}

/// `j` is the first index of `row` whose edge carries `v`.
pub open spec fn is_first_conn(row: Seq<ConnectionIR>, v: u16, j: int) -> bool {
    &&& 0 <= j < row.len()
    &&& row[j].value == v
    &&& forall|k: int| 0 <= k < j ==> row[k].value != v
}

/// The index of the first edge of `row` carrying `v`, if any.
pub open spec fn first_conn(row: Seq<ConnectionIR>, v: u16) -> Option<int> {
    if exists|j: int| is_first_conn(row, v, j) {
        Some(choose|j: int| is_first_conn(row, v, j))
    } else {
        None
    }
}

pub proof fn lemma_first_conn(row: Seq<ConnectionIR>, v: u16, j: int)
    requires
        is_first_conn(row, v, j),
    ensures
        first_conn(row, v) == Some(j),
{
    let c = choose|j: int| is_first_conn(row, v, j);
    assert(is_first_conn(row, v, c));
    if c < j {
        assert(row[c].value != v);
    } else if c > j {
        assert(row[j].value != v);
    }
}

proof fn lemma_first_conn_bounds_c(row: Seq<ConnectionIR>, v: u16)
    ensures
        first_conn(row, v) matches Some(j) ==> is_first_conn(row, v, j),
{
}

pub proof fn lemma_no_conn(row: Seq<ConnectionIR>, v: u16)
    requires
        forall|k: int| 0 <= k < row.len() ==> row[k].value != v,
    ensures
        first_conn(row, v) is None,
{
}

/// Following the pattern graph from node `n` along the values `s`, taking at each node the first
/// edge that carries the value: the node reached, or None where no edge carries a value.
pub open spec fn walk(rows: Seq<Seq<ConnectionIR>>, n: int, s: Seq<u16>) -> Option<int>
    decreases s.len(),
{
    if s.len() == 0 {
        Some(n)
    } else if n < 0 || n >= rows.len() {
        None
    } else {
        match first_conn(rows[n], s[0]) {
            Some(j) => walk(rows, rows[n][j].connecting_to_uuid as int, s.drop_first()),
            None => None,
        }
    }
}

/// Every edge of the graph leads to an existing node, and so does every remembered suffix node.
pub open spec fn ir_wf(rows: Seq<Seq<ConnectionIR>>, map: Map<u64, u32>) -> bool {
    &&& 2 <= rows.len() <= u32::MAX
    &&& forall|i: int, j: int|
        0 <= i < rows.len() && 0 <= j < rows[i].len() ==> #[trigger] rows[i][j].connecting_to_uuid
            < rows.len()
    &&& forall|h: u64| #[trigger] map.contains_key(h) ==> map[h] < rows.len()
}

/// The number of edges of `row` that lead to node `c`.
pub open spec fn row_count(row: Seq<ConnectionIR>, c: u32) -> nat
    decreases row.len(),
{
    if row.len() == 0 {
        0
    } else {
        row_count(row.drop_last(), c) + if row.last().connecting_to_uuid == c {
            1nat
        } else {
            0nat
        }
    }
}

/// The number of edges of the graph that lead to node `c`.
pub open spec fn in_degree(rows: Seq<Seq<ConnectionIR>>, c: u32) -> nat
    decreases rows.len(),
{
    if rows.len() == 0 {
        0
    } else {
        in_degree(rows.drop_last(), c) + row_count(rows.last(), c)
    }
}

/// From node `v` the graph is a single chain spelling `s` and ending at the end node: each node
/// on it has exactly one edge, carrying the next value.
pub open spec fn chain_is(rows: Seq<Seq<ConnectionIR>>, v: int, s: Seq<u16>) -> bool
    decreases s.len(),
{
    if s.len() == 0 {
        v == END_NODE as int
    } else {
        &&& 0 <= v < rows.len()
        &&& v != END_NODE as int
        &&& rows[v].len() == 1
        &&& rows[v][0].value == s[0]
        &&& chain_is(rows, rows[v][0].connecting_to_uuid as int, s.drop_first())
    }
}

/// The chain from `v` spelling `s` passes neither through node `u` nor through the start node.
pub open spec fn chain_avoids(rows: Seq<Seq<ConnectionIR>>, v: int, s: Seq<u16>, u: int) -> bool
    decreases s.len(),
{
    if s.len() == 0 {
        true
    } else {
        &&& v != u
        &&& v != START_NODE as int
        &&& 0 <= v < rows.len()
        &&& rows[v].len() > 0
        &&& chain_avoids(rows, rows[v][0].connecting_to_uuid as int, s.drop_first(), u)
    }
}

/// Adding `pattern[i..]` to the graph `rows` (with remembered suffix nodes `map`, keyed by the
/// hash `hashes[k]` of the rest of the pattern after position `k`), from node `node`. Where an
/// edge carries the next value, it is followed; but a node (other than the end node) that more
/// than one edge leads to is shared by several paths, so before following into it (unless the
/// rest of the pattern already leads from it to the end node, and nothing is added) the edge is
/// redirected to a fresh copy of it, and only the copy is extended. Where no edge carries the
/// next value, an edge is added: to the end node for the last value; for the rest of the
/// pattern, to the node remembered under its hash where that node is a single chain spelling
/// exactly the rest of the pattern, not passing through this node or the start node (and the
/// pattern is then complete); otherwise to a new node (remembered under the hash when `opt`).
pub open spec fn spec_add_from(
    rows: Seq<Seq<ConnectionIR>>,
    map: Map<u64, u32>,
    opt: bool,
    pattern: Seq<u16>,
    hashes: Seq<u64>,
    i: int,
    node: int,
) -> (Seq<Seq<ConnectionIR>>, Map<u64, u32>)
    decreases pattern.len() - i,
{
    if i < 0 || i >= pattern.len() || node < 0 || node >= rows.len() {
        (rows, map)
    } else {
        match first_conn(rows[node], pattern[i]) {
            Some(j) => {
                let c = rows[node][j].connecting_to_uuid;
                if c != END_NODE && in_degree(rows, c) >= 2 && (c as int) < rows.len() && walk(
                    rows,
                    c as int,
                    pattern.skip(i + 1),
                ) != Some(END_NODE as int) {
                    let copy = rows.len() as int;
                    let rows2 = rows.push(rows[c as int]).update(
                        node,
                        rows[node].update(j, ConnectionIR { connecting_to_uuid: copy as u32, value: pattern[i] }),
                    );
                    spec_add_from(rows2, map, opt, pattern, hashes, i + 1, copy)
                } else {
                    spec_add_from(rows, map, opt, pattern, hashes, i + 1, c as int)
                }
            },
            None => {
                let h = hashes[i];
                if i == pattern.len() - 1 {
                    let conn = ConnectionIR { connecting_to_uuid: END_NODE, value: pattern[i] };
                    (rows.update(node, rows[node].push(conn)), map)
                } else if map.contains_key(h) && chain_is(rows, map[h] as int, pattern.skip(i + 1))
                    && chain_avoids(rows, map[h] as int, pattern.skip(i + 1), node) {
                    let conn = ConnectionIR { connecting_to_uuid: map[h], value: pattern[i] };
                    (rows.update(node, rows[node].push(conn)), map)
                } else {
                    let next = rows.len() as int;
                    let rows2 = rows.push(Seq::<ConnectionIR>::empty());
                    let map2 = if opt {
                        map.insert(h, next as u32)
                    } else {
                        map
                    };
                    let conn = ConnectionIR { connecting_to_uuid: next as u32, value: pattern[i] };
                    let rows3 = rows2.update(node, rows2[node].push(conn));
                    spec_add_from(rows3, map2, opt, pattern, hashes, i + 1, next)
                }
            },
        }
    }
}

/// The graph after adding a whole pattern from the start node.
pub open spec fn spec_add_pattern(
    rows: Seq<Seq<ConnectionIR>>,
    map: Map<u64, u32>,
    opt: bool,
    pattern: Seq<u16>,
) -> (Seq<Seq<ConnectionIR>>, Map<u64, u32>) {
    spec_add_from(rows, map, opt, pattern, suffix_hashes(pattern), 0, START_NODE as int)
}

/// The hash of the rest of the pattern after each of its positions.
pub open spec fn suffix_hashes(pattern: Seq<u16>) -> Seq<u64> {
    Seq::new(pattern.len(), |i: int| suffix_hash(pattern.skip(i + 1)))
}

/// The builder state (edges, remembered suffix nodes, longest pattern length) after adding the
/// patterns `ps` in order.
pub open spec fn spec_add_all(
    rows: Seq<Seq<ConnectionIR>>,
    map: Map<u64, u32>,
    max_len: u32,
    opt: bool,
    ps: Seq<Seq<u16>>,
) -> (Seq<Seq<ConnectionIR>>, Map<u64, u32>, u32)
    decreases ps.len(),
{
    if ps.len() == 0 {
        (rows, map, max_len)
    } else {
        let prev = spec_add_all(rows, map, max_len, opt, ps.drop_last());
        let p = ps.last();
        let added = spec_add_pattern(prev.0, prev.1, opt, p);
        (added.0, added.1, if p.len() > prev.2 { p.len() as u32 } else { prev.2 })
    }
}

/// The length of the longest of the patterns (0 if there are none).
pub open spec fn longest(ps: Seq<Seq<u16>>) -> nat
    decreases ps.len(),
{
    if ps.len() == 0 {
        0
    } else if ps.last().len() > longest(ps.drop_last()) {
        ps.last().len()
    } else {
        longest(ps.drop_last())
    }
}

/// Adding the patterns `ps` and then `p` is adding `ps`, then adding `p` as `add_pattern` does
/// (recording its length where it is the longest so far): so `from_config` is `new(true)`
/// followed by `add_pattern` of each pattern in turn.
pub proof fn lemma_add_all_push(
    rows: Seq<Seq<ConnectionIR>>,
    map: Map<u64, u32>,
    max_len: u32,
    opt: bool,
    ps: Seq<Seq<u16>>,
    p: Seq<u16>,
)
    ensures
        ({
            let prev = spec_add_all(rows, map, max_len, opt, ps);
            let added = spec_add_pattern(prev.0, prev.1, opt, p);
            spec_add_all(rows, map, max_len, opt, ps.push(p)) == (
                added.0,
                added.1,
                if p.len() > prev.2 {
                    p.len() as u32
                } else {
                    prev.2
                },
            )
        }),
{
    assert(ps.push(p).drop_last() =~= ps);
    assert(ps.push(p).last() == p);
}

/// Adding the rest of a pattern keeps the graph and the remembered nodes well formed, and adds
/// at most one node per value.
proof fn lemma_add_from_wf(
    rows: Seq<Seq<ConnectionIR>>,
    map: Map<u64, u32>,
    opt: bool,
    q: Seq<u16>,
    hashes: Seq<u64>,
    i: int,
    node: int,
)
    requires
        ir_wf(rows, map),
        0 <= i,
        rows.len() + (q.len() - i) <= u32::MAX,
    ensures
        ir_wf(spec_add_from(rows, map, opt, q, hashes, i, node).0, spec_add_from(rows, map, opt, q, hashes, i, node).1),
        spec_add_from(rows, map, opt, q, hashes, i, node).0.len() <= rows.len() + if i <= q.len() {
            q.len() - i
        } else {
            0
        },
    decreases q.len() - i,
{
    if !(i < 0 || i >= q.len() || node < 0 || node >= rows.len()) {
        match first_conn(rows[node], q[i]) {
            Some(j) => {
                lemma_first_conn_bounds_c(rows[node], q[i]);
                let c = rows[node][j].connecting_to_uuid;
                if c != END_NODE && in_degree(rows, c) >= 2 && (c as int) < rows.len() && walk(
                    rows,
                    c as int,
                    q.skip(i + 1),
                ) != Some(END_NODE as int) {
                    let copy = rows.len() as int;
                    let conn = ConnectionIR { connecting_to_uuid: copy as u32, value: q[i] };
                    let rows2 = rows.push(rows[c as int]).update(node, rows[node].update(j, conn));
                    assert forall|a: int, e: int| 0 <= a < rows2.len() && 0 <= e < rows2[a].len() implies #[trigger] rows2[a][e].connecting_to_uuid
                        < rows2.len() by {
                        if a == node && e == j {
                        } else if a == node {
                            assert(rows2[a][e] == rows[a][e]);
                        } else if a == copy {
                            assert(rows2[a][e] == rows[c as int][e]);
                        } else {
                            assert(rows2[a][e] == rows[a][e]);
                        }
                    }
                    lemma_add_from_wf(rows2, map, opt, q, hashes, i + 1, copy);
                } else {
                    lemma_add_from_wf(rows, map, opt, q, hashes, i + 1, c as int);
                }
            },
            None => {
                let h = hashes[i];
                let sfx = q.skip(i + 1);
                if i == q.len() - 1 {
                    let conn = ConnectionIR { connecting_to_uuid: END_NODE, value: q[i] };
                    let r = rows.update(node, rows[node].push(conn));
                    assert forall|a: int, e: int| 0 <= a < r.len() && 0 <= e < r[a].len() implies #[trigger] r[a][e].connecting_to_uuid
                        < r.len() by {
                        if a != node || e < rows[node].len() {
                            assert(r[a][e] == rows[a][e]);
                        }
                    }
                } else if map.contains_key(h) && chain_is(rows, map[h] as int, sfx) && chain_avoids(
                    rows,
                    map[h] as int,
                    sfx,
                    node,
                ) {
                    let conn = ConnectionIR { connecting_to_uuid: map[h], value: q[i] };
                    let r = rows.update(node, rows[node].push(conn));
                    assert forall|a: int, e: int| 0 <= a < r.len() && 0 <= e < r[a].len() implies #[trigger] r[a][e].connecting_to_uuid
                        < r.len() by {
                        if a != node || e < rows[node].len() {
                            assert(r[a][e] == rows[a][e]);
                        }
                    }
                } else {
                    let next = rows.len() as int;
                    let rows2 = rows.push(Seq::<ConnectionIR>::empty());
                    let map2 = if opt {
                        map.insert(h, next as u32)
                    } else {
                        map
                    };
                    let conn = ConnectionIR { connecting_to_uuid: next as u32, value: q[i] };
                    let rows3 = rows2.update(node, rows2[node].push(conn));
                    assert(rows2[node] == rows[node]);
                    assert forall|a: int, e: int| 0 <= a < rows3.len() && 0 <= e < rows3[a].len() implies #[trigger] rows3[a][e].connecting_to_uuid
                        < rows3.len() by {
                        if a != node || e < rows[node].len() {
                            assert(rows3[a][e] == rows[a][e]);
                        }
                    }
                    assert forall|hh: u64| #[trigger] map2.contains_key(hh) implies map2[hh] < rows3.len() by {
                        if opt && hh == h {
                        } else {
                            assert(map.contains_key(hh));
                        }
                    }
                    lemma_add_from_wf(rows3, map2, opt, q, hashes, i + 1, next);
                }
            },
        }
    }
}

/// After adding patterns one after another to a new builder, the graph is well formed (at
/// least the start and end nodes, every edge to an existing node), has at most two nodes more
/// than the patterns' summed length, and the recorded longest length is the longest pattern's:
/// so the table `build` makes of it has at least two states, transitions only to existing
/// states, and that longest length.
pub proof fn lemma_add_all_wf(opt: bool, ps: Seq<Seq<u16>>)
    requires
        2 + total_len(ps) <= u32::MAX,
    ensures
        ({
            let r = spec_add_all(
                seq![Seq::<ConnectionIR>::empty(), Seq::<ConnectionIR>::empty()],
                Map::empty(),
                0,
                opt,
                ps,
            );
            &&& ir_wf(r.0, r.1)
            &&& r.0.len() <= 2 + total_len(ps)
            &&& r.2 == longest(ps)
        }),
    decreases ps.len(),
{
    let r0 = seq![Seq::<ConnectionIR>::empty(), Seq::<ConnectionIR>::empty()];
    if ps.len() > 0 {
        lemma_add_all_wf(opt, ps.drop_last());
        let prev = spec_add_all(r0, Map::empty(), 0, opt, ps.drop_last());
        lemma_add_from_wf(prev.0, prev.1, opt, ps.last(), suffix_hashes(ps.last()), 0, START_NODE as int);
    }
    lemma_longest_bound(ps);
    lemma_add_all_longest(r0, Map::empty(), 0, opt, ps);
}

proof fn lemma_longest_bound(ps: Seq<Seq<u16>>)
    ensures
        longest(ps) <= total_len(ps),
    decreases ps.len(),
{
    if ps.len() > 0 {
        lemma_longest_bound(ps.drop_last());
    }
}

/// The longest length a builder records after patterns are added is the longest of the length
/// it had and the patterns' lengths (as long as that fits a `u32`).
pub proof fn lemma_add_all_longest(
    rows: Seq<Seq<ConnectionIR>>,
    map: Map<u64, u32>,
    max_len: u32,
    opt: bool,
    ps: Seq<Seq<u16>>,
)
    requires
        longest(ps) <= u32::MAX,
    ensures
        spec_add_all(rows, map, max_len, opt, ps).2 == if longest(ps) > max_len {
            longest(ps)
        } else {
            max_len as nat
        },
    decreases ps.len(),
{
    if ps.len() > 0 {
        lemma_add_all_longest(rows, map, max_len, opt, ps.drop_last());
    }
}

/// The summed length of the patterns.
pub open spec fn total_len(ps: Seq<Seq<u16>>) -> nat
    decreases ps.len(),
{
    if ps.len() == 0 {
        0
    } else {
        total_len(ps.drop_last()) + ps.last().len()
    }
}

proof fn lemma_all_patterns_prefix(fts: Seq<FileType>, i: int)
    requires
        0 <= i <= fts.len(),
    ensures
        total_len(all_patterns(fts.take(i))) <= total_len(all_patterns(fts)),
    decreases fts.len() - i,
{
    if i < fts.len() {
        lemma_all_patterns_prefix(fts, i + 1);
        let a = all_patterns(fts.take(i));
        let hv = pattern_values(fts[i].headers@);
        let fv = pattern_values(fts[i].footers@);
        assert(fts.take(i + 1).drop_last() =~= fts.take(i));
        assert(all_patterns(fts.take(i + 1)) == a + hv + fv);
        lemma_add_all_append(Seq::empty(), Map::empty(), 0, true, a, hv);
        lemma_add_all_append(Seq::empty(), Map::empty(), 0, true, a + hv, fv);
    } else {
        assert(fts.take(i) =~= fts);
    }
}

/// Adding the patterns `a` and then the patterns `b` gives what adding `a + b` gives: the
/// builder is the same whether patterns are added in one call or several (so `from_config` is
/// `add_pattern` called on each configured pattern in turn).
pub proof fn lemma_add_all_append(
    rows: Seq<Seq<ConnectionIR>>,
    map: Map<u64, u32>,
    max_len: u32,
    opt: bool,
    a: Seq<Seq<u16>>,
    b: Seq<Seq<u16>>,
)
    ensures
        spec_add_all(rows, map, max_len, opt, a + b) == {
            let s = spec_add_all(rows, map, max_len, opt, a);
            spec_add_all(s.0, s.1, s.2, opt, b)
        },
        total_len(a + b) == total_len(a) + total_len(b),
    decreases b.len(),
{
    if b.len() == 0 {
        assert(a + b =~= a);
    } else {
        lemma_add_all_append(rows, map, max_len, opt, a, b.drop_last());
        assert((a + b).drop_last() =~= a + b.drop_last());
        assert((a + b).last() == b.last());
    }
}

impl AcTableBuilder {
    /// The edges of each node of the graph built so far.
    pub closed spec fn rows(&self) -> Seq<Seq<ConnectionIR>> {
        ir_rows(self.pat_ir@)
    }

    /// The remembered suffix nodes, keyed by suffix hash.
    pub closed spec fn suffix_map(&self) -> Map<u64, u32> {
        self.suffix_idx_map@
    }

    /// Whether identical pattern suffixes share nodes.
    pub closed spec fn suffix_opt(&self) -> bool {
        self.do_suffix_opt
    }

    /// The length of the longest pattern added so far.
    pub closed spec fn spec_max_pat_len(&self) -> u32 {
        self.max_pat_len
    }

    /// Well-formedness: the graph is closed and the start and end nodes are 0 and 1.
    pub closed spec fn wf(&self) -> bool {
        &&& self.start_idx == START_NODE
        &&& self.end_idx == END_NODE
        &&& self.pat_ir@.len() == self.rows().len()
        &&& ir_wf(self.rows(), self.suffix_map())
    }

    /// A builder holding only the start node and the end node.
    pub fn new(do_suffix_opt: bool) -> (b: Self)
        ensures
            b.wf(),
            b.rows() == seq![Seq::<ConnectionIR>::empty(), Seq::<ConnectionIR>::empty()],
            b.suffix_map() == Map::<u64, u32>::empty(),
            b.suffix_opt() == do_suffix_opt,
            b.spec_max_pat_len() == 0,
    {
        let start = NodeIR { next_paths: Vec::new() };
        let end = NodeIR { next_paths: Vec::new() };
        let mut pat_ir = Vec::new();
        pat_ir.push(start);
        pat_ir.push(end);
        let b = AcTableBuilder {
            pat_ir,
            start_idx: START_NODE,
            end_idx: END_NODE,
            do_suffix_opt,
            suffix_idx_map: HashMap::new(),
            max_pat_len: 0,
        };
        assert(b.rows() =~= seq![Seq::<ConnectionIR>::empty(), Seq::<ConnectionIR>::empty()]);
        b
    }

    /// The nodes of the graph built so far.
    pub fn pat_ir(&self) -> (r: &Vec<NodeIR>)
        ensures
            ir_rows(r@) == self.rows(),
    {
        &self.pat_ir
    }

    /// Adds a pattern and returns the builder.
    pub fn with_pattern(self, pattern: &[u16]) -> (b: Self)
        requires
            self.wf(),
            self.rows().len() + pattern.len() <= u32::MAX,
        ensures
            b.wf(),
            (b.rows(), b.suffix_map()) == spec_add_pattern(
                self.rows(),
                self.suffix_map(),
                self.suffix_opt(),
                pattern@,
            ),
            b.suffix_opt() == self.suffix_opt(),
            b.rows().len() <= self.rows().len() + pattern.len(),
            b.spec_max_pat_len() == (if pattern.len() > self.spec_max_pat_len() {
                pattern.len() as u32
            } else {
                self.spec_max_pat_len()
            }),
    {
        let mut b = self;
        b.add_pattern(pattern);
        b
    }

    /// Adds the patterns in order.
    fn add_patterns(&mut self, pats: &Vec<MatchString>)
        requires
            old(self).wf(),
            old(self).rows().len() + total_len(pattern_values(pats@)) <= u32::MAX,
        ensures
            final(self).wf(),
            final(self).suffix_opt() == old(self).suffix_opt(),
            (final(self).rows(), final(self).suffix_map(), final(self).spec_max_pat_len())
                == spec_add_all(
                old(self).rows(),
                old(self).suffix_map(),
                old(self).spec_max_pat_len(),
                old(self).suffix_opt(),
                pattern_values(pats@),
            ),
            final(self).rows().len() <= old(self).rows().len() + total_len(pattern_values(pats@)),
    {
        let ghost rows0 = self.rows();
        let ghost map0 = self.suffix_map();
        let ghost max0 = self.spec_max_pat_len();
        let ghost all = pattern_values(pats@);
        let mut k: usize = 0;
        while k < pats.len()
            invariant
                self.wf(),
                k <= pats@.len(),
                all == pattern_values(pats@),
                self.suffix_opt() == old(self).suffix_opt(),
                rows0.len() + total_len(all) <= u32::MAX,
                (self.rows(), self.suffix_map(), self.spec_max_pat_len()) == spec_add_all(
                    rows0,
                    map0,
                    max0,
                    self.suffix_opt(),
                    pattern_values(pats@.take(k as int)),
                ),
                self.rows().len() <= rows0.len() + total_len(pattern_values(pats@.take(k as int))),
            decreases pats@.len() - k,
        {
            let ghost pre = pattern_values(pats@.take(k as int));
            let ghost nxt = pattern_values(pats@.take(k + 1));
            proof {
                assert(nxt =~= pre.push(pats@[k as int]@));
                assert(nxt.drop_last() =~= pre);
                assert(all =~= nxt + all.skip(k + 1));
                lemma_add_all_append(rows0, map0, max0, self.suffix_opt(), nxt, all.skip(k + 1));
            }
            self.add_pattern(pats[k].as_slice());
            k += 1;
        }
        assert(pats@.take(k as int) =~= pats@);
    }

    /// A builder holding every header and footer pattern of the configured file types, per type
    /// headers first, with suffix sharing on.
    pub fn from_config(config: &SearchlightConfig) -> (b: Self)
        requires
            2 + total_len(all_patterns(config.file_types@)) <= u32::MAX,
        ensures
            b.wf(),
            b.suffix_opt(),
            (b.rows(), b.suffix_map(), b.spec_max_pat_len()) == spec_add_all(
                seq![Seq::<ConnectionIR>::empty(), Seq::<ConnectionIR>::empty()],
                Map::<u64, u32>::empty(),
                0,
                true,
                all_patterns(config.file_types@),
            ),
    {
        let mut builder = AcTableBuilder::new(true);
        let ghost rows0 = builder.rows();
        let ghost fts = config.file_types@;
        let mut i: usize = 0;
        while i < config.file_types.len()
            invariant
                builder.wf(),
                builder.suffix_opt(),
                i <= fts.len(),
                fts == config.file_types@,
                rows0 == seq![Seq::<ConnectionIR>::empty(), Seq::<ConnectionIR>::empty()],
                2 + total_len(all_patterns(fts)) <= u32::MAX,
                (builder.rows(), builder.suffix_map(), builder.spec_max_pat_len())
                    == spec_add_all(
                    rows0,
                    Map::<u64, u32>::empty(),
                    0,
                    true,
                    all_patterns(fts.take(i as int)),
                ),
                builder.rows().len() <= 2 + total_len(all_patterns(fts.take(i as int))),
            decreases fts.len() - i,
        {
            let ghost pre = all_patterns(fts.take(i as int));
            let ghost hv = pattern_values(fts[i as int].headers@);
            let ghost fv = pattern_values(fts[i as int].footers@);
            proof {
                assert(fts.take(i + 1).drop_last() =~= fts.take(i as int));
                assert(all_patterns(fts.take(i + 1)) == pre + hv + fv);
                lemma_all_patterns_prefix(fts, i + 1);
                lemma_add_all_append(rows0, Map::<u64, u32>::empty(), 0, true, pre, hv);
                lemma_add_all_append(rows0, Map::<u64, u32>::empty(), 0, true, pre + hv, fv);
            }
            builder.add_patterns(&config.file_types[i].headers);
            builder.add_patterns(&config.file_types[i].footers);
            i += 1;
        }
        assert(fts.take(i as int) =~= fts);
        builder
    }

    /// Finds the position of the first edge out of `node_idx` that carries `value`.
    fn find_conn(&self, node_idx: usize, value: u16) -> (r: Option<usize>)
        requires
            self.wf(),
            node_idx < self.rows().len(),
        ensures
            match r {
                Some(k) => first_conn(self.rows()[node_idx as int], value) == Some(k as int),
                None => first_conn(self.rows()[node_idx as int], value) is None,
            },
    {
        let paths = &self.pat_ir[node_idx].next_paths;
        let ghost row = self.rows()[node_idx as int];
        assert(paths@ == row);
        let mut j: usize = 0;
        while j < paths.len()
            invariant
                j <= paths.len(),
                paths@ == row,
                node_idx < self.rows().len(),
                row == self.rows()[node_idx as int],
                forall|k: int| 0 <= k < j ==> row[k].value != value,
            decreases paths.len() - j,
        {
            if paths[j].value == value {
                proof {
                    lemma_first_conn(row, value, j as int);
                }
                return Some(j);
            }
            j += 1;
        }
        proof {
            lemma_no_conn(row, value);
        }
        None
    }

    /// Whether more than one edge leads to node `c`.
    fn shared_node(&self, c: u32) -> (b: bool)
        requires
            self.wf(),
        ensures
            b == (in_degree(self.rows(), c) >= 2),
    {
        let ghost rows = self.rows();
        let mut count: usize = 0;
        let mut a: usize = 0;
        while a < self.pat_ir.len()
            invariant
                rows == self.rows(),
                a <= rows.len(),
                self.pat_ir@.len() == rows.len(),
                count == (if in_degree(rows.take(a as int), c) >= 2 {
                    2
                } else {
                    in_degree(rows.take(a as int), c)
                }),
            decreases rows.len() - a,
        {
            let paths = &self.pat_ir[a].next_paths;
            assert(paths@ == rows[a as int]);
            let ghost before = in_degree(rows.take(a as int), c);
            let mut k: usize = 0;
            while k < paths.len()
                invariant
                    paths@ == rows[a as int],
                    k <= paths@.len(),
                    count == (if before + row_count(paths@.take(k as int), c) >= 2 {
                        2
                    } else {
                        before + row_count(paths@.take(k as int), c)
                    }),
                decreases paths@.len() - k,
            {
                assert(paths@.take(k + 1).drop_last() =~= paths@.take(k as int));
                if paths[k].connecting_to_uuid == c && count < 2 {
                    count += 1;
                }
                k += 1;
            }
            assert(paths@.take(k as int) =~= paths@);
            assert(rows.take(a + 1).drop_last() =~= rows.take(a as int));
            a += 1;
        }
        assert(rows.take(a as int) =~= rows);
        count >= 2
    }

    /// Whether from node `v` the graph is a single chain spelling `s` to the end node, not
    /// passing through node `avoid` or the start node.
    /// Whether the values `s` lead from node `v` to the end node.
    fn reaches_end(&self, v: u32, s: &[u16]) -> (b: bool)
        requires
            self.wf(),
            (v as int) < self.rows().len(),
        ensures
            b == (walk(self.rows(), v as int, s@) == Some(END_NODE as int)),
    {
        let ghost rows = self.rows();
        let mut cur: usize = v as usize;
        let mut k: usize = 0;
        assert(s@.skip(0) =~= s@);
        while k < s.len()
            invariant
                rows == self.rows(),
                self.wf(),
                k <= s@.len(),
                cur < rows.len(),
                walk(rows, v as int, s@) == walk(rows, cur as int, s@.skip(k as int)),
            decreases s@.len() - k,
        {
            let ghost rest = s@.skip(k as int);
            assert(rest[0] == s@[k as int]);
            assert(rest.drop_first() =~= s@.skip(k + 1));
            match self.find_conn(cur, s[k]) {
                Some(j) => {
                    let c = self.pat_ir[cur].next_paths[j].connecting_to_uuid;
                    assert(c == rows[cur as int][j as int].connecting_to_uuid);
                    cur = c as usize;
                },
                None => {
                    return false;
                },
            }
            k += 1;
        }
        assert(s@.skip(k as int) =~= Seq::<u16>::empty());
        cur == self.end_idx as usize
    }

    fn is_chain(&self, v: u32, s: &[u16], avoid: usize) -> (b: bool)
        requires
            self.wf(),
        ensures
            b == (chain_is(self.rows(), v as int, s@) && chain_avoids(self.rows(), v as int, s@, avoid as int)),
    {
        let ghost rows = self.rows();
        let mut cur = v;
        let mut k: usize = 0;
        assert(s@.skip(0) =~= s@);
        while k < s.len()
            invariant
                rows == self.rows(),
                self.wf(),
                k <= s@.len(),
                (chain_is(rows, v as int, s@) && chain_avoids(rows, v as int, s@, avoid as int)) == (chain_is(
                    rows,
                    cur as int,
                    s@.skip(k as int),
                ) && chain_avoids(rows, cur as int, s@.skip(k as int), avoid as int)),
            decreases s@.len() - k,
        {
            assert(s@.skip(k as int)[0] == s@[k as int]);
            assert(s@.skip(k as int).drop_first() =~= s@.skip(k + 1));
            if cur == self.end_idx || cur as usize >= self.pat_ir.len() || cur as usize == avoid
                || cur == self.start_idx {
                return false;
            }
            let paths = &self.pat_ir[cur as usize].next_paths;
            assert(paths@ == rows[cur as int]);
            if paths.len() != 1 || paths[0].value != s[k] {
                return false;
            }
            cur = paths[0].connecting_to_uuid;
            k += 1;
        }
        assert(s@.skip(k as int) =~= Seq::<u16>::empty());
        cur == self.end_idx
    }

    /// A copy of the edges of node `c`.
    fn copy_row(&self, c: usize) -> (r: Vec<ConnectionIR>)
        requires
            self.wf(),
            c < self.rows().len(),
        ensures
            r@ == self.rows()[c as int],
    {
        let paths = &self.pat_ir[c].next_paths;
        let mut out: Vec<ConnectionIR> = Vec::new();
        let mut k: usize = 0;
        while k < paths.len()
            invariant
                k <= paths@.len(),
                out@ == paths@.take(k as int),
            decreases paths@.len() - k,
        {
            out.push(paths[k]);
            assert(out@ =~= paths@.take(k + 1));
            k += 1;
        }
        assert(paths@.take(k as int) =~= paths@);
        out
    }

    /// Adds a pattern to the graph (see `spec_add_from`) and records its length, hashing the
    /// rest of the pattern after each position with std's default hasher.
    pub fn add_pattern(&mut self, pattern: &[u16])
        requires
            old(self).wf(),
            old(self).rows().len() + pattern.len() <= u32::MAX,
        ensures
            final(self).wf(),
            (final(self).rows(), final(self).suffix_map()) == spec_add_pattern(
                old(self).rows(),
                old(self).suffix_map(),
                old(self).suffix_opt(),
                pattern@,
            ),
            final(self).suffix_opt() == old(self).suffix_opt(),
            final(self).rows().len() <= old(self).rows().len() + pattern.len(),
            final(self).spec_max_pat_len() == (if pattern.len() > old(self).spec_max_pat_len() {
                pattern.len() as u32
            } else {
                old(self).spec_max_pat_len()
            }),
    {
        let mut hashes: Vec<u64> = Vec::new();
        let mut i: usize = 0;
        while i < pattern.len()
            invariant
                i <= pattern.len(),
                hashes@ =~= suffix_hashes(pattern@).take(i as int),
            decreases pattern.len() - i,
        {
            let suffix = &pattern[(i + 1)..pattern.len()];
            assert(suffix@ == pattern@.skip(i + 1));
            hashes.push(hash_suffix(suffix));
            i += 1;
        }
        assert(hashes@ =~= suffix_hashes(pattern@));
        self.add_pattern_hashed(pattern, hashes.as_slice());
    }

    /// Adds a pattern to the graph (see `spec_add_from`) and records its length, `hashes[k]`
    /// being the hash under which the rest of the pattern after position `k` is remembered.
    pub fn add_pattern_hashed(&mut self, pattern: &[u16], hashes: &[u64])
        requires
            old(self).wf(),
            old(self).rows().len() + pattern.len() <= u32::MAX,
            hashes.len() == pattern.len(),
        ensures
            final(self).wf(),
            (final(self).rows(), final(self).suffix_map()) == spec_add_from(
                old(self).rows(),
                old(self).suffix_map(),
                old(self).suffix_opt(),
                pattern@,
                hashes@,
                0,
                START_NODE as int,
            ),
            final(self).suffix_opt() == old(self).suffix_opt(),
            final(self).rows().len() <= old(self).rows().len() + pattern.len(),
            final(self).spec_max_pat_len() == (if pattern.len() > old(self).spec_max_pat_len() {
                pattern.len() as u32
            } else {
                old(self).spec_max_pat_len()
            }),
    {
        let ghost goal = spec_add_from(
            self.rows(),
            self.suffix_map(),
            self.suffix_opt(),
            pattern@,
            hashes@,
            0,
            START_NODE as int,
        );
        let ghost start_len = self.rows().len();
        let mut node_idx: usize = self.start_idx as usize;
        let mut i: usize = 0;
        while i < pattern.len()
            invariant
                self.wf(),
                i <= pattern.len(),
                node_idx < self.rows().len(),
                self.rows().len() <= start_len + i,
                start_len + pattern.len() <= u32::MAX,
                self.suffix_opt() == old(self).suffix_opt(),
                self.max_pat_len == old(self).max_pat_len,
                hashes.len() == pattern.len(),
                spec_add_from(
                    self.rows(),
                    self.suffix_map(),
                    self.suffix_opt(),
                    pattern@,
                    hashes@,
                    i as int,
                    node_idx as int,
                ) == goal,
            decreases pattern.len() - i,
        {
            let b = pattern[i];
            let ghost rows0 = self.rows();
            let ghost map0 = self.suffix_map();
            let mut next_i = i + 1;
            match self.find_conn(node_idx, b) {
                Some(j) => {
                    assert(first_conn(rows0[node_idx as int], b) == Some(j as int));
                    let ghost fc = first_conn(rows0[node_idx as int], b);
                    let c = self.pat_ir[node_idx].next_paths[j].connecting_to_uuid;
                    assert(c == rows0[node_idx as int][j as int].connecting_to_uuid);
                    assert(c < rows0.len());
                    let rest = &pattern[(i + 1)..pattern.len()];
                    assert(rest@ == pattern@.skip(i + 1));
                    if c != self.end_idx && self.shared_node(c) && !self.reaches_end(c, rest) {
                        let copy = self.pat_ir.len();
                        let edges = self.copy_row(c as usize);
                        self.pat_ir.push(NodeIR { next_paths: edges });
                        let ghost rows1 = self.rows();
                        assert(rows1 =~= rows0.push(rows0[c as int]));
                        self.pat_ir[node_idx].next_paths.set(
                            j,
                            ConnectionIR { connecting_to_uuid: copy as u32, value: b },
                        );
                        proof {
                            let conn = ConnectionIR { connecting_to_uuid: copy as u32, value: b };
                            assert(self.rows() =~= rows0.push(rows0[c as int]).update(
                                node_idx as int,
                                rows0[node_idx as int].update(j as int, conn),
                            ));
                            assert forall|a: int, e: int|
                                0 <= a < self.rows().len() && 0 <= e < self.rows()[a].len() implies
                                #[trigger] self.rows()[a][e].connecting_to_uuid < self.rows().len() by {
                                if a == node_idx && e == j {
                                } else if a == node_idx {
                                    assert(self.rows()[a][e] == rows0[a][e]);
                                } else if a == copy {
                                    assert(self.rows()[a][e] == rows0[c as int][e]);
                                } else {
                                    assert(self.rows()[a][e] == rows0[a][e]);
                                }
                            }
                        }
                        proof {
                            assert(fc == Some(j as int));
                            assert(spec_add_from(rows0, map0, self.suffix_opt(), pattern@, hashes@, i as int, node_idx as int)
                                == spec_add_from(self.rows(), self.suffix_map(), self.suffix_opt(), pattern@, hashes@, i + 1, copy as int));
                        }
                        node_idx = copy;
                    } else {
                        proof {
                            assert(first_conn(rows0[node_idx as int], b) == Some(j as int));
                            assert(spec_add_from(rows0, map0, self.suffix_opt(), pattern@, hashes@, i as int, node_idx as int)
                                == spec_add_from(rows0, map0, self.suffix_opt(), pattern@, hashes@, i + 1, c as int));
                        }
                        node_idx = c as usize;
                    }
                },
                None => {
                    let next_node_idx: u32 = if i == pattern.len() - 1 {
                        next_i = pattern.len();
                        self.end_idx
                    } else {
                        let suffix = &pattern[(i + 1)..pattern.len()];
                        let h = hashes[i];
                        let reused = match self.suffix_idx_map.get(&h) {
                            Some(idx) => {
                                let v = *idx;
                                assert(suffix@ == pattern@.skip(i + 1));
                                if self.is_chain(v, suffix, node_idx) {
                                    Some(v)
                                } else {
                                    None
                                }
                            },
                            None => None,
                        };
                        match reused {
                            Some(v) => {
                                next_i = pattern.len();
                                v
                            },
                            None => {
                                let new_node_idx = self.pat_ir.len() as u32;
                                self.pat_ir.push(NodeIR { next_paths: Vec::new() });
                                if self.do_suffix_opt {
                                    self.suffix_idx_map.insert(h, new_node_idx);
                                }
                                new_node_idx
                            },
                        }
                    };
                    let ghost rows2 = self.rows();
                    self.pat_ir[node_idx].next_paths.push(
                        ConnectionIR { connecting_to_uuid: next_node_idx, value: b },
                    );
                    proof {
                        let conn = ConnectionIR { connecting_to_uuid: next_node_idx, value: b };
                        assert(self.rows() =~= rows2.update(
                            node_idx as int,
                            rows2[node_idx as int].push(conn),
                        ));
                        assert(rows2 =~= rows0 || rows2 =~= rows0.push(Seq::<ConnectionIR>::empty()));
                        assert forall|a: int, e: int|
                            0 <= a < self.rows().len() && 0 <= e < self.rows()[a].len() implies
                            #[trigger] self.rows()[a][e].connecting_to_uuid < self.rows().len() by {
                            if a == node_idx && e == rows2[node_idx as int].len() {
                            } else {
                                assert(self.rows()[a][e] == rows2[a][e]);
                                if a < rows0.len() {
                                    assert(rows2[a][e] == rows0[a][e]);
                                }
                            }
                        }
                    }
                    proof {
                        assert(first_conn(rows0[node_idx as int], b) is None);
                        let goal_here = spec_add_from(self.rows(), self.suffix_map(), self.suffix_opt(), pattern@, hashes@, next_i as int, next_node_idx as int);
                        assert(spec_add_from(rows0, map0, self.suffix_opt(), pattern@, hashes@, i as int, node_idx as int) == goal_here);
                    }
                    node_idx = next_node_idx as usize;
                },
            }
            i = next_i;
        }
        if (pattern.len() as u32) > self.max_pat_len {
            self.max_pat_len = pattern.len() as u32;
        }
    }

    /// Converts the graph into a state table: node `i` becomes row `i`, each edge an entry.
    pub fn build(self) -> (t: AcTable)
        requires
            self.wf(),
        ensures
            t.wf(),
            t.table@.len() >= 2,
            t.max_pat_len == self.spec_max_pat_len(),
            t.rows() == table_rows(self.rows()),
            t.table@.len() == self.rows().len(),
            forall|i: int|
                0 <= i < t.table@.len() ==> #[trigger] t.table@[i]@.len() == self.rows()[i].len(),
            forall|i: int, j: int|
                0 <= i < t.table@.len() && 0 <= j < t.table@[i]@.len() ==> (#[trigger] t.table@[i]@[j]
                    == AcTableElem {
                    next_state: self.rows()[i][j].connecting_to_uuid,
                    value: self.rows()[i][j].value,
                }),
    {
        let ghost rows = self.rows();
        let mut table: Vec<Vec<AcTableElem>> = Vec::new();
        let mut i: usize = 0;
        while i < self.pat_ir.len()
            invariant
                self.wf(),
                rows == self.rows(),
                i <= self.pat_ir.len(),
                table@.len() == i,
                forall|a: int| 0 <= a < i ==> #[trigger] table@[a]@.len() == rows[a].len(),
                forall|a: int, c: int|
                    0 <= a < i && 0 <= c < table@[a]@.len() ==> (#[trigger] table@[a]@[c]
                        == AcTableElem {
                        next_state: rows[a][c].connecting_to_uuid,
                        value: rows[a][c].value,
                    }),
            decreases self.pat_ir.len() - i,
        {
            let paths = &self.pat_ir[i].next_paths;
            assert(paths@ == rows[i as int]);
            let mut row: Vec<AcTableElem> = Vec::new();
            let mut j: usize = 0;
            while j < paths.len()
                invariant
                    j <= paths.len(),
                    paths@ == rows[i as int],
                    row@.len() == j,
                    forall|c: int|
                        0 <= c < j ==> (#[trigger] row@[c] == AcTableElem {
                            next_state: rows[i as int][c].connecting_to_uuid,
                            value: rows[i as int][c].value,
                        }),
                decreases paths.len() - j,
            {
                let conn = paths[j];
                row.push(AcTableElem { next_state: conn.connecting_to_uuid, value: conn.value });
                j += 1;
            }
            table.push(row);
            i += 1;
        }
        let t = AcTable { table, max_pat_len: self.max_pat_len };
        assert forall|a: int, c: int|
            0 <= a < t.table@.len() && 0 <= c < t.table@[a]@.len() implies #[trigger] t.table@[a]@[
            c].next_state < t.table@.len() by {
            assert(rows[a][c].connecting_to_uuid < rows.len());
        }
        assert(t.rows() =~= table_rows(rows)) by {
            assert forall|a: int| 0 <= a < rows.len() implies #[trigger] t.rows()[a] =~= table_rows(rows)[a] by {}
        }
        t
    }
}

/// `k` lies in row `i` of a table with `d` columns, at column `k - i * d`.
pub proof fn lemma_row_col(k: int, i: int, d: int)
    requires
        d > 0,
        i * d <= k < i * d + d,
    ensures
        k / d == i,
        k % d == k - i * d,
{
    vstd::arithmetic::div_mod::lemma_fundamental_div_mod_converse(k, d, i, k - i * d);
}

/// The entry matches byte `v`: it carries `v` or is a match-all entry.
pub open spec fn elem_matches(e: AcTableElem, v: u8) -> bool {
    e.value == v as u16 || e.value == MATCH_ALL_VALUE
}

/// `j` is the first entry of `row` that matches `v`.
pub open spec fn is_first_elem(row: Seq<AcTableElem>, v: u8, j: int) -> bool {
    &&& 0 <= j < row.len()
    &&& elem_matches(row[j], v)
    &&& forall|k: int| 0 <= k < j ==> !elem_matches(row[k], v)
}

/// The transition out of `state` on byte `v`: the first matching entry of the state's row.
pub open spec fn spec_lookup(rows: Seq<Seq<AcTableElem>>, state: u32, v: u8) -> Option<AcTableElem> {
    if state < rows.len() && exists|j: int| is_first_elem(rows[state as int], v, j) {
        Some(rows[state as int][choose|j: int| is_first_elem(rows[state as int], v, j)])
    } else {
        None
    }
}

pub proof fn lemma_lookup_found(rows: Seq<Seq<AcTableElem>>, state: u32, v: u8, j: int)
    requires
        state < rows.len(),
        is_first_elem(rows[state as int], v, j),
    ensures
        spec_lookup(rows, state, v) == Some(rows[state as int][j]),
{
    let row = rows[state as int];
    let c = choose|j: int| is_first_elem(row, v, j);
    assert(is_first_elem(row, v, c));
    if c < j {
        assert(!elem_matches(row[c], v));
    } else if c > j {
        assert(!elem_matches(row[j], v));
    }
}

/// The column of the indexable encoding that an entry occupies.
pub open spec fn elem_column(e: AcTableElem) -> int {
    if e.value == MATCH_ALL_VALUE {
        256
    } else {
        e.value as int
    }
}

/// The next state written to column `col` by the entries of `row`, the last one winning, or 0.
pub open spec fn encoded_cell(row: Seq<AcTableElem>, col: int) -> u32
    decreases row.len(),
{
    if row.len() == 0 {
        0
    } else if elem_column(row.last()) == col {
        row.last().next_state
    } else {
        encoded_cell(row.drop_last(), col)
    }
}

/// A cell of the indexable encoding: all `u32::MAX` for an accepting (empty) row.
pub open spec fn indexable_cell(row: Seq<AcTableElem>, col: int) -> u32 {
    if row.len() == 0 {
        u32::MAX
    } else {
        encoded_cell(row, col)
    }
}

/// One entry packed into 64 bits: next state in the high half, value in the low half.
pub open spec fn packed_elem(e: AcTableElem) -> u64 {
    ((e.next_state as u64) << 32u64) | (e.value as u64)
}

/// A cell of the packed encoding: the row length, then the packed entries, then zeros.
pub open spec fn packed_cell(row: Seq<AcTableElem>, col: int) -> u64 {
    if col == 0 {
        row.len() as u64
    } else if col - 1 < row.len() {
        packed_elem(row[col - 1])
    } else {
        0
    }
}

/// The width of a row of the packed encoding: the longest row plus the length cell.
pub open spec fn packed_width(rows: Seq<Seq<AcTableElem>>) -> int {
    max_row_len(rows) as int + 1
}

/// The length of the longest row.
pub open spec fn max_row_len(rows: Seq<Seq<AcTableElem>>) -> nat
    decreases rows.len(),
{
    if rows.len() == 0 {
        0
    } else {
        let m = max_row_len(rows.drop_last());
        if rows.last().len() > m {
            rows.last().len()
        } else {
            m
        }
    }
}

pub proof fn lemma_max_row_len(rows: Seq<Seq<AcTableElem>>, i: int)
    requires
        0 <= i < rows.len(),
    ensures
        rows[i].len() <= max_row_len(rows),
    decreases rows.len(),
{
    if i < rows.len() - 1 {
        lemma_max_row_len(rows.drop_last(), i);
    }
}

impl AcTable {
    /// The rows of the table.
    pub open spec fn rows(&self) -> Seq<Seq<AcTableElem>> {
        Seq::new(self.table@.len(), |i: int| self.table@[i]@)
    }

    /// Every entry leads to an existing state.
    pub open spec fn wf(&self) -> bool {
        &&& self.table@.len() <= u32::MAX
        &&& forall|i: int, j: int|
            0 <= i < self.table@.len() && 0 <= j < self.table@[i]@.len() ==> #[trigger] self.table@[
            i]@[j].next_state < self.table@.len()
    }

    /// Every value is a byte or the match-all value, so each entry has a column in the indexable
    /// encoding.
    pub open spec fn values_indexable(&self) -> bool {
        forall|i: int, j: int|
            0 <= i < self.table@.len() && 0 <= j < self.table@[i]@.len() ==> {
                let v = #[trigger] self.table@[i]@[j].value;
                v <= 255 || v == MATCH_ALL_VALUE
            }
    }

    /// The transition out of `curr_state` on `value`: the first entry of the state's row carrying
    /// that value or the match-all value, or None if there is none or the state does not exist.
    pub fn lookup(&self, curr_state: u32, value: u8) -> (r: Option<&AcTableElem>)
        ensures
            match spec_lookup(self.rows(), curr_state, value) {
                Some(e) => r == Some(&e),
                None => r is None,
            },
    {
        if (curr_state as usize) >= self.table.len() {
            return None;
        }
        let row = &self.table[curr_state as usize];
        let ghost rows = self.rows();
        assert(row@ == rows[curr_state as int]);
        let mut j: usize = 0;
        while j < row.len()
            invariant
                j <= row.len(),
                curr_state < rows.len(),
                rows == self.rows(),
                row@ == rows[curr_state as int],
                forall|k: int| 0 <= k < j ==> !elem_matches(row@[k], value),
            decreases row.len() - j,
        {
            let e = &row[j];
            if e.value == value as u16 || e.value == MATCH_ALL_VALUE {
                proof {
                    lemma_lookup_found(rows, curr_state, value, j as int);
                }
                return Some(e);
            }
            j += 1;
        }
        None
    }

    /// The number of states.
    pub fn num_rows(&self) -> (n: usize)
        ensures
            n == self.table@.len(),
    {
        self.table.len()
    }

    /// The number of columns of the indexable encoding: one per byte value and one for match-all.
    pub fn indexable_columns(&self) -> (n: usize)
        ensures
            n == 257,
    {
        257
    }

    /// Flattens the table into a row-major 2D array with 257 columns: cell (state, byte) holds the
    /// next state, the last column holds the match-all transition, and every cell of an
    /// accepting state holds `u32::MAX`.
    pub fn encode_indexable(&self) -> (r: Vec<u32>)
        requires
            self.values_indexable(),
            self.table@.len() * 257 <= usize::MAX,
        ensures
            r@.len() == self.table@.len() * 257,
            forall|k: int|
                0 <= k < r@.len() ==> #[trigger] r@[k] == indexable_cell(
                    self.rows()[k / 257],
                    k % 257,
                ),
    {
        let rlen = self.indexable_columns();
        let ghost rows = self.rows();
        let mut accum: Vec<u32> = Vec::new();
        let mut i: usize = 0;
        while i < self.table.len()
            invariant
                rlen == 257,
                rows == self.rows(),
                self.values_indexable(),
                self.table@.len() * 257 <= usize::MAX,
                i <= self.table@.len(),
                accum@.len() == i * 257,
                forall|k: int|
                    0 <= k < accum@.len() ==> #[trigger] accum@[k] == indexable_cell(
                        rows[k / 257],
                        k % 257,
                    ),
            decreases self.table@.len() - i,
        {
            let row = &self.table[i];
            assert(row@ == rows[i as int]);
            let fill: u32 = if row.len() == 0 { u32::MAX } else { 0 };
            let mut cells: Vec<u32> = Vec::new();
            let mut c: usize = 0;
            while c < rlen
                invariant
                    rlen == 257,
                    c <= rlen,
                    cells@.len() == c,
                    forall|k: int| 0 <= k < c ==> cells@[k] == fill,
                decreases rlen - c,
            {
                cells.push(fill);
                c += 1;
            }
            let mut j: usize = 0;
            while j < row.len()
                invariant
                    rlen == 257,
                    j <= row@.len(),
                    cells@.len() == 257,
                    row@ == rows[i as int],
                    i < self.table@.len(),
                    self.values_indexable(),
                    rows == self.rows(),
                    fill == (if row@.len() == 0 { u32::MAX } else { 0 }),
                    forall|k: int|
                        0 <= k < 257 ==> #[trigger] cells@[k] == (if row@.len() == 0 {
                            u32::MAX
                        } else {
                            encoded_cell(row@.take(j as int), k)
                        }),
                decreases row@.len() - j,
            {
                let e = row[j];
                assert(self.table@[i as int]@[j as int] == e);
                let col: usize = if e.value == MATCH_ALL_VALUE { rlen - 1 } else { e.value as usize };
                cells.set(col, e.next_state);
                assert(row@.take(j + 1).drop_last() =~= row@.take(j as int));
                j += 1;
            }
            assert(row@.take(row@.len() as int) =~= row@);
            let ghost old_accum = accum@;
            let mut c: usize = 0;
            while c < rlen
                invariant
                    rlen == 257,
                    c <= rlen,
                    cells@.len() == 257,
                    i < self.table@.len(),
                    self.table@.len() * 257 <= usize::MAX,
                    accum@.len() == i * 257 + c,
                    accum@.take(i * 257) == old_accum,
                    old_accum.len() == i * 257,
                    forall|k: int| 0 <= k < c ==> accum@[i * 257 + k] == cells@[k],
                decreases rlen - c,
            {
                accum.push(cells[c]);
                assert(accum@.take(i * 257) =~= old_accum);
                c += 1;
            }
            assert forall|k: int| 0 <= k < accum@.len() implies #[trigger] accum@[k]
                == indexable_cell(rows[k / 257], k % 257) by {
                if k < i * 257 {
                    assert(accum@[k] == old_accum[k]);
                } else {
                    lemma_row_col(k, i as int, 257);
                    assert(accum@[k] == cells@[k - i * 257]);
                }
            }
            i += 1;
        }
        accum
    }

    /// Packs the table into 64-bit cells: the first element is the row width (the longest row
    /// plus one), followed by each row as its length, its packed entries and zero padding.
    pub fn encode(&self) -> (r: Vec<u64>)
        requires
            self.table@.len() * packed_width(self.rows()) + 1 <= usize::MAX,
        ensures
            r@.len() == 1 + self.table@.len() * packed_width(self.rows()),
            r@[0] == packed_width(self.rows()),
            forall|k: int|
                0 <= k < r@.len() - 1 ==> #[trigger] r@[k + 1] == packed_cell(
                    self.rows()[k / packed_width(self.rows())],
                    k % packed_width(self.rows()),
                ),
    {
        let ghost rows = self.rows();
        let ghost w = packed_width(rows);
        proof {
            if rows.len() > 0 {
                assert(w <= rows.len() * w) by (nonlinear_arith)
                    requires
                        rows.len() > 0,
                        w > 0,
                ;
            }
        }
        let mut max_len: usize = 0;
        let mut i: usize = 0;
        while i < self.table.len()
            invariant
                i <= self.table@.len(),
                rows == self.rows(),
                max_len == max_row_len(rows.take(i as int)),
                max_row_len(rows) + 1 <= usize::MAX,
            decreases self.table@.len() - i,
        {
            assert(rows.take(i + 1).drop_last() =~= rows.take(i as int));
            proof {
                lemma_max_row_len(rows, i as int);
                lemma_max_prefix(rows, i + 1);
            }
            if self.table[i].len() > max_len {
                max_len = self.table[i].len();
            }
            i += 1;
        }
        assert(rows.take(i as int) =~= rows);
        let rlen = max_len + 1;
        let mut accum: Vec<u64> = Vec::new();
        accum.push(rlen as u64);
        let mut i: usize = 0;
        assert(i * w == 0) by (nonlinear_arith)
            requires
                i == 0,
        ;
        while i < self.table.len()
            invariant
                rlen == w,
                w == packed_width(rows),
                rows == self.rows(),
                i <= self.table@.len(),
                self.table@.len() * w + 1 <= usize::MAX,
                accum@.len() == 1 + i * w,
                accum@[0] == w,
                forall|k: int|
                    0 <= k < i * w ==> #[trigger] accum@[k + 1] == packed_cell(rows[k / w], k % w),
            decreases self.table@.len() - i,
        {
            let row = &self.table[i];
            assert(row@ == rows[i as int]);
            proof {
                lemma_max_row_len(rows, i as int);
                assert((i + 1) * w == i * w + w) by (nonlinear_arith);
                assert((i + 1) * w <= self.table@.len() * w) by (nonlinear_arith)
                    requires
                        i + 1 <= self.table@.len(),
                        w > 0,
                ;
            }
            let ghost old_accum = accum@;
            let mut c: usize = 0;
            while c < rlen
                invariant
                    rlen == w,
                    row@.len() < w,
                    c <= rlen,
                    accum@.len() == 1 + i * w + c,
                    accum@.take(1 + i * w) == old_accum,
                    old_accum.len() == 1 + i * w,
                    (i + 1) * w + 1 <= usize::MAX,
                    (i + 1) * w == i * w + w,
                    forall|k: int| 0 <= k < c ==> #[trigger] accum@[1 + i * w + k] == packed_cell(row@, k),
                decreases rlen - c,
            {
                let cell: u64 = if c == 0 {
                    row.len() as u64
                } else if c - 1 < row.len() {
                    ((row[c - 1].next_state as u64) << 32u64) | (row[c - 1].value as u64)
                } else {
                    0
                };
                accum.push(cell);
                assert(accum@.take(1 + i * w) =~= old_accum);
                c += 1;
            }
            assert forall|k: int| 0 <= k < (i + 1) * w implies #[trigger] accum@[k + 1]
                == packed_cell(rows[k / w], k % w) by {
                if k < i * w {
                    assert(accum@[k + 1] == old_accum[k + 1]);
                } else {
                    lemma_row_col(k, i as int, w as int);
                    assert(accum@[1 + i * w + (k - i * w)] == packed_cell(row@, k - i * w));
                }
            }
            i += 1;
        }
        accum
    }
}

/// The longest row of a prefix is the longest row of the shorter prefix, or the new last row.
proof fn lemma_max_prefix(rows: Seq<Seq<AcTableElem>>, n: int)
    requires
        0 < n <= rows.len(),
    ensures
        max_row_len(rows.take(n)) == (if rows[n - 1].len() > max_row_len(rows.take(n - 1)) {
            rows[n - 1].len()
        } else {
            max_row_len(rows.take(n - 1))
        }),
{
    assert(rows.take(n).drop_last() =~= rows.take(n - 1));
}

} // verus!
