use vstd::prelude::*;

use super::pfac_common::{lemma_add_from_bytes, values_are_bytes};
use super::search_common::{
    chain_avoids, chain_is, first_conn, in_degree, is_first_conn, is_first_elem, lemma_first_conn,
    lemma_lookup_found, lemma_no_conn, row_count, spec_add_all, spec_add_from, spec_lookup, walk,
    suffix_hashes, table_rows, total_len, AcTableElem, ConnectionIR, END_NODE, START_NODE,
};

verus! {

/// `a` is a proper prefix of `b`.
pub open spec fn is_strict_prefix(a: Seq<u16>, b: Seq<u16>) -> bool {
    a.len() < b.len() && b.take(a.len() as int) == a
}

/// No pattern is a proper prefix of another.
pub open spec fn prefix_free(ps: Seq<Seq<u16>>) -> bool {
    forall|a: int, b: int|
        0 <= a < ps.len() && 0 <= b < ps.len() ==> !is_strict_prefix(#[trigger] ps[a], #[trigger] ps[b])
}

/// The graph is closed, no edge leads back to the start node, and the end node has no edge.
pub open spec fn graph_ok(rows: Seq<Seq<ConnectionIR>>) -> bool {
    &&& 2 <= rows.len()
    &&& rows[END_NODE as int].len() == 0
    &&& forall|a: int, e: int|
        0 <= a < rows.len() && 0 <= e < rows[a].len() ==> #[trigger] rows[a][e].connecting_to_uuid
            < rows.len() && rows[a][e].connecting_to_uuid != START_NODE
}

/// Every value sequence the graph leads from the start node to the end node is a pattern, and
/// every other one it leads somewhere is empty or a proper prefix of a pattern.
pub open spec fn sound(rows: Seq<Seq<ConnectionIR>>, ps: Seq<Seq<u16>>) -> bool {
    forall|s: Seq<u16>| #![trigger walk(rows, START_NODE as int, s)] sound_at(rows, ps, s)
}

/// Where the graph leads `s` from the start node: to the end node only for a pattern, and
/// elsewhere only for the empty sequence or a proper prefix of a pattern.
pub open spec fn sound_at(rows: Seq<Seq<ConnectionIR>>, ps: Seq<Seq<u16>>, s: Seq<u16>) -> bool {
    walk(rows, START_NODE as int, s) matches Some(m) ==> (m == END_NODE as int ==> ps.contains(s)) && (m
        != END_NODE as int ==> s.len() == 0 || exists|k: int| 0 <= k < ps.len() && is_strict_prefix(s, ps[k]))
}

/// Every pattern leads from the start node to the end node.
pub open spec fn complete(rows: Seq<Seq<ConnectionIR>>, ps: Seq<Seq<u16>>) -> bool {
    forall|k: int| 0 <= k < ps.len() ==> walk(rows, START_NODE as int, #[trigger] ps[k]) == Some(END_NODE as int)
}

/// The only value sequence leading from the start node to `n` is `l`.
pub open spec fn unique_label(rows: Seq<Seq<ConnectionIR>>, n: int, l: Seq<u16>) -> bool {
    forall|s: Seq<u16>| #[trigger] walk(rows, START_NODE as int, s) == Some(n) ==> s == l
}

/// A walk along `a + b` is the walk along `a`, then along `b` from where it ended.
proof fn lemma_walk_append(rows: Seq<Seq<ConnectionIR>>, n: int, a: Seq<u16>, b: Seq<u16>)
    ensures
        walk(rows, n, a + b) == match walk(rows, n, a) {
            Some(m) => walk(rows, m, b),
            None => None,
        },
    decreases a.len(),
{
    if a.len() == 0 {
        assert(a + b =~= b);
    } else {
        assert((a + b)[0] == a[0]);
        assert((a + b).drop_first() =~= a.drop_first() + b);
        if 0 <= n < rows.len() {
            match first_conn(rows[n], a[0]) {
                Some(j) => {
                    lemma_walk_append(rows, rows[n][j].connecting_to_uuid as int, a.drop_first(), b);
                },
                None => {},
            }
        }
    }
}

/// A walk on a well-formed graph stays on its nodes, and a nonempty one never ends at the start.
proof fn lemma_walk_range(rows: Seq<Seq<ConnectionIR>>, n: int, s: Seq<u16>)
    requires
        graph_ok(rows),
        0 <= n < rows.len(),
    ensures
        walk(rows, n, s) matches Some(m) ==> 0 <= m < rows.len() && (s.len() > 0 ==> m != START_NODE),
    decreases s.len(),
{
    if s.len() > 0 {
        match first_conn(rows[n], s[0]) {
            Some(j) => {
                let c = rows[n][j].connecting_to_uuid as int;
                lemma_walk_range(rows, c, s.drop_first());
            },
            None => {},
        }
    }
}

/// From the end node, only the empty sequence leads anywhere.
proof fn lemma_walk_end(rows: Seq<Seq<ConnectionIR>>, b: Seq<u16>)
    requires
        graph_ok(rows),
    ensures
        walk(rows, END_NODE as int, b) matches Some(m) ==> b.len() == 0 && m == END_NODE,
{
    if b.len() > 0 {
        assert(first_conn(rows[END_NODE as int], b[0]) is None);
    }
}

/// The last step of a walk.
proof fn lemma_walk_last(rows: Seq<Seq<ConnectionIR>>, n: int, s: Seq<u16>)
    requires
        s.len() > 0,
        walk(rows, n, s) is Some,
    ensures
        ({
            let a = s.drop_last();
            let p = walk(rows, n, a)->0;
            &&& walk(rows, n, a) is Some
            &&& 0 <= p < rows.len()
            &&& first_conn(rows[p], s.last()) is Some
            &&& rows[p][first_conn(rows[p], s.last())->0].connecting_to_uuid == walk(rows, n, s)->0
        }),
{
    let a = s.drop_last();
    let l = seq![s.last()];
    assert(s =~= a + l);
    lemma_walk_append(rows, n, a, l);
    let p = walk(rows, n, a)->0;
    assert(l.drop_first() =~= Seq::<u16>::empty());
    assert(l[0] == s.last());
    if 0 <= p < rows.len() {
        match first_conn(rows[p], l[0]) {
            Some(j) => {
                assert(walk(rows, p, l) == walk(rows, rows[p][j].connecting_to_uuid as int, l.drop_first()));
            },
            None => {},
        }
    }
}

/// The first edge carrying a value is where `is_first_conn` says.
proof fn lemma_first_conn_bounds(row: Seq<ConnectionIR>, v: u16)
    ensures
        first_conn(row, v) matches Some(j) ==> is_first_conn(row, v, j),
{
}

/// Pushing an edge whose value the row does not carry leaves the first edges of other values.
proof fn lemma_first_conn_push(row: Seq<ConnectionIR>, e: ConnectionIR, v: u16)
    requires
        first_conn(row, e.value) is None,
    ensures
        first_conn(row.push(e), v) == if v == e.value {
            Some(row.len() as int)
        } else {
            first_conn(row, v)
        },
{
    let r2 = row.push(e);
    if v == e.value {
        assert forall|k: int| 0 <= k < row.len() implies row[k].value != v by {
            if row[k].value == v {
                lemma_first_exists(row, v, k);
            }
        }
        assert(is_first_conn(r2, v, row.len() as int));
        lemma_first_conn(r2, v, row.len() as int);
    } else {
        match first_conn(row, v) {
            Some(j) => {
                assert(is_first_conn(row, v, j));
                assert(is_first_conn(r2, v, j));
                lemma_first_conn(r2, v, j);
            },
            None => {
                assert forall|k: int| 0 <= k < row.len() implies row[k].value != v by {
                    if row[k].value == v {
                        lemma_first_exists(row, v, k);
                    }
                }
                assert(!exists|j: int| is_first_conn(r2, v, j));
            },
        }
    }
}

/// A row carrying `v` somewhere has a first edge carrying it.
proof fn lemma_first_exists(row: Seq<ConnectionIR>, v: u16, k: int)
    requires
        0 <= k < row.len(),
        row[k].value == v,
    ensures
        exists|j: int| is_first_conn(row, v, j),
    decreases k,
{
    if exists|k2: int| 0 <= k2 < k && row[k2].value == v {
        let k2 = choose|k2: int| 0 <= k2 < k && row[k2].value == v;
        lemma_first_exists(row, v, k2);
    } else {
        assert(is_first_conn(row, v, k));
    }
}

/// Two rows carrying the same values in the same order have their first edges at the same
/// positions.
proof fn lemma_first_conn_same_values(r1: Seq<ConnectionIR>, r2: Seq<ConnectionIR>, v: u16)
    requires
        r1.len() == r2.len(),
        forall|k: int| #![trigger r1[k]] #![trigger r2[k]] 0 <= k < r1.len() ==> r1[k].value == r2[k].value,
    ensures
        first_conn(r1, v) == first_conn(r2, v),
{
    match first_conn(r1, v) {
        Some(j) => {
            assert(is_first_conn(r1, v, j));
            assert(is_first_conn(r2, v, j));
            lemma_first_conn(r2, v, j);
        },
        None => {
            if exists|j: int| is_first_conn(r2, v, j) {
                let j = choose|j: int| is_first_conn(r2, v, j);
                assert(is_first_conn(r1, v, j));
            }
        },
    }
}

/// The graph with an edge `e` pushed onto the row of node `u`.
pub open spec fn add_edge(rows: Seq<Seq<ConnectionIR>>, u: int, e: ConnectionIR) -> Seq<Seq<ConnectionIR>> {
    rows.update(u, rows[u].push(e))
}

/// Adding an edge with a value its node did not carry keeps every walk that had an end.
proof fn lemma_add_edge_keeps(rows: Seq<Seq<ConnectionIR>>, u: int, e: ConnectionIR, n: int, s: Seq<u16>)
    requires
        0 <= u < rows.len(),
        first_conn(rows[u], e.value) is None,
    ensures
        walk(rows, n, s) matches Some(m) ==> walk(add_edge(rows, u, e), n, s) == Some(m),
    decreases s.len(),
{
    let r2 = add_edge(rows, u, e);
    if s.len() > 0 && 0 <= n < rows.len() {
        if n == u {
            lemma_first_conn_push(rows[u], e, s[0]);
        }
        match first_conn(rows[n], s[0]) {
            Some(j) => {
                lemma_first_conn_bounds(rows[n], s[0]);
                assert(r2[n][j] == rows[n][j]);
                lemma_add_edge_keeps(rows, u, e, rows[n][j].connecting_to_uuid as int, s.drop_first());
            },
            None => {},
        }
    }
}

/// A walk on the graph with an added edge is an old walk, or goes to the edge's node, along
/// the edge, and on from there.
proof fn lemma_add_edge_new(rows: Seq<Seq<ConnectionIR>>, u: int, e: ConnectionIR, n: int, s: Seq<u16>)
    requires
        0 <= u < rows.len(),
        first_conn(rows[u], e.value) is None,
    ensures
        walk(add_edge(rows, u, e), n, s) matches Some(m) ==> walk(rows, n, s) == Some(m) || exists|
            a: Seq<u16>,
            b: Seq<u16>,
        |
            s == a + seq![e.value] + b && walk(rows, n, a) == Some(u) && walk(
                add_edge(rows, u, e),
                e.connecting_to_uuid as int,
                b,
            ) == Some(m),
    decreases s.len(),
{
    let r2 = add_edge(rows, u, e);
    if s.len() > 0 && 0 <= n < rows.len() {
        if n == u {
            lemma_first_conn_push(rows[u], e, s[0]);
        }
        if n == u && s[0] == e.value {
            let a = Seq::<u16>::empty();
            let b = s.drop_first();
            assert(s =~= a + seq![e.value] + b);
            assert(r2[u][rows[u].len() as int] == e);
            assert(walk(r2, n, s) == walk(r2, e.connecting_to_uuid as int, b));
            assert(walk(rows, n, a) == Some(u));
        } else {
            match first_conn(rows[n], s[0]) {
                Some(j) => {
                    lemma_first_conn_bounds(rows[n], s[0]);
                    assert(r2[n][j] == rows[n][j]);
                    let c = rows[n][j].connecting_to_uuid as int;
                    lemma_add_edge_new(rows, u, e, c, s.drop_first());
                    assert(walk(r2, n, s) == walk(r2, c, s.drop_first()));
                    assert(walk(rows, n, s) == walk(rows, c, s.drop_first()));
                    if walk(r2, n, s) is Some && walk(rows, n, s) != walk(r2, n, s) {
                        let m = walk(r2, n, s)->0;
                        let (a2, b) = choose|a2: Seq<u16>, b: Seq<u16>|
                            s.drop_first() == a2 + seq![e.value] + b && walk(rows, c, a2) == Some(u)
                                && walk(r2, e.connecting_to_uuid as int, b) == Some(m);
                        let a = seq![s[0]] + a2;
                        assert(a[0] == s[0]);
                        assert(a.drop_first() =~= a2);
                        assert(walk(rows, n, a) == walk(rows, c, a2));
                        assert(s =~= seq![s[0]] + s.drop_first());
                        assert(a + seq![e.value] + b =~= seq![s[0]] + (a2 + seq![e.value] + b));
                        assert(s == a + seq![e.value] + b);
                    }
                },
                None => {
                    if n == u {
                        assert(first_conn(r2[n], s[0]) is None);
                    } else {
                        assert(r2[n] == rows[n]);
                    }
                },
            }
        }
    }
}

/// Adding a node keeps every walk from an old node.
proof fn lemma_push_row_keeps(rows: Seq<Seq<ConnectionIR>>, r: Seq<ConnectionIR>, n: int, s: Seq<u16>)
    requires
        forall|a: int, e: int|
            0 <= a < rows.len() && 0 <= e < rows[a].len() ==> #[trigger] rows[a][e].connecting_to_uuid
                < rows.len(),
        0 <= n < rows.len(),
    ensures
        walk(rows.push(r), n, s) == walk(rows, n, s),
    decreases s.len(),
{
    if s.len() > 0 {
        assert(rows.push(r)[n] == rows[n]);
        match first_conn(rows[n], s[0]) {
            Some(j) => {
                lemma_first_conn_bounds(rows[n], s[0]);
                lemma_push_row_keeps(rows, r, rows[n][j].connecting_to_uuid as int, s.drop_first());
            },
            None => {},
        }
    }
}

/// The graph with the edge `j` of node `u` redirected to a fresh copy of the node it led to.
pub open spec fn cow(rows: Seq<Seq<ConnectionIR>>, u: int, j: int) -> Seq<Seq<ConnectionIR>> {
    let c = rows[u][j].connecting_to_uuid as int;
    rows.push(rows[c]).update(
        u,
        rows[u].update(j, ConnectionIR { connecting_to_uuid: rows.len() as u32, value: rows[u][j].value }),
    )
}

/// The node of the old graph that a node of the copied graph stands for.
pub open spec fn cow_orig(rows: Seq<Seq<ConnectionIR>>, u: int, j: int, n: int) -> int {
    if n == rows.len() {
        rows[u][j].connecting_to_uuid as int
    } else {
        n
    }
}

/// Walks on the graph with a copied node end where they ended before, the copy standing for the
/// node it copies.
proof fn lemma_cow_walk(rows: Seq<Seq<ConnectionIR>>, u: int, j: int, n: int, s: Seq<u16>)
    requires
        graph_ok(rows),
        0 <= u < rows.len(),
        0 <= j < rows[u].len(),
        rows.len() < u32::MAX,
        0 <= n <= rows.len(),
    ensures
        match walk(cow(rows, u, j), n, s) {
            Some(m) => walk(rows, cow_orig(rows, u, j, n), s) == Some(cow_orig(rows, u, j, m)),
            None => walk(rows, cow_orig(rows, u, j, n), s) is None,
        },
    decreases s.len(),
{
    let r2 = cow(rows, u, j);
    let k = rows.len() as int;
    let c = rows[u][j].connecting_to_uuid as int;
    let fo = cow_orig(rows, u, j, n);
    if s.len() > 0 {
        let row2 = r2[n];
        let row1 = rows[fo];
        assert(row2.len() == row1.len());
        assert forall|e: int| #![trigger row2[e]] #![trigger row1[e]] 0 <= e < row2.len() implies row2[e].value
            == row1[e].value && cow_orig(rows, u, j, row2[e].connecting_to_uuid as int)
            == row1[e].connecting_to_uuid as int && 0 <= row2[e].connecting_to_uuid <= k by {
            if n == u && e == j {
            } else if n == u {
                assert(row2[e] == rows[u][e]);
            } else if n == k {
                assert(row2[e] == rows[c][e]);
            } else {
                assert(row2[e] == rows[n][e]);
            }
        }
        lemma_first_conn_same_values(row2, row1, s[0]);
        match first_conn(row2, s[0]) {
            Some(e) => {
                lemma_first_conn_bounds(row2, s[0]);
                let t2 = row2[e].connecting_to_uuid as int;
                lemma_cow_walk(rows, u, j, t2, s.drop_first());
            },
            None => {},
        }
    }
}

/// An edge to `c` counts.
proof fn lemma_row_count_one(row: Seq<ConnectionIR>, c: u32, e: int)
    requires
        0 <= e < row.len(),
        row[e].connecting_to_uuid == c,
    ensures
        row_count(row, c) >= 1,
    decreases row.len(),
{
    if e < row.len() - 1 {
        lemma_row_count_one(row.drop_last(), c, e);
    }
}

/// Two edges of one row to `c` count twice.
proof fn lemma_row_count_two(row: Seq<ConnectionIR>, c: u32, e1: int, e2: int)
    requires
        0 <= e1 < e2 < row.len(),
        row[e1].connecting_to_uuid == c,
        row[e2].connecting_to_uuid == c,
    ensures
        row_count(row, c) >= 2,
    decreases row.len(),
{
    if e2 < row.len() - 1 {
        lemma_row_count_two(row.drop_last(), c, e1, e2);
    } else {
        lemma_row_count_one(row.drop_last(), c, e1);
    }
}

/// The edges of one row to `c` count towards its in-degree.
proof fn lemma_in_degree_row(rows: Seq<Seq<ConnectionIR>>, c: u32, a: int)
    requires
        0 <= a < rows.len(),
    ensures
        in_degree(rows, c) >= row_count(rows[a], c),
    decreases rows.len(),
{
    if a < rows.len() - 1 {
        lemma_in_degree_row(rows.drop_last(), c, a);
    }
}

/// The edges of two rows to `c` count towards its in-degree.
proof fn lemma_in_degree_rows(rows: Seq<Seq<ConnectionIR>>, c: u32, a1: int, a2: int)
    requires
        0 <= a1 < a2 < rows.len(),
    ensures
        in_degree(rows, c) >= row_count(rows[a1], c) + row_count(rows[a2], c),
    decreases rows.len(),
{
    if a2 < rows.len() - 1 {
        lemma_in_degree_rows(rows.drop_last(), c, a1, a2);
    } else {
        lemma_in_degree_row(rows.drop_last(), c, a1);
    }
}

/// Two different edges leading to `c` make it shared.
proof fn lemma_two_edges(rows: Seq<Seq<ConnectionIR>>, c: u32, a1: int, e1: int, a2: int, e2: int)
    requires
        0 <= a1 < rows.len(),
        0 <= a2 < rows.len(),
        0 <= e1 < rows[a1].len(),
        0 <= e2 < rows[a2].len(),
        rows[a1][e1].connecting_to_uuid == c,
        rows[a2][e2].connecting_to_uuid == c,
        a1 != a2 || e1 != e2,
    ensures
        in_degree(rows, c) >= 2,
{
    if a1 == a2 {
        if e1 < e2 {
            lemma_row_count_two(rows[a1], c, e1, e2);
        } else {
            lemma_row_count_two(rows[a1], c, e2, e1);
        }
        lemma_in_degree_row(rows, c, a1);
    } else {
        lemma_row_count_one(rows[a1], c, e1);
        lemma_row_count_one(rows[a2], c, e2);
        if a1 < a2 {
            lemma_in_degree_rows(rows, c, a1, a2);
        } else {
            lemma_in_degree_rows(rows, c, a2, a1);
        }
    }
}

/// From the start of a chain spelling `sfx`, the walks that end anywhere are the prefixes of
/// `sfx`, and only `sfx` itself reaches the end node.
proof fn lemma_chain_walk(rows: Seq<Seq<ConnectionIR>>, v: int, sfx: Seq<u16>, b: Seq<u16>)
    requires
        graph_ok(rows),
        chain_is(rows, v, sfx),
    ensures
        walk(rows, v, sfx) == Some(END_NODE as int),
        walk(rows, v, b) matches Some(m) ==> b.len() <= sfx.len() && sfx.take(b.len() as int) == b && (m
            == END_NODE as int <==> b.len() == sfx.len()),
    decreases sfx.len(),
{
    if sfx.len() == 0 {
        lemma_walk_end(rows, b);
    } else {
        let c = rows[v][0].connecting_to_uuid as int;
        assert(is_first_conn(rows[v], sfx[0], 0));
        lemma_first_conn(rows[v], sfx[0], 0);
        lemma_chain_walk(rows, c, sfx.drop_first(), if b.len() > 0 { b.drop_first() } else { b });
        if b.len() > 0 {
            if b[0] == sfx[0] {
                lemma_first_conn(rows[v], b[0], 0);
                assert(walk(rows, v, b) == walk(rows, c, b.drop_first()));
                if walk(rows, v, b) is Some {
                    let t = sfx.drop_first().take(b.len() - 1);
                    assert(t == b.drop_first());
                    assert(sfx.take(b.len() as int) =~= seq![sfx[0]] + t);
                    assert(b =~= seq![b[0]] + b.drop_first());
                }
            } else {
                assert(!exists|j: int| is_first_conn(rows[v], b[0], j));
            }
        } else {
            assert(sfx.take(0) =~= b);
        }
    }
}

/// An edge added at a node the chain avoids keeps the chain.
proof fn lemma_chain_kept(rows: Seq<Seq<ConnectionIR>>, v: int, sfx: Seq<u16>, u: int, e: ConnectionIR)
    requires
        0 <= u < rows.len(),
        chain_is(rows, v, sfx),
        chain_avoids(rows, v, sfx, u),
    ensures
        chain_is(add_edge(rows, u, e), v, sfx),
    decreases sfx.len(),
{
    if sfx.len() > 0 {
        lemma_chain_kept(rows, rows[v][0].connecting_to_uuid as int, sfx.drop_first(), u, e);
    }
}


/// A sequence that the graph leads to the end node, or that is a whole pattern, decides
/// where a prefix-free pattern's walk stops.
proof fn lemma_walk_stop(rows: Seq<Seq<ConnectionIR>>, ps: Seq<Seq<u16>>, q: Seq<u16>, k: int, m: int)
    requires
        sound(rows, ps.push(q)),
        prefix_free(ps.push(q)),
        0 < k <= q.len(),
        walk(rows, START_NODE as int, q.take(k)) == Some(m),
    ensures
        m == END_NODE as int <==> k == q.len(),
{
    let pp = ps.push(q);
    let l = pp.len() - 1;
    assert(pp[l] == q);
    let s = q.take(k);
    if m == END_NODE as int && k < q.len() {
        assert(pp.contains(s));
        let a = choose|a: int| 0 <= a < pp.len() && pp[a] == s;
        assert(is_strict_prefix(pp[a], pp[l]));
    }
    if k == q.len() && m != END_NODE as int {
        assert(s =~= q);
        let a = choose|a: int| 0 <= a < pp.len() && is_strict_prefix(s, pp[a]);
        assert(is_strict_prefix(pp[l], pp[a]));
    }
}

/// One step of a walk: from the node reached by `l`, the first edge carrying `v`.
proof fn lemma_walk_step(rows: Seq<Seq<ConnectionIR>>, l: Seq<u16>, v: u16, cur: int, j: int)
    requires
        walk(rows, START_NODE as int, l) == Some(cur),
        0 <= cur < rows.len(),
        first_conn(rows[cur], v) == Some(j),
    ensures
        walk(rows, START_NODE as int, l.push(v)) == Some(rows[cur][j].connecting_to_uuid as int),
{
    let t = seq![v];
    assert(l.push(v) =~= l + t);
    lemma_walk_append(rows, START_NODE as int, l, t);
    assert(t.drop_first() =~= Seq::<u16>::empty());
    assert(walk(rows, cur, t) == walk(rows, rows[cur][j].connecting_to_uuid as int, t.drop_first()));
}

/// Following the only edge into `c` from a node with a unique label gives `c` a unique label.
proof fn lemma_follow_unique(rows: Seq<Seq<ConnectionIR>>, l: Seq<u16>, cur: int, j: int)
    requires
        graph_ok(rows),
        0 <= cur < rows.len(),
        0 <= j < rows[cur].len(),
        unique_label(rows, cur, l),
        in_degree(rows, rows[cur][j].connecting_to_uuid) < 2,
    ensures
        unique_label(rows, rows[cur][j].connecting_to_uuid as int, l.push(rows[cur][j].value)),
{
    let c = rows[cur][j].connecting_to_uuid;
    assert forall|s: Seq<u16>| #[trigger] walk(rows, START_NODE as int, s) == Some(c as int) implies s
        == l.push(rows[cur][j].value) by {
        if s.len() == 0 {
            assert(rows[cur][j].connecting_to_uuid != START_NODE);
        } else {
            lemma_walk_last(rows, START_NODE as int, s);
            let p = walk(rows, START_NODE as int, s.drop_last())->0;
            let e = first_conn(rows[p], s.last())->0;
            lemma_first_conn_bounds(rows[p], s.last());
            if p != cur || e != j {
                lemma_two_edges(rows, c, p, e, cur, j);
            }
            assert(s =~= s.drop_last().push(s.last()));
        }
    }
}

/// In the copied graph the redirected edge is the only one into the copy.
proof fn lemma_cow_into_copy(rows: Seq<Seq<ConnectionIR>>, u: int, j: int, a: int, e: int)
    requires
        graph_ok(rows),
        0 <= u < rows.len(),
        0 <= j < rows[u].len(),
        rows.len() < u32::MAX,
        0 <= a < cow(rows, u, j).len(),
        0 <= e < cow(rows, u, j)[a].len(),
    ensures
        cow(rows, u, j)[a][e].connecting_to_uuid <= rows.len(),
        cow(rows, u, j)[a][e].connecting_to_uuid != START_NODE,
        cow(rows, u, j)[a][e].connecting_to_uuid == rows.len() ==> a == u && e == j,
{
    let c = rows[u][j].connecting_to_uuid as int;
    let r2 = cow(rows, u, j);
    if a == u && e == j {
    } else if a == u {
        assert(r2[a][e] == rows[u][e]);
    } else if a == rows.len() {
        assert(r2[a] == rows[c]);
    } else {
        assert(r2[a] == rows[a]);
    }
}

/// Copying the node behind edge `j` of `cur` keeps the graph well formed, and keeps every walk
/// ending where it ended (the copy standing for the node it copies).
proof fn lemma_cow_ok(rows: Seq<Seq<ConnectionIR>>, ps: Seq<Seq<u16>>, pp: Seq<Seq<u16>>, u: int, j: int)
    requires
        graph_ok(rows),
        sound(rows, pp),
        complete(rows, ps),
        0 <= u < rows.len(),
        u != END_NODE as int,
        0 <= j < rows[u].len(),
        rows[u][j].connecting_to_uuid != END_NODE,
        rows.len() < u32::MAX,
    ensures
        graph_ok(cow(rows, u, j)),
        sound(cow(rows, u, j), pp),
        complete(cow(rows, u, j), ps),
        cow(rows, u, j).len() == rows.len() + 1,
{
    let r2 = cow(rows, u, j);
    let c = rows[u][j].connecting_to_uuid as int;
    assert forall|a: int, e: int| 0 <= a < r2.len() && 0 <= e < r2[a].len() implies #[trigger] r2[a][e].connecting_to_uuid
        < r2.len() && r2[a][e].connecting_to_uuid != START_NODE by {
        lemma_cow_into_copy(rows, u, j, a, e);
    }
    assert(r2[END_NODE as int] == rows[END_NODE as int]);
    assert(graph_ok(r2));
    assert forall|s: Seq<u16>| #![trigger walk(r2, START_NODE as int, s)] sound_at(r2, pp, s) by {
        lemma_cow_walk(rows, u, j, START_NODE as int, s);
        lemma_walk_range(r2, START_NODE as int, s);
        if walk(r2, START_NODE as int, s) is Some {
            let m = walk(r2, START_NODE as int, s)->0;
            assert(walk(rows, START_NODE as int, s) == Some(cow_orig(rows, u, j, m)));
            assert(sound_at(rows, pp, s));
        }
    }
    assert forall|k: int| 0 <= k < ps.len() implies walk(r2, START_NODE as int, #[trigger] ps[k]) == Some(
        END_NODE as int,
    ) by {
        assert(walk(rows, START_NODE as int, ps[k]) == Some(END_NODE as int));
        lemma_cow_walk(rows, u, j, START_NODE as int, ps[k]);
    }
}

/// After copying, the node with a unique label is still reached by it, and the copy is reached
/// only by that label and the value of the redirected edge.
proof fn lemma_cow_label(rows: Seq<Seq<ConnectionIR>>, l: Seq<u16>, u: int, j: int)
    requires
        graph_ok(rows),
        0 <= u < rows.len(),
        0 <= j < rows[u].len(),
        rows.len() < u32::MAX,
        walk(rows, START_NODE as int, l) == Some(u),
        unique_label(rows, u, l),
        first_conn(rows[u], rows[u][j].value) == Some(j),
    ensures
        walk(cow(rows, u, j), START_NODE as int, l) == Some(u),
        walk(cow(rows, u, j), START_NODE as int, l.push(rows[u][j].value)) == Some(rows.len() as int),
        unique_label(cow(rows, u, j), rows.len() as int, l.push(rows[u][j].value)),
{
    let r2 = cow(rows, u, j);
    let k = rows.len() as int;
    let v = rows[u][j].value;
    lemma_cow_walk(rows, u, j, START_NODE as int, l);
    let m = walk(r2, START_NODE as int, l)->0;
    if m != u {
        // the walk ends at the copy: its last edge is the redirected one
        lemma_walk_last(r2, START_NODE as int, l);
        let p = walk(r2, START_NODE as int, l.drop_last())->0;
        let e = first_conn(r2[p], l.last())->0;
        lemma_first_conn_bounds(r2[p], l.last());
        lemma_cow_into_copy(rows, u, j, p, e);
        lemma_cow_walk(rows, u, j, START_NODE as int, l.drop_last());
        assert(walk(rows, START_NODE as int, l.drop_last()) == Some(u));
        assert(l.drop_last().len() != l.len());
    }
    assert(r2[u].len() == rows[u].len());
    assert forall|e: int| #![trigger r2[u][e]] #![trigger rows[u][e]] 0 <= e < r2[u].len() implies r2[u][e].value
        == rows[u][e].value by {
        if e != j {
            assert(r2[u][e] == rows[u][e]);
        }
    }
    lemma_first_conn_same_values(r2[u], rows[u], v);
    lemma_walk_step(r2, l, v, u, j);
    assert forall|s: Seq<u16>| #[trigger] walk(r2, START_NODE as int, s) == Some(k) implies s == l.push(v) by {
        if s.len() == 0 {
        } else {
            lemma_walk_last(r2, START_NODE as int, s);
            let p = walk(r2, START_NODE as int, s.drop_last())->0;
            let e = first_conn(r2[p], s.last())->0;
            lemma_first_conn_bounds(r2[p], s.last());
            lemma_cow_into_copy(rows, u, j, p, e);
            lemma_cow_walk(rows, u, j, START_NODE as int, s.drop_last());
            assert(walk(rows, START_NODE as int, s.drop_last()) == Some(u));
            assert(s =~= s.drop_last().push(s.last()));
        }
    }
}


/// Adding a pattern whose rest already leads from `node` to the end node adds nothing.
proof fn lemma_add_present(
    rows: Seq<Seq<ConnectionIR>>,
    map: Map<u64, u32>,
    opt: bool,
    q: Seq<u16>,
    hashes: Seq<u64>,
    k: int,
    node: int,
)
    requires
        graph_ok(rows),
        0 <= k <= q.len(),
        0 <= node < rows.len(),
        walk(rows, node, q.skip(k)) == Some(END_NODE as int),
    ensures
        spec_add_from(rows, map, opt, q, hashes, k, node) == (rows, map),
    decreases q.len() - k,
{
    if k < q.len() {
        let s = q.skip(k);
        assert(s[0] == q[k]);
        assert(s.drop_first() =~= q.skip(k + 1));
        match first_conn(rows[node], q[k]) {
            Some(j) => {
                lemma_first_conn_bounds(rows[node], q[k]);
                let c = rows[node][j].connecting_to_uuid as int;
                lemma_add_present(rows, map, opt, q, hashes, k + 1, c);
            },
            None => {},
        }
    }
}

/// An added edge from a node with a unique label, to a node from which the walks `b` reach
/// only `ok(b)`-ending places: every new walk from the start node is the label, the edge's
/// value, and such a `b`.
proof fn lemma_edge_walks(
    rows: Seq<Seq<ConnectionIR>>,
    l: Seq<u16>,
    u: int,
    e: ConnectionIR,
    s: Seq<u16>,
)
    requires
        0 <= u < rows.len(),
        first_conn(rows[u], e.value) is None,
        unique_label(rows, u, l),
        walk(add_edge(rows, u, e), START_NODE as int, s) is Some,
        walk(rows, START_NODE as int, s) != walk(add_edge(rows, u, e), START_NODE as int, s),
    ensures
        exists|b: Seq<u16>|
            s == l + seq![e.value] + b && walk(add_edge(rows, u, e), e.connecting_to_uuid as int, b)
                == walk(add_edge(rows, u, e), START_NODE as int, s),
{
    lemma_add_edge_new(rows, u, e, START_NODE as int, s);
    let m = walk(add_edge(rows, u, e), START_NODE as int, s)->0;
    let (a, b) = choose|a: Seq<u16>, b: Seq<u16>|
        s == a + seq![e.value] + b && walk(rows, START_NODE as int, a) == Some(u) && walk(
            add_edge(rows, u, e),
            e.connecting_to_uuid as int,
            b,
        ) == Some(m);
    assert(a == l);
}

/// Adding the rest of pattern `q`, from position `i` at node `cur`, to a graph that recognises
/// exactly the patterns `ps` (and their prefixes) gives a graph that recognises `q` too.
#[verifier::spinoff_prover]
#[verifier::rlimit(50)]
proof fn lemma_add_from(
    rows: Seq<Seq<ConnectionIR>>,
    map: Map<u64, u32>,
    opt: bool,
    q: Seq<u16>,
    hashes: Seq<u64>,
    i: int,
    cur: int,
    ps: Seq<Seq<u16>>,
)
    requires
        graph_ok(rows),
        sound(rows, ps.push(q)),
        complete(rows, ps),
        prefix_free(ps.push(q)),
        0 <= i < q.len(),
        walk(rows, START_NODE as int, q.take(i)) == Some(cur),
        unique_label(rows, cur, q.take(i)),
        cur != END_NODE as int,
        rows.len() + (q.len() - i) <= u32::MAX,
    ensures
        ({
            let r = spec_add_from(rows, map, opt, q, hashes, i, cur).0;
            &&& graph_ok(r)
            &&& sound(r, ps.push(q))
            &&& complete(r, ps)
            &&& walk(r, START_NODE as int, q) == Some(END_NODE as int)
            &&& r.len() <= rows.len() + (q.len() - i)
        }),
    decreases q.len() - i,
{
    let pp = ps.push(q);
    let l = q.take(i);
    let v = q[i];
    lemma_walk_range(rows, START_NODE as int, l);
    assert(q.take(i + 1) =~= l.push(v));
    assert(pp[pp.len() - 1] == q);
    assert(q.take(q.len() as int) =~= q);
    match first_conn(rows[cur], v) {
        Some(j) => {
            lemma_first_conn_bounds(rows[cur], v);
            let c = rows[cur][j].connecting_to_uuid;
            lemma_walk_step(rows, l, v, cur, j);
            lemma_walk_stop(rows, ps, q, i + 1, c as int);
            if c == END_NODE {
                assert(spec_add_from(rows, map, opt, q, hashes, i + 1, c as int) == (rows, map));
                assert(spec_add_from(rows, map, opt, q, hashes, i, cur).0 == rows);
            } else if walk(rows, c as int, q.skip(i + 1)) == Some(END_NODE as int) {
                // the rest of the pattern is there already: nothing is added
                lemma_add_present(rows, map, opt, q, hashes, i + 1, c as int);
                assert(spec_add_from(rows, map, opt, q, hashes, i, cur) == spec_add_from(rows, map, opt, q, hashes, i + 1, c as int));
                assert(q =~= q.take(i + 1) + q.skip(i + 1));
                lemma_walk_append(rows, START_NODE as int, q.take(i + 1), q.skip(i + 1));
            } else if in_degree(rows, c) >= 2 {
                let rows2 = cow(rows, cur, j);
                let copy = rows.len() as int;
                assert(rows2 == rows.push(rows[c as int]).update(
                    cur,
                    rows[cur].update(j, ConnectionIR { connecting_to_uuid: copy as u32, value: q[i] }),
                ));
                lemma_cow_ok(rows, ps, pp, cur, j);
                lemma_cow_label(rows, l, cur, j);
                lemma_add_from(rows2, map, opt, q, hashes, i + 1, copy, ps);
                assert(spec_add_from(rows, map, opt, q, hashes, i, cur) == spec_add_from(rows2, map, opt, q, hashes, i + 1, copy));
            } else {
                lemma_follow_unique(rows, l, cur, j);
                lemma_add_from(rows, map, opt, q, hashes, i + 1, c as int, ps);
                assert(spec_add_from(rows, map, opt, q, hashes, i, cur) == spec_add_from(rows, map, opt, q, hashes, i + 1, c as int));
            }
        },
        None => {
            let h = hashes[i];
            let sfx = q.skip(i + 1);
            if i == q.len() - 1 {
                let e = ConnectionIR { connecting_to_uuid: END_NODE, value: v };
                let r = add_edge(rows, cur, e);
                assert(r[END_NODE as int] == rows[END_NODE as int]);
                assert forall|a: int, k: int| 0 <= a < r.len() && 0 <= k < r[a].len() implies #[trigger] r[a][k].connecting_to_uuid
                    < r.len() && r[a][k].connecting_to_uuid != START_NODE by {
                    if a != cur || k < rows[cur].len() {
                        assert(r[a][k] == rows[a][k]);
                    }
                }
                assert forall|s: Seq<u16>| #![trigger walk(r, START_NODE as int, s)] sound_at(r, pp, s) by {
                    lemma_add_edge_keeps(rows, cur, e, START_NODE as int, s);
                    assert(sound_at(rows, pp, s));
                    if walk(r, START_NODE as int, s) is Some && walk(rows, START_NODE as int, s) != walk(r, START_NODE as int, s) {
                        lemma_edge_walks(rows, l, cur, e, s);
                        let b = choose|b: Seq<u16>|
                            s == l + seq![e.value] + b && walk(r, e.connecting_to_uuid as int, b) == walk(r, START_NODE as int, s);
                        lemma_walk_end(r, b);
                        assert(s =~= q);
                    }
                }
                assert forall|k: int| 0 <= k < ps.len() implies walk(r, START_NODE as int, #[trigger] ps[k]) == Some(
                    END_NODE as int,
                ) by {
                    assert(walk(rows, START_NODE as int, ps[k]) == Some(END_NODE as int));
                    lemma_add_edge_keeps(rows, cur, e, START_NODE as int, ps[k]);
                }
                lemma_add_edge_keeps(rows, cur, e, START_NODE as int, l);
                lemma_first_conn_push(rows[cur], e, v);
                lemma_walk_step(r, l, v, cur, rows[cur].len() as int);
                assert(spec_add_from(rows, map, opt, q, hashes, i, cur).0 == r);
            } else if map.contains_key(h) && chain_is(rows, map[h] as int, sfx) && chain_avoids(
                rows,
                map[h] as int,
                sfx,
                cur,
            ) {
                let t = map[h];
                let e = ConnectionIR { connecting_to_uuid: t, value: v };
                let r = add_edge(rows, cur, e);
                assert(r[END_NODE as int] == rows[END_NODE as int]);
                assert forall|a: int, k: int| 0 <= a < r.len() && 0 <= k < r[a].len() implies #[trigger] r[a][k].connecting_to_uuid
                    < r.len() && r[a][k].connecting_to_uuid != START_NODE by {
                    if a != cur || k < rows[cur].len() {
                        assert(r[a][k] == rows[a][k]);
                    }
                }
                assert(graph_ok(r));
                lemma_chain_kept(rows, t as int, sfx, cur, e);
                assert forall|s: Seq<u16>| #![trigger walk(r, START_NODE as int, s)] sound_at(r, pp, s) by {
                    lemma_add_edge_keeps(rows, cur, e, START_NODE as int, s);
                    assert(sound_at(rows, pp, s));
                    if walk(r, START_NODE as int, s) is Some && walk(rows, START_NODE as int, s) != walk(r, START_NODE as int, s) {
                        lemma_edge_walks(rows, l, cur, e, s);
                        let b = choose|b: Seq<u16>|
                            s == l + seq![e.value] + b && walk(r, e.connecting_to_uuid as int, b) == walk(r, START_NODE as int, s);
                        lemma_chain_walk(r, t as int, sfx, b);
                        assert(s =~= q.take(i + 1 + b.len()));
                        if b.len() < sfx.len() {
                            assert(is_strict_prefix(s, pp[pp.len() - 1]));
                        } else {
                            assert(s =~= q);
                        }
                    }
                }
                assert forall|k: int| 0 <= k < ps.len() implies walk(r, START_NODE as int, #[trigger] ps[k]) == Some(
                    END_NODE as int,
                ) by {
                    assert(walk(rows, START_NODE as int, ps[k]) == Some(END_NODE as int));
                    lemma_add_edge_keeps(rows, cur, e, START_NODE as int, ps[k]);
                }
                lemma_add_edge_keeps(rows, cur, e, START_NODE as int, l);
                lemma_first_conn_push(rows[cur], e, v);
                lemma_walk_step(r, l, v, cur, rows[cur].len() as int);
                lemma_chain_walk(r, t as int, sfx, sfx);
                assert(q =~= l.push(v) + sfx);
                lemma_walk_append(r, START_NODE as int, l.push(v), sfx);
                assert(spec_add_from(rows, map, opt, q, hashes, i, cur).0 == r);
            } else {
                let next = rows.len() as int;
                let rows2 = rows.push(Seq::<ConnectionIR>::empty());
                let map2 = if opt { map.insert(h, next as u32) } else { map };
                let e = ConnectionIR { connecting_to_uuid: next as u32, value: v };
                let rows3 = add_edge(rows2, cur, e);
                assert(rows3 == rows2.update(cur, rows2[cur].push(e)));
                assert(rows2[cur] == rows[cur]);
                assert(rows3[END_NODE as int] == rows[END_NODE as int]);
                assert(rows3[next].len() == 0);
                assert forall|a: int, k: int| 0 <= a < rows3.len() && 0 <= k < rows3[a].len() implies #[trigger] rows3[a][k].connecting_to_uuid
                    < rows3.len() && rows3[a][k].connecting_to_uuid != START_NODE by {
                    if a != cur || k < rows[cur].len() {
                        assert(rows3[a][k] == rows[a][k]);
                    }
                }
                assert(graph_ok(rows3));
                assert forall|s: Seq<u16>| #![trigger walk(rows3, START_NODE as int, s)] sound_at(rows3, pp, s) && (
                    walk(rows3, START_NODE as int, s) == Some(next) ==> s == l.push(v)) by {
                    lemma_push_row_keeps(rows, Seq::<ConnectionIR>::empty(), START_NODE as int, s);
                    lemma_add_edge_keeps(rows2, cur, e, START_NODE as int, s);
                    lemma_walk_range(rows, START_NODE as int, s);
                    assert(sound_at(rows, pp, s));
                    if walk(rows3, START_NODE as int, s) is Some && walk(rows2, START_NODE as int, s) != walk(rows3, START_NODE as int, s) {
                        assert forall|z: Seq<u16>| #[trigger] walk(rows2, START_NODE as int, z) == Some(cur) implies z == l by {
                            lemma_push_row_keeps(rows, Seq::<ConnectionIR>::empty(), START_NODE as int, z);
                        }
                        lemma_edge_walks(rows2, l, cur, e, s);
                        let b = choose|b: Seq<u16>|
                            s == l + seq![e.value] + b && walk(rows3, e.connecting_to_uuid as int, b) == walk(rows3, START_NODE as int, s);
                        if b.len() > 0 {
                            lemma_no_conn(rows3[next], b[0]);
                        }
                        assert(s =~= q.take(i + 1));
                        assert(is_strict_prefix(s, pp[pp.len() - 1]));
                    }
                }
                assert forall|k: int| 0 <= k < ps.len() implies walk(rows3, START_NODE as int, #[trigger] ps[k]) == Some(
                    END_NODE as int,
                ) by {
                    assert(walk(rows, START_NODE as int, ps[k]) == Some(END_NODE as int));
                    lemma_push_row_keeps(rows, Seq::<ConnectionIR>::empty(), START_NODE as int, ps[k]);
                    lemma_add_edge_keeps(rows2, cur, e, START_NODE as int, ps[k]);
                }
                lemma_push_row_keeps(rows, Seq::<ConnectionIR>::empty(), START_NODE as int, l);
                lemma_add_edge_keeps(rows2, cur, e, START_NODE as int, l);
                lemma_first_conn_push(rows2[cur], e, v);
                lemma_walk_step(rows3, l, v, cur, rows[cur].len() as int);
                lemma_add_from(rows3, map2, opt, q, hashes, i + 1, next, ps);
                assert(spec_add_from(rows, map, opt, q, hashes, i, cur) == spec_add_from(rows3, map2, opt, q, hashes, i + 1, next));
            }
        },
    }
}


/// The empty graph: a start node and an end node, with no edges.
pub open spec fn empty_graph() -> Seq<Seq<ConnectionIR>> {
    seq![Seq::<ConnectionIR>::empty(), Seq::<ConnectionIR>::empty()]
}

/// Adding prefix-free, nonempty patterns one after another to the empty graph: the graph leads
/// every pattern from the start node to the end node, and leads nothing else there.
proof fn lemma_add_all_graph(opt: bool, ps: Seq<Seq<u16>>)
    requires
        prefix_free(ps),
        forall|k: int| 0 <= k < ps.len() ==> #[trigger] ps[k].len() > 0,
        2 + total_len(ps) <= u32::MAX,
    ensures
        ({
            let r = spec_add_all(empty_graph(), Map::empty(), 0, opt, ps).0;
            &&& graph_ok(r)
            &&& sound(r, ps)
            &&& complete(r, ps)
            &&& r.len() <= 2 + total_len(ps)
        }),
    decreases ps.len(),
{
    let r0 = empty_graph();
    if ps.len() == 0 {
        assert forall|s: Seq<u16>| #![trigger walk(r0, START_NODE as int, s)] sound_at(r0, ps, s) by {
            if s.len() > 0 {
                lemma_no_conn(r0[START_NODE as int], s[0]);
            }
        }
    } else {
        let init = ps.drop_last();
        let q = ps.last();
        assert forall|a: int, b: int| 0 <= a < init.len() && 0 <= b < init.len() implies !is_strict_prefix(
            #[trigger] init[a],
            #[trigger] init[b],
        ) by {
            assert(init[a] == ps[a] && init[b] == ps[b]);
        }
        assert forall|k: int| 0 <= k < init.len() implies #[trigger] init[k].len() > 0 by {
            assert(init[k] == ps[k]);
        }
        lemma_add_all_graph(opt, init);
        let prev = spec_add_all(empty_graph(), Map::empty(), 0, opt, init);
        let rows = prev.0;
        assert(init.push(q) =~= ps);
        assert(q.len() > 0) by {
            assert(ps[ps.len() - 1] == q);
        }
        assert forall|s: Seq<u16>| #![trigger walk(rows, START_NODE as int, s)] sound_at(rows, ps, s) by {
            assert(sound_at(rows, init, s));
            if walk(rows, START_NODE as int, s) is Some {
                if init.contains(s) {
                    let a = choose|a: int| 0 <= a < init.len() && init[a] == s;
                    assert(ps[a] == s);
                }
                if exists|k: int| 0 <= k < init.len() && is_strict_prefix(s, init[k]) {
                    let k = choose|k: int| 0 <= k < init.len() && is_strict_prefix(s, init[k]);
                    assert(ps[k] == init[k]);
                }
            }
        }
        assert(q.take(0) =~= Seq::<u16>::empty());
        assert forall|s: Seq<u16>| #[trigger] walk(rows, START_NODE as int, s) == Some(START_NODE as int) implies s
            == q.take(0) by {
            lemma_walk_range(rows, START_NODE as int, s);
        }
        lemma_add_from(rows, prev.1, opt, q, suffix_hashes(q), 0, START_NODE as int, init);
        let r = spec_add_all(empty_graph(), Map::empty(), 0, opt, ps).0;
        assert forall|k: int| 0 <= k < ps.len() implies walk(r, START_NODE as int, #[trigger] ps[k]) == Some(
            END_NODE as int,
        ) by {
            if k < init.len() {
                assert(ps[k] == init[k]);
            }
        }
    }
}

/// Running the state table from `state` over `bytes`, one lookup per byte: the state reached, or
/// None where a byte has no transition.
pub open spec fn run_table(table: Seq<Seq<AcTableElem>>, state: u32, bytes: Seq<u8>) -> Option<u32>
    decreases bytes.len(),
{
    if bytes.len() == 0 {
        Some(state)
    } else {
        match spec_lookup(table, state, bytes[0]) {
            Some(e) => run_table(table, e.next_state, bytes.drop_first()),
            None => None,
        }
    }
}

/// Pattern values that are bytes, as bytes.
pub open spec fn narrow(p: Seq<u16>) -> Seq<u8> {
    p.map_values(|x: u16| x as u8)
}

/// On a graph whose values are all bytes, the state table runs a byte sequence exactly as the
/// graph walks it.
proof fn lemma_run_table(rows: Seq<Seq<ConnectionIR>>, n: int, s: Seq<u16>)
    requires
        graph_ok(rows),
        rows.len() <= u32::MAX,
        values_are_bytes(rows),
        0 <= n < rows.len(),
        forall|x: int| 0 <= x < s.len() ==> #[trigger] s[x] <= 255,
    ensures
        match walk(rows, n, s) {
            Some(m) => run_table(table_rows(rows), n as u32, narrow(s)) == Some(m as u32),
            None => run_table(table_rows(rows), n as u32, narrow(s)) is None,
        },
    decreases s.len(),
{
    let t = table_rows(rows);
    let b = narrow(s);
    if s.len() > 0 {
        let v = s[0];
        assert(b[0] == v as u8);
        assert(b[0] as u16 == v);
        assert(t[n].len() == rows[n].len());
        assert(b.drop_first() =~= narrow(s.drop_first()));
        assert forall|x: int| 0 <= x < s.drop_first().len() implies #[trigger] s.drop_first()[x] <= 255 by {
            assert(s.drop_first()[x] == s[x + 1]);
        }
        assert forall|j: int| #![trigger is_first_elem(t[n], b[0], j)] is_first_elem(t[n], b[0], j)
            <==> is_first_conn(rows[n], v, j) by {
            if 0 <= j < t[n].len() {
                assert(rows[n][j].value <= 255);
                assert(t[n][j].value == rows[n][j].value);
                assert forall|k: int| 0 <= k < j implies (t[n][k].value == b[0] as u16 || t[n][k].value
                    == super::search_common::MATCH_ALL_VALUE) == (rows[n][k].value == v) by {
                    assert(rows[n][k].value <= 255);
                    assert(t[n][k].value == rows[n][k].value);
                }
            }
        }
        match first_conn(rows[n], v) {
            Some(j) => {
                assert(is_first_conn(rows[n], v, j));
                assert(is_first_elem(t[n], b[0], j));
                lemma_lookup_found(t, n as u32, b[0], j);
                lemma_walk_range(rows, n, s);
                lemma_run_table(rows, rows[n][j].connecting_to_uuid as int, s.drop_first());
            },
            None => {
                if exists|j: int| is_first_elem(t[n], b[0], j) {
                    let j = choose|j: int| is_first_elem(t[n], b[0], j);
                    assert(is_first_conn(rows[n], v, j));
                    lemma_first_conn(rows[n], v, j);
                }
            },
        }
    }
}

/// Adding patterns of byte values keeps every edge value a byte.
proof fn lemma_add_all_bytes(opt: bool, ps: Seq<Seq<u16>>)
    requires
        forall|k: int, x: int| 0 <= k < ps.len() && 0 <= x < ps[k].len() ==> #[trigger] ps[k][x] <= 255,
    ensures
        values_are_bytes(spec_add_all(empty_graph(), Map::empty(), 0, opt, ps).0),
    decreases ps.len(),
{
    if ps.len() > 0 {
        let init = ps.drop_last();
        assert forall|k: int, x: int| 0 <= k < init.len() && 0 <= x < init[k].len() implies #[trigger] init[k][x]
            <= 255 by {
            assert(init[k] == ps[k]);
        }
        lemma_add_all_bytes(opt, init);
        let prev = spec_add_all(empty_graph(), Map::empty(), 0, opt, init);
        let q = ps.last();
        assert forall|x: int| 0 <= x < q.len() implies #[trigger] q[x] <= 255 by {
            assert(ps[ps.len() - 1] == q);
        }
        lemma_add_from_bytes(prev.0, prev.1, opt, q, suffix_hashes(q), 0, START_NODE as int);
    }
}

/// Every signature added to a new builder, none of them a proper prefix of another and every
/// value a byte, drives the built state table from the start state to the end state, one lookup
/// per byte; and the end state has no transitions, so no signature runs on past it.
pub proof fn lemma_signatures_recognised(opt: bool, ps: Seq<Seq<u16>>)
    requires
        prefix_free(ps),
        forall|k: int| 0 <= k < ps.len() ==> #[trigger] ps[k].len() > 0,
        forall|k: int, x: int| 0 <= k < ps.len() && 0 <= x < ps[k].len() ==> #[trigger] ps[k][x] <= 255,
        2 + total_len(ps) <= u32::MAX,
    ensures
        ({
            let t = table_rows(spec_add_all(empty_graph(), Map::empty(), 0, opt, ps).0);
            &&& t[END_NODE as int].len() == 0
            &&& forall|k: int|
                0 <= k < ps.len() ==> run_table(t, START_NODE, narrow(#[trigger] ps[k])) == Some(END_NODE)
        }),
{
    lemma_add_all_graph(opt, ps);
    lemma_add_all_bytes(opt, ps);
    let r = spec_add_all(empty_graph(), Map::empty(), 0, opt, ps).0;
    assert forall|k: int| 0 <= k < ps.len() implies run_table(table_rows(r), START_NODE, narrow(#[trigger] ps[k]))
        == Some(END_NODE) by {
        assert forall|x: int| 0 <= x < ps[k].len() implies #[trigger] ps[k][x] <= 255 by {}
        assert(walk(r, START_NODE as int, ps[k]) == Some(END_NODE as int));
        lemma_run_table(r, START_NODE as int, ps[k]);
    }
}

} // verus!
