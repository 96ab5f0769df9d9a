//! The graph ranker: nodes ordered by total outgoing weight, descending,
//! and each node's edges by count, descending. Ties fall back to
//! code-point lexicographic name order, so the output is deterministic.

use crate::cache::{has_key, key_index, lemma_seq_to_map, ArcStrMap};
use crate::metadata::Metadata;
use crate::normalize::StatsGraph;
use crate::text::{lemma_lex_le_total, lemma_lex_le_transitive, lex_le, str_lex_le};
use vstd::multiset::Multiset;
use vstd::prelude::*;

verus! {

/// One ranked node: its display name and its ordered outgoing edges.
pub type RankedRow = (String, Vec<(String, Metadata)>);

/// Edge order: by count descending, ties by name ascending.
pub open spec fn edge_le(a: (String, Metadata), b: (String, Metadata)) -> bool {
    a.1.count > b.1.count || (a.1.count == b.1.count && lex_le(a.0@, b.0@))
}

/// `edge_le` is total.
pub proof fn lemma_edge_le_total(a: (String, Metadata), b: (String, Metadata))
    ensures
        edge_le(a, b) || edge_le(b, a),
{
    lemma_lex_le_total(a.0@, b.0@);
}

/// `edge_le` chains.
pub proof fn lemma_edge_le_trans(
    a: (String, Metadata),
    b: (String, Metadata),
    c: (String, Metadata),
)
    requires
        edge_le(a, b),
        edge_le(b, c),
    ensures
        edge_le(a, c),
{
    if a.1.count == b.1.count && b.1.count == c.1.count {
        lemma_lex_le_transitive(a.0@, b.0@, c.0@);
    }
}

/// The total outgoing weight of an ordered edge list.
pub open spec fn sum_meta_counts(s: Seq<(String, Metadata)>) -> int
    decreases s.len(),
{
    if s.len() == 0 {
        0
    } else {
        sum_meta_counts(s.drop_last()) + s.last().1.count
    }
}

/// Node order: by total outgoing weight descending, ties by name
/// ascending.
pub open spec fn node_le(a: RankedRow, b: RankedRow) -> bool {
    sum_meta_counts(a.1@) > sum_meta_counts(b.1@) || (sum_meta_counts(a.1@) == sum_meta_counts(
        b.1@,
    ) && lex_le(a.0@, b.0@))
}

/// `node_le` is total.
pub proof fn lemma_node_le_total(a: RankedRow, b: RankedRow)
    ensures
        node_le(a, b) || node_le(b, a),
{
    lemma_lex_le_total(a.0@, b.0@);
}

/// `node_le` chains.
pub proof fn lemma_node_le_trans(a: RankedRow, b: RankedRow, c: RankedRow)
    requires
        node_le(a, b),
        node_le(b, c),
    ensures
        node_le(a, c),
{
    if sum_meta_counts(a.1@) == sum_meta_counts(b.1@) && sum_meta_counts(b.1@) == sum_meta_counts(
        c.1@,
    ) {
        lemma_lex_le_transitive(a.0@, b.0@, c.0@);
    }
}

/// The total outgoing weight of a row, summed without overflow.
pub fn row_weight(edges: &Vec<(String, Metadata)>) -> (r: u128)
    ensures
        r == sum_meta_counts(edges@),
{
    let ghost s = edges@;
    let n = edges.len();
    let mut acc: u128 = 0;
    let mut j: usize = 0;
    while j < n
        invariant
            n == s.len(),
            s == edges@,
            j <= n,
            acc == sum_meta_counts(s.take(j as int)),
            acc <= (j as int) * 0xFFFF_FFFF,
        decreases n - j,
    {
        let c = edges[j].1.count;
        proof {
            assert(s.take(j as int + 1).drop_last() =~= s.take(j as int));
            assert(s.take(j as int + 1).last() == s[j as int]);
        }
        acc = acc + c as u128;
        j = j + 1;
    }
    proof {
        assert(s.take(n as int) =~= s);
    }
    acc
}

/// Compare two edges in ranked order.
fn edge_le_exec(a: &(String, Metadata), b: &(String, Metadata)) -> (r: bool)
    ensures
        r == edge_le(*a, *b),
{
    if a.1.count > b.1.count {
        true
    } else if a.1.count < b.1.count {
        false
    } else {
        str_lex_le(a.0.as_str(), b.0.as_str())
    }
}

/// Compare two rows in ranked order.
fn node_le_exec(a: &RankedRow, b: &RankedRow) -> (r: bool)
    ensures
        r == node_le(*a, *b),
{
    let wa = row_weight(&a.1);
    let wb = row_weight(&b.1);
    if wa > wb {
        true
    } else if wa < wb {
        false
    } else {
        str_lex_le(a.0.as_str(), b.0.as_str())
    }
}

/// The position at which `x` is inserted into the sorted list `r`.
fn find_pos_edges(r: &Vec<(String, Metadata)>, x: &(String, Metadata)) -> (idx: usize)
    ensures
        idx <= r@.len(),
        forall|a: int| 0 <= a < idx ==> edge_le(r@[a], *x),
        idx < r@.len() ==> !edge_le(r@[idx as int], *x),
{
    let m = r.len();
    let mut idx: usize = 0;
    while idx < m
        invariant
            m == r@.len(),
            idx <= m,
            forall|a: int| 0 <= a < idx ==> edge_le(r@[a], *x),
        decreases m - idx,
    {
        if !edge_le_exec(&r[idx], x) {
            return idx;
        }
        idx = idx + 1;
    }
    idx
}

/// The position at which `x` is inserted into the sorted list `r`.
fn find_pos_rows(r: &Vec<RankedRow>, x: &RankedRow) -> (idx: usize)
    ensures
        idx <= r@.len(),
        forall|a: int| 0 <= a < idx ==> node_le(r@[a], *x),
        idx < r@.len() ==> !node_le(r@[idx as int], *x),
{
    let m = r.len();
    let mut idx: usize = 0;
    while idx < m
        invariant
            m == r@.len(),
            idx <= m,
            forall|a: int| 0 <= a < idx ==> node_le(r@[a], *x),
        decreases m - idx,
    {
        if !node_le_exec(&r[idx], x) {
            return idx;
        }
        idx = idx + 1;
    }
    idx
}

/// Insertion sort of an edge list under `edge_le`.
pub fn sort_edges(v: Vec<(String, Metadata)>) -> (r: Vec<(String, Metadata)>)
    ensures
        r@.to_multiset() == v@.to_multiset(),
        r@.len() == v@.len(),
        forall|a: int, b: int| 0 <= a < b < r@.len() ==> edge_le(r@[a], r@[b]),
{
    broadcast use vstd::seq_lib::group_to_multiset_ensures;

    let n = v.len();
    let mut r: Vec<(String, Metadata)> = Vec::new();
    let mut i: usize = 0;
    while i < n
        invariant
            n == v@.len(),
            i <= n,
            r@.len() == i,
            r@.to_multiset() == v@.take(i as int).to_multiset(),
            forall|a: int, b: int| 0 <= a < b < r@.len() ==> edge_le(r@[a], r@[b]),
        decreases n - i,
    {
        let x = (v[i].0.clone(), v[i].1);
        proof {
            assert(x == v@[i as int]);
            assert(v@.take(i as int + 1) =~= v@.take(i as int).push(v@[i as int]));
            v@.take(i as int).to_multiset_ensures();
            assert(v@.take(i as int + 1).to_multiset() =~= v@.take(i as int).to_multiset().insert(
                x,
            ));
        }
        let ghost r0 = r@;
        let idx = find_pos_edges(&r, &x);
        proof {
            if idx < r0.len() {
                lemma_edge_le_total(r0[idx as int], x);
            }
        }
        r.insert(idx, x);
        proof {
            assert(r@ =~= r0.insert(idx as int, x));
            assert(r@.to_multiset() =~= r0.to_multiset().insert(x)) by {
                assert(r0.insert(idx as int, x) =~= r0.take(idx as int).push(x) + r0.skip(
                    idx as int,
                ));
                assert(r0 =~= r0.take(idx as int) + r0.skip(idx as int));
                vstd::seq_lib::lemma_multiset_commutative(
                    r0.take(idx as int).push(x),
                    r0.skip(idx as int),
                );
                vstd::seq_lib::lemma_multiset_commutative(r0.take(idx as int), r0.skip(idx as int));
                r0.take(idx as int).to_multiset_ensures();
            }
            assert forall|a: int, b: int| 0 <= a < b < r@.len() implies edge_le(r@[a], r@[b]) by {
                if b < idx {
                    assert(r@[a] == r0[a] && r@[b] == r0[b]);
                } else if a < idx && b == idx {
                    assert(r@[a] == r0[a]);
                    assert(edge_le(r0[a], x));
                } else if a < idx && b > idx {
                    assert(r@[a] == r0[a] && r@[b] == r0[b - 1]);
                } else if a == idx && b > idx {
                    assert(r@[b] == r0[b - 1]);
                    assert(edge_le(x, r0[idx as int]));
                    if b - 1 > idx {
                        assert(edge_le(r0[idx as int], r0[b - 1]));
                        lemma_edge_le_trans(x, r0[idx as int], r0[b - 1]);
                    }
                } else {
                    assert(r@[a] == r0[a - 1] && r@[b] == r0[b - 1]);
                }
            }
        }
        i = i + 1;
    }
    proof {
        assert(v@.take(n as int) =~= v@);
    }
    r
}

/// Insertion sort of the node rows under `node_le`.
pub fn sort_rows(v: Vec<RankedRow>) -> (r: Vec<RankedRow>)
    ensures
        r@.to_multiset() == v@.to_multiset(),
        r@.len() == v@.len(),
        forall|a: int, b: int| 0 <= a < b < r@.len() ==> node_le(r@[a], r@[b]),
{
    broadcast use vstd::seq_lib::group_to_multiset_ensures;

    let ghost v0 = v@;
    let n = v.len();
    let mut rest = v;
    let mut r: Vec<RankedRow> = Vec::new();
    let mut i: usize = 0;
    while i < n
        invariant
            n == rest@.len() + r@.len(),
            i == r@.len(),
            i <= n,
            r@.to_multiset().add(rest@.to_multiset()) == v0.to_multiset(),
            forall|a: int, b: int| 0 <= a < b < r@.len() ==> node_le(r@[a], r@[b]),
        decreases n - i,
    {
        let ghost rest0 = rest@;
        let x = rest.remove(0);
        proof {
            rest0.to_multiset_ensures();
            assert(rest0.remove(0).to_multiset() =~= rest0.to_multiset().remove(rest0[0]));
            assert(rest0.to_multiset().count(rest0[0]) > 0) by {
                assert(rest0.contains(rest0[0]));
            }
        }
        let ghost r0 = r@;
        let idx = find_pos_rows(&r, &x);
        proof {
            if idx < r0.len() {
                lemma_node_le_total(r0[idx as int], x);
            }
        }
        r.insert(idx, x);
        proof {
            assert(r@ =~= r0.insert(idx as int, x));
            assert(r@.to_multiset() =~= r0.to_multiset().insert(x)) by {
                assert(r0.insert(idx as int, x) =~= r0.take(idx as int).push(x) + r0.skip(
                    idx as int,
                ));
                assert(r0 =~= r0.take(idx as int) + r0.skip(idx as int));
                vstd::seq_lib::lemma_multiset_commutative(
                    r0.take(idx as int).push(x),
                    r0.skip(idx as int),
                );
                vstd::seq_lib::lemma_multiset_commutative(r0.take(idx as int), r0.skip(idx as int));
                r0.take(idx as int).to_multiset_ensures();
            }
            assert(r@.to_multiset().add(rest@.to_multiset()) =~= v0.to_multiset());
            assert forall|a: int, b: int| 0 <= a < b < r@.len() implies node_le(r@[a], r@[b]) by {
                if b < idx {
                    assert(r@[a] == r0[a] && r@[b] == r0[b]);
                } else if a < idx && b == idx {
                    assert(r@[a] == r0[a]);
                    assert(node_le(r0[a], x));
                } else if a < idx && b > idx {
                    assert(r@[a] == r0[a] && r@[b] == r0[b - 1]);
                } else if a == idx && b > idx {
                    assert(r@[b] == r0[b - 1]);
                    assert(node_le(x, r0[idx as int]));
                    if b - 1 > idx {
                        assert(node_le(r0[idx as int], r0[b - 1]));
                        lemma_node_le_trans(x, r0[idx as int], r0[b - 1]);
                    }
                } else {
                    assert(r@[a] == r0[a - 1] && r@[b] == r0[b - 1]);
                }
            }
        }
        i = i + 1;
    }
    proof {
        assert(rest@ =~= Seq::<RankedRow>::empty());
        assert(rest@.to_multiset() =~= Multiset::<RankedRow>::empty());
        assert(r@.to_multiset() =~= r@.to_multiset().add(rest@.to_multiset()));
        r@.to_multiset_ensures();
        v0.to_multiset_ensures();
    }
    r
}

/// Whether one ranked row faithfully presents a node of the graph: its
/// name is a node, its edges are sorted, distinct, and are exactly the
/// node's edge map.
pub open spec fn row_ok(g: StatsGraph, row: RankedRow) -> bool {
    &&& g@.contains_key(row.0@)
    &&& forall|a: int, b: int| 0 <= a < b < row.1@.len() ==> edge_le(row.1@[a], row.1@[b])
    &&& forall|a: int, b: int|
        0 <= a < b < row.1@.len() ==> (#[trigger] row.1@[a]).0@ != (#[trigger] row.1@[b]).0@
    &&& forall|a: int|
        0 <= a < row.1@.len() ==> g@[row.0@]@.contains_key((#[trigger] row.1@[a]).0@)
            && g@[row.0@]@[row.1@[a].0@] == row.1@[a].1
    &&& forall|e: Seq<char>| #[trigger]
        g@[row.0@]@.contains_key(e) ==> exists|a: int|
            0 <= a < row.1@.len() && (#[trigger] row.1@[a]).0@ == e
}

/// Copy a node's edge entries into a list.
fn copy_edges(em: &ArcStrMap<Metadata>) -> (r: Vec<(String, Metadata)>)
    ensures
        r@.len() == em.entries@.len(),
        forall|j: int| 0 <= j < r@.len() ==> r@[j] == em.entries@[j],
{
    let n = em.entries.len();
    let mut r: Vec<(String, Metadata)> = Vec::new();
    let mut j: usize = 0;
    while j < n
        invariant
            n == em.entries@.len(),
            j <= n,
            r@.len() == j,
            forall|a: int| 0 <= a < j ==> r@[a] == em.entries@[a],
        decreases n - j,
    {
        r.push((em.entries[j].0.clone(), em.entries[j].1));
        proof {
            assert(r@[j as int] == em.entries@[j as int]);
        }
        j = j + 1;
    }
    r
}

/// Rank the normalized graph: one row per node, nodes by descending total
/// outgoing weight, edges by descending count; ties in both orders fall
/// back to ascending name order. Every node appears exactly once, carrying
/// exactly its edge map.
pub fn rank(g: &StatsGraph) -> (r: Vec<RankedRow>)
    requires
        g.wf(),
        forall|i: int| 0 <= i < g.entries@.len() ==> (#[trigger] g.entries@[i]).1.wf(),
    ensures
        r@.len() == g.spec_len(),
        forall|a: int, b: int| 0 <= a < b < r@.len() ==> node_le(r@[a], r@[b]),
        forall|a: int, b: int|
            0 <= a < b < r@.len() ==> (#[trigger] r@[a]).0@ != (#[trigger] r@[b]).0@,
        forall|k: int| 0 <= k < r@.len() ==> row_ok(*g, #[trigger] r@[k]),
        forall|nm: Seq<char>| #[trigger]
            g@.contains_key(nm) ==> exists|k: int| 0 <= k < r@.len() && (#[trigger] r@[k]).0@ == nm,
{
    broadcast use vstd::seq_lib::group_to_multiset_ensures;

    let ghost nodes = g.entries@;
    proof {
        lemma_seq_to_map(nodes);
        assert forall|i: int| 0 <= i < nodes.len() implies #[trigger] g@.contains_key(nodes[i].0@)
            && g@[nodes[i].0@] == nodes[i].1 by {
            assert(has_key(nodes, nodes[i].0@));
        }
    }
    let n = g.entries.len();
    let mut rows: Vec<RankedRow> = Vec::new();
    let mut i: usize = 0;
    while i < n
        invariant
            n == nodes.len(),
            nodes == g.entries@,
            g.wf(),
            forall|ii: int| 0 <= ii < nodes.len() ==> (#[trigger] nodes[ii]).1.wf(),
            forall|ii: int| 0 <= ii < nodes.len() ==> #[trigger] g@.contains_key(nodes[ii].0@)
                && g@[nodes[ii].0@] == nodes[ii].1,
            i <= n,
            rows@.len() == i,
            forall|k: int| 0 <= k < i ==> (#[trigger] rows@[k]).0@ == nodes[k].0@,
            forall|k: int| 0 <= k < i ==> row_ok(*g, #[trigger] rows@[k]),
        decreases n - i,
    {
        let name = g.entries[i].0.clone();
        let em = &g.entries[i].1;
        let ghost em_entries = em.entries@;
        let edges_vec = copy_edges(em);
        proof {
            assert(edges_vec@ =~= em_entries);
        }
        let sorted = sort_edges(edges_vec);
        proof {
            lemma_seq_to_map(em_entries);
            assert forall|jj: int| 0 <= jj < em_entries.len() implies #[trigger] em@.contains_key(
                em_entries[jj].0@,
            ) && em@[em_entries[jj].0@] == em_entries[jj].1 by {
                assert(has_key(em_entries, em_entries[jj].0@));
            }
            assert(em_entries.no_duplicates()) by {
                assert forall|a: int, b: int|
                    0 <= a < b < em_entries.len() implies em_entries[a] != em_entries[b] by {
                    assert((#[trigger] em_entries[a]).0@ != (#[trigger] em_entries[b]).0@);
                }
            }
            em_entries.lemma_multiset_has_no_duplicates();
            em_entries.to_multiset_ensures();
            sorted@.to_multiset_ensures();
            assert(sorted@.to_multiset() == em_entries.to_multiset());
            sorted@.lemma_multiset_has_no_duplicates_conv();
            assert(sorted@.no_duplicates());
            assert forall|a: int| 0 <= a < sorted@.len() implies em_entries.contains(
                #[trigger] sorted@[a],
            ) by {
                assert(sorted@.contains(sorted@[a]));
                assert(sorted@.to_multiset().count(sorted@[a]) > 0);
                assert(em_entries.to_multiset().count(sorted@[a]) > 0);
            }
            assert forall|a: int, b: int|
                0 <= a < b < sorted@.len() implies (#[trigger] sorted@[a]).0@ != (
            #[trigger] sorted@[b]).0@ by {
                let pa = choose|p: int| 0 <= p < em_entries.len() && em_entries[p] == sorted@[a];
                let pb = choose|p: int| 0 <= p < em_entries.len() && em_entries[p] == sorted@[b];
                if pa == pb {
                    assert(sorted@[a] == sorted@[b]);
                    assert(false);
                }
            }
            assert forall|a: int| 0 <= a < sorted@.len() implies em@.contains_key(
                (#[trigger] sorted@[a]).0@,
            ) && em@[sorted@[a].0@] == sorted@[a].1 by {
                let pa = choose|p: int| 0 <= p < em_entries.len() && em_entries[p] == sorted@[a];
                assert(em@.contains_key(em_entries[pa].0@));
            }
            assert forall|e: Seq<char>| #[trigger] em@.contains_key(e) implies exists|a: int|
                0 <= a < sorted@.len() && (#[trigger] sorted@[a]).0@ == e by {
                let pa = key_index(em_entries, e);
                assert(has_key(em_entries, e));
                assert(0 <= pa < em_entries.len() && em_entries[pa].0@ == e);
                assert(em_entries.contains(em_entries[pa]));
                assert(em_entries.to_multiset().count(em_entries[pa]) > 0);
                assert(sorted@.to_multiset().count(em_entries[pa]) > 0);
                assert(sorted@.contains(em_entries[pa]));
                let a = choose|a: int| 0 <= a < sorted@.len() && sorted@[a] == em_entries[pa];
                assert(sorted@[a].0@ == e);
            }
        }
        rows.push((name, sorted));
        proof {
            assert((rows@[i as int]).0@ == nodes[i as int].0@);
            assert(g@[nodes[i as int].0@] == nodes[i as int].1);
            assert(row_ok(*g, rows@[i as int]));
        }
        i = i + 1;
    }
    let ghost rows0 = rows@;
    let r = sort_rows(rows);
    proof {
        assert(r@.len() == rows0.len());
        rows0.to_multiset_ensures();
        r@.to_multiset_ensures();
        assert forall|k: int| 0 <= k < r@.len() implies rows0.contains(#[trigger] r@[k]) by {
            assert(r@.contains(r@[k]));
            assert(r@.to_multiset().count(r@[k]) > 0);
            assert(rows0.to_multiset().count(r@[k]) > 0);
        }
        assert forall|k: int| 0 <= k < r@.len() implies row_ok(*g, #[trigger] r@[k]) by {
            let p = choose|p: int| 0 <= p < rows0.len() && rows0[p] == r@[k];
        }
        assert(rows0.no_duplicates()) by {
            assert forall|p: int, q: int| 0 <= p < q < rows0.len() implies rows0[p] != rows0[q] by {
                assert((#[trigger] rows0[p]).0@ == nodes[p].0@);
                assert((#[trigger] rows0[q]).0@ == nodes[q].0@);
            }
        }
        rows0.lemma_multiset_has_no_duplicates();
        r@.lemma_multiset_has_no_duplicates_conv();
        assert(r@.no_duplicates());
        assert forall|a: int, b: int| 0 <= a < b < r@.len() implies (#[trigger] r@[a]).0@ != (
        #[trigger] r@[b]).0@ by {
            let pa = choose|p: int| 0 <= p < rows0.len() && rows0[p] == r@[a];
            let pb = choose|p: int| 0 <= p < rows0.len() && rows0[p] == r@[b];
            if pa == pb {
                assert(r@[a] == r@[b]);
                assert(false);
            } else {
                assert(rows0[pa].0@ == nodes[pa].0@);
                assert(rows0[pb].0@ == nodes[pb].0@);
            }
        }
        assert forall|nm: Seq<char>| #[trigger] g@.contains_key(nm) implies exists|k: int|
            0 <= k < r@.len() && (#[trigger] r@[k]).0@ == nm by {
            let p = key_index(nodes, nm);
            assert(has_key(nodes, nm));
            assert(0 <= p < nodes.len() && nodes[p].0@ == nm);
            assert(rows0[p].0@ == nm);
            assert(rows0.contains(rows0[p]));
            assert(rows0.to_multiset().count(rows0[p]) > 0);
            assert(r@.to_multiset().count(rows0[p]) > 0);
            assert(r@.contains(rows0[p]));
            let k = choose|k: int| 0 <= k < r@.len() && r@[k] == rows0[p];
            assert(r@[k].0@ == nm);
        }
    }
    r
}

/// Ranking is a total order by descending weight: in ranked output, every
/// earlier row carries at least the total outgoing weight of every later
/// one.
pub proof fn lemma_rank_weights_descend(rows: Seq<RankedRow>, a: int, b: int)
    requires
        forall|p: int, q: int| 0 <= p < q < rows.len() ==> node_le(rows[p], rows[q]),
        0 <= a < b < rows.len(),
    ensures
        sum_meta_counts(rows[a].1@) >= sum_meta_counts(rows[b].1@),
{
    assert(node_le(rows[a], rows[b]));
}

} // verus!
