//! The undirected projector: symmetric adjacency built from the ranked
//! directed graph, ordered by degree, descending.
//!
//! Every edge connects both of its endpoints, whether or not the target
//! ever appears as a node of its own; adjacency lists keep first-encounter
//! order, and ties in the degree order fall back to ascending name order.

use crate::rank::RankedRow;
use crate::repo::in_str_views;
use crate::text::{lemma_lex_le_total, lemma_lex_le_transitive, lex_le, str_lex_le};
use vstd::prelude::*;

verus! {

/// One undirected row: a display name and the names adjacent to it.
pub type AdjacencyRow = (String, Vec<String>);

/// Whether the ranked graph has a directed edge from `a` to `b`.
pub open spec fn has_edge(rows: Seq<RankedRow>, a: Seq<char>, b: Seq<char>) -> bool {
    exists|i: int, j: int|
        0 <= i < rows.len() && 0 <= j < (#[trigger] rows[i]).1@.len() && rows[i].0@ == a && (
        #[trigger] rows[i].1@[j]).0@ == b
}

/// Whether `a` and `b` are adjacent in the undirected projection: an edge
/// in either direction connects them.
pub open spec fn spec_adjacent(rows: Seq<RankedRow>, a: Seq<char>, b: Seq<char>) -> bool {
    has_edge(rows, a, b) || has_edge(rows, b, a)
}

/// The projection is symmetric by construction.
pub proof fn lemma_projection_symmetric(rows: Seq<RankedRow>, a: Seq<char>, b: Seq<char>)
    ensures
        spec_adjacent(rows, a, b) == spec_adjacent(rows, b, a),
{
}

/// Whether some pair of the list views to `(a, b)`.
pub open spec fn pair_in(s: Seq<(String, String)>, a: Seq<char>, b: Seq<char>) -> bool {
    exists|k: int| 0 <= k < s.len() && (#[trigger] s[k]).0@ == a && s[k].1@ == b
}

/// Degree order: by adjacency size descending, ties by name ascending.
pub open spec fn deg_le(a: AdjacencyRow, b: AdjacencyRow) -> bool {
    a.1@.len() > b.1@.len() || (a.1@.len() == b.1@.len() && lex_le(a.0@, b.0@))
}

/// `deg_le` is total.
pub proof fn lemma_deg_le_total(a: AdjacencyRow, b: AdjacencyRow)
    ensures
        deg_le(a, b) || deg_le(b, a),
{
    lemma_lex_le_total(a.0@, b.0@);
}

/// `deg_le` chains.
pub proof fn lemma_deg_le_trans(a: AdjacencyRow, b: AdjacencyRow, c: AdjacencyRow)
    requires
        deg_le(a, b),
        deg_le(b, c),
    ensures
        deg_le(a, c),
{
    if a.1@.len() == b.1@.len() && b.1@.len() == c.1@.len() {
        lemma_lex_le_transitive(a.0@, b.0@, c.0@);
    }
}

/// Whether one adjacency row is faithful to the ranked graph: non-empty,
/// duplicate-free, holding exactly the names adjacent to its own.
pub open spec fn adj_row_ok(rows: Seq<RankedRow>, row: AdjacencyRow) -> bool {
    &&& row.1@.len() > 0
    &&& forall|a: int, b: int|
        0 <= a < b < row.1@.len() ==> (#[trigger] row.1@[a])@ != (#[trigger] row.1@[b])@
    &&& forall|b: Seq<char>| in_str_views(row.1@, b) <==> spec_adjacent(rows, row.0@, b)
}

/// Whether `r` is the ranked graph's undirected projection: one row per
/// name with any neighbor, each row faithful, names unique, rows in degree
/// order.
pub open spec fn projection_ok(rows: Seq<RankedRow>, r: Seq<AdjacencyRow>) -> bool {
    &&& forall|p: int, q: int| 0 <= p < q < r.len() ==> (#[trigger] r[p]).0@ != (#[trigger] r[q]).0@
    &&& forall|p: int, q: int| 0 <= p < q < r.len() ==> deg_le(r[p], r[q])
    &&& forall|p: int| 0 <= p < r.len() ==> adj_row_ok(rows, #[trigger] r[p])
    &&& forall|a: Seq<char>, b: Seq<char>| #[trigger]
        spec_adjacent(rows, a, b) ==> exists|p: int| 0 <= p < r.len() && (#[trigger] r[p]).0@ == a
}

/// Whether the projection has a row named `a`.
pub open spec fn projects_name(r: Seq<AdjacencyRow>, a: Seq<char>) -> bool {
    exists|p: int| 0 <= p < r.len() && (#[trigger] r[p]).0@ == a
}

/// Projection is idempotent up to order: any two faithful projections of
/// the same ranked graph have the same rows with the same adjacency sets.
pub proof fn lemma_projection_idempotent(
    rows: Seq<RankedRow>,
    r1: Seq<AdjacencyRow>,
    r2: Seq<AdjacencyRow>,
)
    requires
        projection_ok(rows, r1),
        projection_ok(rows, r2),
    ensures
        forall|a: Seq<char>|
            #![trigger projects_name(r1, a)]
            #![trigger projects_name(r2, a)]
            projects_name(r1, a) <==> projects_name(r2, a),
        forall|p1: int, p2: int, b: Seq<char>|
            #![trigger in_str_views(r1[p1].1@, b), in_str_views(r2[p2].1@, b)]
            0 <= p1 < r1.len() && 0 <= p2 < r2.len() && r1[p1].0@ == r2[p2].0@ ==> (in_str_views(
                r1[p1].1@,
                b,
            ) <==> in_str_views(r2[p2].1@, b)),
{
    assert forall|a: Seq<char>| projects_name(r1, a) implies projects_name(r2, a) by {
        let p = choose|p: int| 0 <= p < r1.len() && (#[trigger] r1[p]).0@ == a;
        assert(adj_row_ok(rows, r1[p]));
        assert(r1[p].1@.len() > 0);
        assert(in_str_views(r1[p].1@, r1[p].1@[0]@)) by {
            assert((r1[p].1@[0])@ == r1[p].1@[0]@);
        }
        assert(spec_adjacent(rows, a, r1[p].1@[0]@));
    }
    assert forall|a: Seq<char>| projects_name(r2, a) implies projects_name(r1, a) by {
        let p = choose|p: int| 0 <= p < r2.len() && (#[trigger] r2[p]).0@ == a;
        assert(adj_row_ok(rows, r2[p]));
        assert(r2[p].1@.len() > 0);
        assert(in_str_views(r2[p].1@, r2[p].1@[0]@)) by {
            assert((r2[p].1@[0])@ == r2[p].1@[0]@);
        }
        assert(spec_adjacent(rows, a, r2[p].1@[0]@));
    }
    assert forall|p1: int, p2: int, b: Seq<char>|
        #![trigger in_str_views(r1[p1].1@, b), in_str_views(r2[p2].1@, b)]
        0 <= p1 < r1.len() && 0 <= p2 < r2.len() && r1[p1].0@ == r2[p2].0@ implies (in_str_views(
        r1[p1].1@,
        b,
    ) <==> in_str_views(r2[p2].1@, b)) by {
        assert(adj_row_ok(rows, r1[p1]));
        assert(adj_row_ok(rows, r2[p2]));
    }
}

/// Append one directed pair.
fn push_pair(pairs: &mut Vec<(String, String)>, a: &String, b: &String)
    ensures
        final(pairs)@.len() == old(pairs)@.len() + 1,
        forall|k: int| 0 <= k < old(pairs)@.len() ==> final(pairs)@[k] == old(pairs)@[k],
        final(pairs)@[old(pairs)@.len() as int].0@ == a@,
        final(pairs)@[old(pairs)@.len() as int].1@ == b@,
        forall|x: Seq<char>, y: Seq<char>|
            #![trigger pair_in(final(pairs)@, x, y)]
            pair_in(final(pairs)@, x, y) <==> (pair_in(old(pairs)@, x, y) || (x == a@ && y == b@)),
{
    let ghost p0 = pairs@;
    pairs.push((a.clone(), b.clone()));
    proof {
        assert(forall|k: int| 0 <= k < p0.len() ==> pairs@[k] == p0[k]);
        assert(pairs@[p0.len() as int].0@ == a@);
        assert forall|x: Seq<char>, y: Seq<char>|
            #![trigger pair_in(pairs@, x, y)]
            pair_in(pairs@, x, y) <==> (pair_in(p0, x, y) || (x == a@ && y == b@)) by {
            if pair_in(pairs@, x, y) {
                let k = choose|k: int|
                    0 <= k < pairs@.len() && (#[trigger] pairs@[k]).0@ == x && pairs@[k].1@ == y;
                if k < p0.len() {
                    assert(p0[k].0@ == x && p0[k].1@ == y);
                }
            }
            if pair_in(p0, x, y) {
                let k = choose|k: int|
                    0 <= k < p0.len() && (#[trigger] p0[k]).0@ == x && p0[k].1@ == y;
                assert(pairs@[k].0@ == x && pairs@[k].1@ == y);
            }
            if x == a@ && y == b@ {
                assert(pairs@[p0.len() as int].0@ == x && pairs@[p0.len() as int].1@ == y);
            }
        }
    }
}

/// All directed pairs of the ranked graph, both ways round.
fn collect_pairs(rows: &Vec<RankedRow>) -> (pairs: Vec<(String, String)>)
    ensures
        forall|k: int|
            0 <= k < pairs@.len() ==> spec_adjacent(
                rows@,
                (#[trigger] pairs@[k]).0@,
                pairs@[k].1@,
            ),
        forall|a: Seq<char>, b: Seq<char>| #[trigger]
            spec_adjacent(rows@, a, b) ==> pair_in(pairs@, a, b),
{
    let n = rows.len();
    let mut pairs: Vec<(String, String)> = Vec::new();
    let mut i: usize = 0;
    while i < n
        invariant
            n == rows@.len(),
            i <= n,
            forall|k: int|
                0 <= k < pairs@.len() ==> spec_adjacent(
                    rows@,
                    (#[trigger] pairs@[k]).0@,
                    pairs@[k].1@,
                ),
            forall|ii: int, jj: int|
                #![trigger rows@[ii].1@[jj]]
                0 <= ii < i && 0 <= jj < rows@[ii].1@.len() ==> pair_in(
                    pairs@,
                    rows@[ii].0@,
                    rows@[ii].1@[jj].0@,
                ) && pair_in(pairs@, rows@[ii].1@[jj].0@, rows@[ii].0@),
        decreases n - i,
    {
        let m = rows[i].1.len();
        let mut j: usize = 0;
        while j < m
            invariant
                n == rows@.len(),
                i < n,
                m == rows@[i as int].1@.len(),
                j <= m,
                forall|k: int|
                    0 <= k < pairs@.len() ==> spec_adjacent(
                        rows@,
                        (#[trigger] pairs@[k]).0@,
                        pairs@[k].1@,
                    ),
                forall|ii: int, jj: int|
                    #![trigger rows@[ii].1@[jj]]
                    0 <= ii < i && 0 <= jj < rows@[ii].1@.len() ==> pair_in(
                        pairs@,
                        rows@[ii].0@,
                        rows@[ii].1@[jj].0@,
                    ) && pair_in(pairs@, rows@[ii].1@[jj].0@, rows@[ii].0@),
                forall|jj: int|
                    #![trigger rows@[i as int].1@[jj]]
                    0 <= jj < j ==> pair_in(
                        pairs@,
                        rows@[i as int].0@,
                        rows@[i as int].1@[jj].0@,
                    ) && pair_in(pairs@, rows@[i as int].1@[jj].0@, rows@[i as int].0@),
            decreases m - j,
        {
            let node = &rows[i].0;
            let target = &rows[i].1[j].0;
            proof {
                assert(has_edge(rows@, node@, target@)) by {
                    assert(0 <= i < rows@.len() && 0 <= j < rows@[i as int].1@.len()
                        && (rows@[i as int]).0@ == node@
                        && (rows@[i as int].1@[j as int]).0@ == target@);
                }
            }
            push_pair(&mut pairs, node, target);
            push_pair(&mut pairs, target, node);
            j = j + 1;
        }
        i = i + 1;
    }
    proof {
        assert forall|a: Seq<char>, b: Seq<char>| #[trigger] spec_adjacent(
            rows@,
            a,
            b,
        ) implies pair_in(pairs@, a, b) by {
            if has_edge(rows@, a, b) {
                let (ii, jj): (int, int) = choose|ii: int, jj: int|
                    0 <= ii < rows@.len() && 0 <= jj < (#[trigger] rows@[ii]).1@.len()
                        && rows@[ii].0@ == a && (#[trigger] rows@[ii].1@[jj]).0@ == b;
                assert(pair_in(pairs@, rows@[ii].0@, rows@[ii].1@[jj].0@));
            } else {
                let (ii, jj): (int, int) = choose|ii: int, jj: int|
                    0 <= ii < rows@.len() && 0 <= jj < (#[trigger] rows@[ii]).1@.len()
                        && rows@[ii].0@ == b && (#[trigger] rows@[ii].1@[jj]).0@ == a;
                assert(pair_in(pairs@, rows@[ii].1@[jj].0@, rows@[ii].0@));
            }
        }
    }
    pairs
}

/// The position at which `x` is inserted into the sorted list `r`.
fn find_pos_adj(r: &Vec<AdjacencyRow>, x: &AdjacencyRow) -> (idx: usize)
    ensures
        idx <= r@.len(),
        forall|a: int| 0 <= a < idx ==> deg_le(r@[a], *x),
        idx < r@.len() ==> !deg_le(r@[idx as int], *x),
{
    let m = r.len();
    let mut idx: usize = 0;
    while idx < m
        invariant
            m == r@.len(),
            idx <= m,
            forall|a: int| 0 <= a < idx ==> deg_le(r@[a], *x),
        decreases m - idx,
    {
        let le = if r[idx].1.len() > x.1.len() {
            true
        } else if r[idx].1.len() < x.1.len() {
            false
        } else {
            str_lex_le(r[idx].0.as_str(), x.0.as_str())
        };
        if !le {
            return idx;
        }
        idx = idx + 1;
    }
    idx
}

/// Insertion sort of the adjacency rows under `deg_le`.
fn sort_adj(v: Vec<AdjacencyRow>) -> (r: Vec<AdjacencyRow>)
    ensures
        r@.to_multiset() == v@.to_multiset(),
        r@.len() == v@.len(),
        forall|a: int, b: int| 0 <= a < b < r@.len() ==> deg_le(r@[a], r@[b]),
{
    broadcast use vstd::seq_lib::group_to_multiset_ensures;

    let ghost v0 = v@;
    let n = v.len();
    let mut rest = v;
    let mut r: Vec<AdjacencyRow> = Vec::new();
    let mut i: usize = 0;
    while i < n
        invariant
            n == rest@.len() + r@.len(),
            i == r@.len(),
            i <= n,
            r@.to_multiset().add(rest@.to_multiset()) == v0.to_multiset(),
            forall|a: int, b: int| 0 <= a < b < r@.len() ==> deg_le(r@[a], r@[b]),
        decreases n - i,
    {
        let ghost rest0 = rest@;
        let x = rest.remove(0);
        proof {
            rest0.to_multiset_ensures();
            assert(rest0.remove(0).to_multiset() =~= rest0.to_multiset().remove(rest0[0]));
            assert(rest0.to_multiset().count(rest0[0]) > 0) by {
                assert(rest0.contains(rest0[0]));
            }
        }
        let ghost r0 = r@;
        let idx = find_pos_adj(&r, &x);
        proof {
            if idx < r0.len() {
                lemma_deg_le_total(r0[idx as int], x);
            }
        }
        r.insert(idx, x);
        proof {
            assert(r@ =~= r0.insert(idx as int, x));
            assert(r@.to_multiset() =~= r0.to_multiset().insert(x)) by {
                assert(r0.insert(idx as int, x) =~= r0.take(idx as int).push(x) + r0.skip(
                    idx as int,
                ));
                assert(r0 =~= r0.take(idx as int) + r0.skip(idx as int));
                vstd::seq_lib::lemma_multiset_commutative(
                    r0.take(idx as int).push(x),
                    r0.skip(idx as int),
                );
                vstd::seq_lib::lemma_multiset_commutative(r0.take(idx as int), r0.skip(idx as int));
                r0.take(idx as int).to_multiset_ensures();
            }
            assert(r@.to_multiset().add(rest@.to_multiset()) =~= v0.to_multiset());
            assert forall|a: int, b: int| 0 <= a < b < r@.len() implies deg_le(r@[a], r@[b]) by {
                if b < idx {
                    assert(r@[a] == r0[a] && r@[b] == r0[b]);
                } else if a < idx && b == idx {
                    assert(r@[a] == r0[a]);
                    assert(deg_le(r0[a], x));
                } else if a < idx && b > idx {
                    assert(r@[a] == r0[a] && r@[b] == r0[b - 1]);
                } else if a == idx && b > idx {
                    assert(r@[b] == r0[b - 1]);
                    assert(deg_le(x, r0[idx as int]));
                    if b - 1 > idx {
                        assert(deg_le(r0[idx as int], r0[b - 1]));
                        lemma_deg_le_trans(x, r0[idx as int], r0[b - 1]);
                    }
                } else {
                    assert(r@[a] == r0[a - 1] && r@[b] == r0[b - 1]);
                }
            }
        }
        i = i + 1;
    }
    proof {
        assert(rest@ =~= Seq::<AdjacencyRow>::empty());
        assert(rest@.to_multiset() =~= vstd::multiset::Multiset::<AdjacencyRow>::empty());
        assert(r@.to_multiset() =~= r@.to_multiset().add(rest@.to_multiset()));
        r@.to_multiset_ensures();
        v0.to_multiset_ensures();
    }
    r
}

/// Project the ranked graph onto symmetric adjacency: every edge connects
/// both endpoints, each name with any neighbor gets one row, and the rows
/// come sorted by degree, descending, ties by name.
pub fn project(rows: &Vec<RankedRow>) -> (r: Vec<AdjacencyRow>)
    ensures
        projection_ok(rows@, r@),
{
    broadcast use vstd::seq_lib::group_to_multiset_ensures;

    let pairs = collect_pairs(rows);
    let np = pairs.len();
    let mut names: Vec<String> = Vec::new();
    let mut k: usize = 0;
    while k < np
        invariant
            np == pairs@.len(),
            k <= np,
            forall|a: int, b: int|
                0 <= a < b < names@.len() ==> (#[trigger] names@[a])@ != (#[trigger] names@[b])@,
            forall|nm: Seq<char>|
                #![trigger in_str_views(names@, nm)]
                in_str_views(names@, nm) <==> exists|k2: int|
                    0 <= k2 < k && (#[trigger] pairs@[k2]).0@ == nm,
        decreases np - k,
    {
        let ghost names0 = names@;
        crate::repo::push_unique_string(&mut names, &pairs[k].0);
        proof {
            assert forall|nm: Seq<char>|
                #![trigger in_str_views(names@, nm)]
                in_str_views(names@, nm) <==> exists|k2: int|
                    0 <= k2 < k + 1 && (#[trigger] pairs@[k2]).0@ == nm by {
                if in_str_views(names@, nm) {
                    if nm != pairs@[k as int].0@ {
                        assert(in_str_views(names0, nm));
                        let k2 = choose|k2: int|
                            0 <= k2 < k && (#[trigger] pairs@[k2]).0@ == nm;
                    } else {
                        assert(pairs@[k as int].0@ == nm);
                    }
                }
                if exists|k2: int| 0 <= k2 < k + 1 && (#[trigger] pairs@[k2]).0@ == nm {
                    let k2 = choose|k2: int| 0 <= k2 < k + 1 && (#[trigger] pairs@[k2]).0@ == nm;
                    if k2 < k {
                        assert(in_str_views(names0, nm));
                    }
                }
            }
        }
        k = k + 1;
    }
    let nn = names.len();
    let mut out: Vec<AdjacencyRow> = Vec::new();
    let mut m: usize = 0;
    while m < nn
        invariant
            nn == names@.len(),
            m <= nn,
            np == pairs@.len(),
            forall|a: int, b: int|
                0 <= a < b < names@.len() ==> (#[trigger] names@[a])@ != (#[trigger] names@[b])@,
            forall|nm: Seq<char>|
                #![trigger in_str_views(names@, nm)]
                in_str_views(names@, nm) <==> exists|k2: int|
                    0 <= k2 < np && (#[trigger] pairs@[k2]).0@ == nm,
            forall|kk: int|
                0 <= kk < pairs@.len() ==> spec_adjacent(
                    rows@,
                    (#[trigger] pairs@[kk]).0@,
                    pairs@[kk].1@,
                ),
            forall|a: Seq<char>, b: Seq<char>| #[trigger]
                spec_adjacent(rows@, a, b) ==> pair_in(pairs@, a, b),
            out@.len() == m,
            forall|p: int| 0 <= p < m ==> (#[trigger] out@[p]).0@ == names@[p]@,
            forall|p: int| 0 <= p < m ==> adj_row_ok(rows@, #[trigger] out@[p]),
        decreases nn - m,
    {
        let name = &names[m];
        let mut adj: Vec<String> = Vec::new();
        let mut k2: usize = 0;
        while k2 < np
            invariant
                np == pairs@.len(),
                m < nn,
                nn == names@.len(),
                name@ == names@[m as int]@,
                k2 <= np,
                forall|a: int, b: int|
                    0 <= a < b < adj@.len() ==> (#[trigger] adj@[a])@ != (#[trigger] adj@[b])@,
                forall|b: Seq<char>|
                    #![trigger in_str_views(adj@, b)]
                    in_str_views(adj@, b) <==> exists|kk: int|
                        0 <= kk < k2 && (#[trigger] pairs@[kk]).0@ == names@[m as int]@
                            && (pairs@[kk]).1@ == b,
            decreases np - k2,
        {
            let ghost adj0 = adj@;
            let is_source = pairs[k2].0 == *name;
            if is_source {
                crate::repo::push_unique_string(&mut adj, &pairs[k2].1);
            }
            proof {
                assert forall|b: Seq<char>|
                    #![trigger in_str_views(adj@, b)]
                    in_str_views(adj@, b) <==> exists|kk: int|
                        0 <= kk < k2 + 1 && (#[trigger] pairs@[kk]).0@ == names@[m as int]@
                            && pairs@[kk].1@ == b by {
                    if in_str_views(adj@, b) {
                        if is_source && b == pairs@[k2 as int].1@ {
                            assert(pairs@[k2 as int].0@ == names@[m as int]@);
                        } else {
                            assert(in_str_views(adj0, b));
                            let kk = choose|kk: int|
                                0 <= kk < k2 && (#[trigger] pairs@[kk]).0@ == names@[m as int]@
                                    && pairs@[kk].1@ == b;
                        }
                    }
                    if exists|kk: int|
                        0 <= kk < k2 + 1 && (#[trigger] pairs@[kk]).0@ == names@[m as int]@
                            && pairs@[kk].1@ == b {
                        let kk = choose|kk: int|
                            0 <= kk < k2 + 1 && (#[trigger] pairs@[kk]).0@ == names@[m as int]@
                                && pairs@[kk].1@ == b;
                        if kk < k2 {
                            assert(in_str_views(adj0, b));
                        } else {
                            assert(is_source);
                        }
                    }
                }
            }
            k2 = k2 + 1;
        }
        proof {
            assert(in_str_views(names@, names@[m as int]@)) by {
                assert((names@[m as int])@ == names@[m as int]@);
            }
            let kw = choose|kk: int|
                0 <= kk < np && (#[trigger] pairs@[kk]).0@ == names@[m as int]@;
            assert(in_str_views(adj@, pairs@[kw].1@));
            assert(adj@.len() > 0) by {
                let jw = choose|j: int|
                    0 <= j < adj@.len() && (#[trigger] adj@[j])@ == pairs@[kw].1@;
            }
            assert forall|b: Seq<char>| in_str_views(adj@, b) <==> spec_adjacent(
                rows@,
                names@[m as int]@,
                b,
            ) by {
                if in_str_views(adj@, b) {
                    let kk = choose|kk: int|
                        0 <= kk < np && (#[trigger] pairs@[kk]).0@ == names@[m as int]@
                            && (pairs@[kk]).1@ == b;
                    assert(spec_adjacent(rows@, pairs@[kk].0@, pairs@[kk].1@));
                }
                if spec_adjacent(rows@, names@[m as int]@, b) {
                    assert(pair_in(pairs@, names@[m as int]@, b));
                    let kk = choose|kk: int|
                        0 <= kk < pairs@.len() && (#[trigger] pairs@[kk]).0@ == names@[m as int]@
                            && pairs@[kk].1@ == b;
                }
            }
        }
        out.push((name.clone(), adj));
        proof {
            assert((out@[m as int]).0@ == names@[m as int]@);
            assert(adj_row_ok(rows@, out@[m as int]));
        }
        m = m + 1;
    }
    let ghost out0 = out@;
    let r = sort_adj(out);
    proof {
        out0.to_multiset_ensures();
        r@.to_multiset_ensures();
        assert forall|p: int| 0 <= p < r@.len() implies out0.contains(#[trigger] r@[p]) by {
            assert(r@.contains(r@[p]));
            assert(r@.to_multiset().count(r@[p]) > 0);
            assert(out0.to_multiset().count(r@[p]) > 0);
        }
        assert forall|p: int| 0 <= p < r@.len() implies adj_row_ok(rows@, #[trigger] r@[p]) by {
            let q = choose|q: int| 0 <= q < out0.len() && out0[q] == r@[p];
        }
        assert(out0.no_duplicates()) by {
            assert forall|p: int, q: int| 0 <= p < q < out0.len() implies out0[p] != out0[q] by {
                assert((#[trigger] out0[p]).0@ == names@[p]@);
                assert((#[trigger] out0[q]).0@ == names@[q]@);
            }
        }
        out0.lemma_multiset_has_no_duplicates();
        r@.lemma_multiset_has_no_duplicates_conv();
        assert(r@.no_duplicates());
        assert forall|p: int, q: int| 0 <= p < q < r@.len() implies (#[trigger] r@[p]).0@ != (
        #[trigger] r@[q]).0@ by {
            let pa = choose|z: int| 0 <= z < out0.len() && out0[z] == r@[p];
            let pb = choose|z: int| 0 <= z < out0.len() && out0[z] == r@[q];
            if pa == pb {
                assert(r@[p] == r@[q]);
                assert(false);
            } else {
                assert(out0[pa].0@ == names@[pa]@);
                assert(out0[pb].0@ == names@[pb]@);
            }
        }
        assert forall|a: Seq<char>, b: Seq<char>| #[trigger] spec_adjacent(
            rows@,
            a,
            b,
        ) implies exists|p: int| 0 <= p < r@.len() && (#[trigger] r@[p]).0@ == a by {
            assert(pair_in(pairs@, a, b));
            let kk = choose|kk: int|
                0 <= kk < pairs@.len() && (#[trigger] pairs@[kk]).0@ == a && pairs@[kk].1@ == b;
            assert(in_str_views(names@, a));
            let mm = choose|j: int| 0 <= j < names@.len() && (#[trigger] names@[j])@ == a;
            assert(out0[mm].0@ == a);
            assert(out0.contains(out0[mm]));
            assert(out0.to_multiset().count(out0[mm]) > 0);
            assert(r@.to_multiset().count(out0[mm]) > 0);
            assert(r@.contains(out0[mm]));
            let p = choose|p: int| 0 <= p < r@.len() && r@[p] == out0[mm];
            assert(r@[p].0@ == a);
        }
    }
    r
}

} // verus!
