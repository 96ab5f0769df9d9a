//! The graph normalizer: the sentinel filter over a directed graph, and
//! the per-edge statistics derived from each node's totals.

use crate::cache::{has_key, key_index, lemma_seq_to_map, ArcStrMap};
use crate::graph::{graph_wf, Graph};
use crate::is_kat::SentinelConfig;
use crate::metadata::{round_div, spec_metadata, Metadata};
use vstd::prelude::*;

verus! {

/// A graph of per-edge statistics, keyed like the directed graph.
pub type StatsGraph = ArcStrMap<ArcStrMap<Metadata>>;

/// Whether `dst` is `src` with the excluded edge keys removed and the
/// rest unchanged.
pub open spec fn filtered_node(
    src: ArcStrMap<u32>,
    dst: ArcStrMap<u32>,
    cfg: SentinelConfig,
) -> bool {
    &&& forall|e: Seq<char>| #[trigger]
        dst@.contains_key(e) <==> (src@.contains_key(e) && !cfg.spec_drops_either(e))
    &&& forall|e: Seq<char>| #[trigger] dst@.contains_key(e) ==> dst@[e] == src@[e]
}

/// Drop the sentinel from the graph: while the exclusion flag is set, nodes and
/// edge targets matching the sentinel's key or current name are removed,
/// and so is every node left without an edge.
pub fn filter_graph(g: &Graph, cfg: &SentinelConfig) -> (r: Graph)
    requires
        graph_wf(g),
    ensures
        graph_wf(&r),
        forall|nm: Seq<char>| #[trigger]
            r@.contains_key(nm) <==> (g@.contains_key(nm) && !cfg.spec_drops_either(nm) && exists|
                e: Seq<char>,
            | #[trigger] g@[nm]@.contains_key(e) && !cfg.spec_drops_either(e)),
        forall|nm: Seq<char>| #[trigger]
            r@.contains_key(nm) ==> r@[nm].wf() && filtered_node(g@[nm], r@[nm], *cfg),
{
    let ghost nodes = g.entries@;
    proof {
        lemma_seq_to_map(nodes);
        assert forall|i: int| 0 <= i < nodes.len() implies #[trigger] g@.contains_key(
            nodes[i].0@,
        ) && g@[nodes[i].0@] == nodes[i].1 by {
            assert(has_key(nodes, nodes[i].0@));
        }
    }
    let n = g.entries.len();
    let mut r: Graph = ArcStrMap::new();
    let mut i: usize = 0;
    while i < n
        invariant
            n == nodes.len(),
            nodes == g.entries@,
            g.wf(),
            forall|ii: int| 0 <= ii < nodes.len() ==> (#[trigger] nodes[ii]).1.wf(),
            forall|ii: int| 0 <= ii < nodes.len() ==> #[trigger] g@.contains_key(nodes[ii].0@)
                && g@[nodes[ii].0@] == nodes[ii].1,
            i <= n,
            r.wf(),
            forall|nm: Seq<char>| #[trigger]
                r@.contains_key(nm) <==> exists|ii: int|
                    0 <= ii < i && (#[trigger] nodes[ii]).0@ == nm && !cfg.spec_drops_either(nm)
                        && (exists|e: Seq<char>| #[trigger] nodes[ii].1@.contains_key(e)
                        && !cfg.spec_drops_either(e)),
            forall|nm: Seq<char>| #[trigger]
                r@.contains_key(nm) ==> r@[nm].wf() && exists|ii: int|
                    0 <= ii < i && (#[trigger] nodes[ii]).0@ == nm && filtered_node(
                        nodes[ii].1,
                        r@[nm],
                        *cfg,
                    ),
        decreases n - i,
    {
        let node_name = &g.entries[i].0;
        let em = &g.entries[i].1;
        let name_dropped = cfg.kat_exists && (*node_name == cfg.kat_id || *node_name
            == cfg.kat_name);
        let ghost r0 = r@;
        if !name_dropped {
            let em2 = filter_edges(em, cfg);
            if em2.len() > 0 {
                proof {
                    lemma_seq_to_map(em2.entries@);
                    assert(has_key(em2.entries@, em2.entries@[0].0@));
                    assert(em2@.contains_key(em2.entries@[0].0@));
                }
                let ghost em2v = em2@;
                r.insert(node_name.clone(), em2);
                proof {
                    assert(r@[nodes[i as int].0@]@ == em2v);
                    let e0 = choose|e: Seq<char>| #[trigger] em2v.contains_key(e);
                    assert(nodes[i as int].1@.contains_key(e0) && !cfg.spec_drops_either(e0));
                    assert forall|nm: Seq<char>| #[trigger] r@.contains_key(nm) implies exists|
                        ii: int,
                    |
                        0 <= ii < i + 1 && (#[trigger] nodes[ii]).0@ == nm && filtered_node(
                            nodes[ii].1,
                            r@[nm],
                            *cfg,
                        ) by {
                        if nm == nodes[i as int].0@ {
                            assert(filtered_node(nodes[i as int].1, r@[nm], *cfg));
                        } else {
                            assert(r0.contains_key(nm));
                            let ii = choose|ii: int|
                                0 <= ii < i && (#[trigger] nodes[ii]).0@ == nm && filtered_node(
                                    nodes[ii].1,
                                    r0[nm],
                                    *cfg,
                                );
                            assert(r@[nm] == r0[nm]);
                        }
                    }
                }
            } else {
                proof {
                    lemma_seq_to_map(em2.entries@);
                    assert forall|e: Seq<char>| #[trigger] nodes[i as int].1@.contains_key(e)
                        && !cfg.spec_drops_either(e) implies false by {
                        assert(em2@.contains_key(e));
                        assert(has_key(em2.entries@, e));
                    }
                }
            }
        }
        i = i + 1;
    }
    proof {
        assert forall|nm: Seq<char>| #[trigger] r@.contains_key(nm) implies (g@.contains_key(nm)
            && !cfg.spec_drops_either(nm) && exists|e: Seq<char>| #[trigger] g@[nm]@.contains_key(
            e,
        ) && !cfg.spec_drops_either(e)) by {
            let ii = choose|ii: int|
                0 <= ii < n && (#[trigger] nodes[ii]).0@ == nm && !cfg.spec_drops_either(nm) && (
                exists|e: Seq<char>| #[trigger] nodes[ii].1@.contains_key(e)
                    && !cfg.spec_drops_either(e));
            let e = choose|e: Seq<char>| #[trigger] nodes[ii].1@.contains_key(e)
                && !cfg.spec_drops_either(e);
            assert(g@[nm]@.contains_key(e));
        }
        assert forall|nm: Seq<char>|
            (g@.contains_key(nm) && !cfg.spec_drops_either(nm) && exists|e: Seq<char>| #[trigger]
                g@[nm]@.contains_key(e) && !cfg.spec_drops_either(e)) implies #[trigger]
            r@.contains_key(nm) by {
            let ii = key_index(nodes, nm);
            assert(has_key(nodes, nm));
            assert(0 <= ii < nodes.len() && nodes[ii].0@ == nm);
            assert(nodes[ii].1 == g@[nm]);
            let e = choose|e: Seq<char>| #[trigger] g@[nm]@.contains_key(e)
                && !cfg.spec_drops_either(e);
            assert(nodes[ii].1@.contains_key(e) && !cfg.spec_drops_either(e));
        }
        assert forall|nm: Seq<char>| #[trigger] r@.contains_key(nm) implies r@[nm].wf()
            && filtered_node(g@[nm], r@[nm], *cfg) by {
            let ii = choose|ii: int|
                0 <= ii < n && (#[trigger] nodes[ii]).0@ == nm && filtered_node(
                    nodes[ii].1,
                    r@[nm],
                    *cfg,
                );
            assert(nodes[ii].1 == g@[nm]);
        }
        assert forall|i2: int| 0 <= i2 < r.entries@.len() implies (#[trigger] r.entries@[i2]).1.wf()
            by {
            lemma_seq_to_map(r.entries@);
            assert(has_key(r.entries@, r.entries@[i2].0@));
            assert(r@.contains_key(r.entries@[i2].0@));
            assert(r@[r.entries@[i2].0@] == r.entries@[i2].1);
        }
    }
    r
}

/// Keep the edges whose key the exclusion does not drop.
fn filter_edges(em: &ArcStrMap<u32>, cfg: &SentinelConfig) -> (r: ArcStrMap<u32>)
    requires
        em.wf(),
    ensures
        r.wf(),
        filtered_node(*em, r, *cfg),
{
    let ghost entries = em.entries@;
    proof {
        lemma_seq_to_map(entries);
        assert forall|jj: int| 0 <= jj < entries.len() implies #[trigger] em@.contains_key(
            entries[jj].0@,
        ) && em@[entries[jj].0@] == entries[jj].1 by {
            assert(has_key(entries, entries[jj].0@));
        }
    }
    let n = em.entries.len();
    let mut r: ArcStrMap<u32> = ArcStrMap::new();
    let mut j: usize = 0;
    while j < n
        invariant
            n == entries.len(),
            entries == em.entries@,
            em.wf(),
            forall|jj: int| 0 <= jj < entries.len() ==> #[trigger] em@.contains_key(
                entries[jj].0@,
            ) && em@[entries[jj].0@] == entries[jj].1,
            j <= n,
            r.wf(),
            forall|e: Seq<char>| #[trigger]
                r@.contains_key(e) <==> exists|jj: int|
                    0 <= jj < j && (#[trigger] entries[jj]).0@ == e && !cfg.spec_drops_either(e),
            forall|e: Seq<char>| #[trigger] r@.contains_key(e) ==> r@[e] == em@[e],
        decreases n - j,
    {
        let key = &em.entries[j].0;
        let c = em.entries[j].1;
        let dropped = cfg.kat_exists && (*key == cfg.kat_id || *key == cfg.kat_name);
        let ghost r0 = r@;
        if !dropped {
            r.insert(key.clone(), c);
            proof {
                assert forall|e: Seq<char>| #[trigger] r@.contains_key(e) implies r@[e]
                    == em@[e] by {
                    if e == entries[j as int].0@ {
                        assert(r@[e] == c);
                    } else {
                        assert(r0.contains_key(e));
                        assert(r@[e] == r0[e]);
                    }
                }
            }
        }
        j = j + 1;
    }
    proof {
        assert forall|e: Seq<char>| #[trigger] r@.contains_key(e) implies (em@.contains_key(e)
            && !cfg.spec_drops_either(e)) by {
            let jj = choose|jj: int|
                0 <= jj < n && (#[trigger] entries[jj]).0@ == e && !cfg.spec_drops_either(e);
        }
        assert forall|e: Seq<char>|
            (em@.contains_key(e) && !cfg.spec_drops_either(e)) implies #[trigger] r@.contains_key(
            e,
        ) by {
            let jj = key_index(entries, e);
            assert(has_key(entries, e));
            assert(0 <= jj < entries.len() && entries[jj].0@ == e);
        }
    }
    r
}

/// The total outgoing weight of an edge list.
pub open spec fn sum_counts(s: Seq<(String, u32)>) -> int
    decreases s.len(),
{
    if s.len() == 0 {
        0
    } else {
        sum_counts(s.drop_last()) + s.last().1
    }
}

/// The maximum outgoing count of an edge list (zero when empty).
pub open spec fn max_count(s: Seq<(String, u32)>) -> int
    decreases s.len(),
{
    if s.len() == 0 {
        0
    } else {
        let m = max_count(s.drop_last());
        if s.last().1 > m {
            s.last().1 as int
        } else {
            m
        }
    }
}

/// Totals are non-negative, prefixes never exceed the whole, and every
/// count is below both the total and the maximum, which the total bounds.
pub proof fn lemma_counts(s: Seq<(String, u32)>)
    ensures
        sum_counts(s) >= 0,
        0 <= max_count(s) <= sum_counts(s),
        forall|i: int| 0 <= i < s.len() ==> (#[trigger] s[i]).1 <= max_count(s),
        forall|i: int| 0 <= i <= s.len() ==> sum_counts(#[trigger] s.take(i)) <= sum_counts(s),
    decreases s.len(),
{
    if s.len() > 0 {
        lemma_counts(s.drop_last());
        assert forall|i: int| 0 <= i < s.len() implies (#[trigger] s[i]).1 <= max_count(s) by {
            if i < s.len() - 1 {
                assert(s.drop_last()[i] == s[i]);
            }
        }
        assert forall|i: int| 0 <= i <= s.len() implies sum_counts(#[trigger] s.take(i))
            <= sum_counts(s) by {
            if i < s.len() {
                assert(s.take(i) =~= s.drop_last().take(i));
            } else {
                assert(s.take(i) =~= s);
            }
        }
    }
}

/// Whether `dst` carries the per-edge statistics of the edge list `src`.
pub open spec fn normalized_node(src: ArcStrMap<u32>, dst: ArcStrMap<Metadata>) -> bool {
    let total = sum_counts(src.entries@);
    let maxc = max_count(src.entries@);
    &&& forall|e: Seq<char>| #[trigger] dst@.contains_key(e) <==> src@.contains_key(e)
    &&& forall|e: Seq<char>| #[trigger]
        dst@.contains_key(e) ==> dst@[e] == spec_metadata(src@[e], total, maxc)
}

/// Derive per-edge statistics for every node: each edge's count, the
/// node's total and biased maximum, and the two rounded shares. A node
/// whose total weight is zero is dropped, so no division is undefined.
pub fn normalize(g: &Graph) -> (r: StatsGraph)
    requires
        graph_wf(g),
        forall|i: int|
            0 <= i < g.entries@.len() ==> sum_counts((#[trigger] g.entries@[i]).1.entries@)
                < u32::MAX,
    ensures
        r.wf(),
        forall|nm: Seq<char>| #[trigger]
            r@.contains_key(nm) <==> (g@.contains_key(nm) && sum_counts(g@[nm].entries@) > 0),
        forall|nm: Seq<char>| #[trigger]
            r@.contains_key(nm) ==> r@[nm].wf() && normalized_node(g@[nm], r@[nm]),
{
    let ghost nodes = g.entries@;
    proof {
        lemma_seq_to_map(nodes);
        assert forall|i: int| 0 <= i < nodes.len() implies #[trigger] g@.contains_key(
            nodes[i].0@,
        ) && g@[nodes[i].0@] == nodes[i].1 by {
            assert(has_key(nodes, nodes[i].0@));
        }
    }
    let n = g.entries.len();
    let mut r: StatsGraph = ArcStrMap::new();
    let mut i: usize = 0;
    while i < n
        invariant
            n == nodes.len(),
            nodes == g.entries@,
            g.wf(),
            forall|ii: int| 0 <= ii < nodes.len() ==> (#[trigger] nodes[ii]).1.wf(),
            forall|ii: int| 0 <= ii < nodes.len() ==> sum_counts((#[trigger] nodes[ii]).1.entries@)
                < u32::MAX,
            forall|ii: int| 0 <= ii < nodes.len() ==> #[trigger] g@.contains_key(nodes[ii].0@)
                && g@[nodes[ii].0@] == nodes[ii].1,
            i <= n,
            r.wf(),
            forall|nm: Seq<char>| #[trigger]
                r@.contains_key(nm) <==> exists|ii: int|
                    0 <= ii < i && (#[trigger] nodes[ii]).0@ == nm && sum_counts(
                        nodes[ii].1.entries@,
                    ) > 0,
            forall|nm: Seq<char>| #[trigger]
                r@.contains_key(nm) ==> r@[nm].wf() && exists|ii: int|
                    0 <= ii < i && (#[trigger] nodes[ii]).0@ == nm && normalized_node(
                        nodes[ii].1,
                        r@[nm],
                    ),
        decreases n - i,
    {
        let node_name = &g.entries[i].0;
        let em = &g.entries[i].1;
        let total = sum_edge_counts(em);
        let ghost r0 = r@;
        if total > 0 {
            let em2 = normalize_edges(em, total);
            let ghost em2v = em2@;
            r.insert(node_name.clone(), em2);
            proof {
                assert(r@[nodes[i as int].0@]@ == em2v);
                assert forall|nm: Seq<char>| #[trigger] r@.contains_key(nm) implies exists|
                    ii: int,
                |
                    0 <= ii < i + 1 && (#[trigger] nodes[ii]).0@ == nm && normalized_node(
                        nodes[ii].1,
                        r@[nm],
                    ) by {
                    if nm == nodes[i as int].0@ {
                        assert(normalized_node(nodes[i as int].1, r@[nm]));
                    } else {
                        assert(r0.contains_key(nm));
                        let ii = choose|ii: int|
                            0 <= ii < i && (#[trigger] nodes[ii]).0@ == nm && normalized_node(
                                nodes[ii].1,
                                r0[nm],
                            );
                        assert(r@[nm] == r0[nm]);
                    }
                }
            }
        }
        i = i + 1;
    }
    proof {
        assert forall|nm: Seq<char>| #[trigger] r@.contains_key(nm) implies (g@.contains_key(nm)
            && sum_counts(g@[nm].entries@) > 0) by {
            let ii = choose|ii: int|
                0 <= ii < n && (#[trigger] nodes[ii]).0@ == nm && sum_counts(nodes[ii].1.entries@)
                    > 0;
        }
        assert forall|nm: Seq<char>|
            (g@.contains_key(nm) && sum_counts(g@[nm].entries@) > 0) implies #[trigger]
            r@.contains_key(nm) by {
            let ii = key_index(nodes, nm);
            assert(has_key(nodes, nm));
            assert(0 <= ii < nodes.len() && nodes[ii].0@ == nm);
            assert(nodes[ii].1 == g@[nm]);
        }
        assert forall|nm: Seq<char>| #[trigger] r@.contains_key(nm) implies r@[nm].wf()
            && normalized_node(g@[nm], r@[nm]) by {
            let ii = choose|ii: int|
                0 <= ii < n && (#[trigger] nodes[ii]).0@ == nm && normalized_node(
                    nodes[ii].1,
                    r@[nm],
                );
            assert(nodes[ii].1 == g@[nm]);
        }
    }
    r
}

/// The total outgoing weight of the node, summed without overflow.
fn sum_edge_counts(em: &ArcStrMap<u32>) -> (r: u64)
    requires
        sum_counts(em.entries@) < u32::MAX,
    ensures
        r == sum_counts(em.entries@),
{
    let ghost entries = em.entries@;
    proof {
        lemma_counts(entries);
    }
    let n = em.entries.len();
    let mut acc: u64 = 0;
    let mut j: usize = 0;
    while j < n
        invariant
            n == entries.len(),
            entries == em.entries@,
            j <= n,
            sum_counts(entries) < u32::MAX,
            forall|i: int| 0 <= i <= entries.len() ==> sum_counts(#[trigger] entries.take(i))
                <= sum_counts(entries),
            acc == sum_counts(entries.take(j as int)),
            acc < u32::MAX,
        decreases n - j,
    {
        let c = em.entries[j].1;
        proof {
            assert(entries.take(j as int + 1).drop_last() =~= entries.take(j as int));
            assert(entries.take(j as int + 1).last() == entries[j as int]);
            lemma_counts(entries.take(j as int + 1));
        }
        acc = acc + c as u64;
        j = j + 1;
    }
    proof {
        assert(entries.take(n as int) =~= entries);
    }
    acc
}

/// The maximum outgoing count of the node.
fn max_edge_count(em: &ArcStrMap<u32>) -> (r: u32)
    ensures
        r == max_count(em.entries@),
{
    let ghost entries = em.entries@;
    let n = em.entries.len();
    let mut acc: u32 = 0;
    let mut j: usize = 0;
    while j < n
        invariant
            n == entries.len(),
            entries == em.entries@,
            j <= n,
            acc == max_count(entries.take(j as int)),
        decreases n - j,
    {
        let c = em.entries[j].1;
        proof {
            assert(entries.take(j as int + 1).drop_last() =~= entries.take(j as int));
            assert(entries.take(j as int + 1).last() == entries[j as int]);
        }
        if c > acc {
            acc = c;
        }
        j = j + 1;
    }
    proof {
        assert(entries.take(n as int) =~= entries);
    }
    acc
}

/// Derive the statistics of each edge of one node.
fn normalize_edges(em: &ArcStrMap<u32>, total: u64) -> (r: ArcStrMap<Metadata>)
    requires
        em.wf(),
        0 < total == sum_counts(em.entries@),
        sum_counts(em.entries@) < u32::MAX,
    ensures
        r.wf(),
        normalized_node(*em, r),
{
    let ghost entries = em.entries@;
    let ghost totalg = sum_counts(entries);
    let ghost maxg = max_count(entries);
    proof {
        lemma_counts(entries);
        lemma_seq_to_map(entries);
        assert forall|jj: int| 0 <= jj < entries.len() implies #[trigger] em@.contains_key(
            entries[jj].0@,
        ) && em@[entries[jj].0@] == entries[jj].1 by {
            assert(has_key(entries, entries[jj].0@));
        }
    }
    let maxc = max_edge_count(em);
    let n = em.entries.len();
    let mut r: ArcStrMap<Metadata> = ArcStrMap::new();
    let mut j: usize = 0;
    while j < n
        invariant
            n == entries.len(),
            entries == em.entries@,
            em.wf(),
            forall|jj: int| 0 <= jj < entries.len() ==> #[trigger] em@.contains_key(
                entries[jj].0@,
            ) && em@[entries[jj].0@] == entries[jj].1,
            forall|jj: int| 0 <= jj < entries.len() ==> (#[trigger] entries[jj]).1 <= maxg,
            j <= n,
            0 < total == totalg,
            totalg == sum_counts(entries),
            totalg < u32::MAX,
            maxc == maxg,
            maxg == max_count(entries),
            0 <= maxg <= totalg,
            r.wf(),
            forall|e: Seq<char>| #[trigger]
                r@.contains_key(e) <==> exists|jj: int|
                    0 <= jj < j && (#[trigger] entries[jj]).0@ == e,
            forall|e: Seq<char>| #[trigger]
                r@.contains_key(e) ==> r@[e] == spec_metadata(em@[e], totalg, maxg),
        decreases n - j,
    {
        let key = &em.entries[j].0;
        let c = em.entries[j].1;
        let num: u64 = (c as u64) * 10000;
        let den: u64 = total;
        let pct: u64 = (2 * num + den) / (2 * den);
        let maxden: u64 = (maxc as u64) + 2;
        let pctile: u64 = (2 * num + maxden) / (2 * maxden);
        let meta = Metadata {
            count: c,
            max: maxc + 1,
            total: total as u32,
            percentage: pct as u32,
            percentile: pctile as u32,
        };
        proof {
            assert(meta == spec_metadata(entries[j as int].1, totalg, maxg));
        }
        let ghost r0 = r@;
        r.insert(key.clone(), meta);
        proof {
            assert forall|e: Seq<char>| #[trigger] r@.contains_key(e) implies r@[e]
                == spec_metadata(em@[e], totalg, maxg) by {
                if e == entries[j as int].0@ {
                    assert(r@[e] == meta);
                } else {
                    assert(r0.contains_key(e));
                    assert(r@[e] == r0[e]);
                }
            }
        }
        j = j + 1;
    }
    proof {
        assert forall|e: Seq<char>| #[trigger] r@.contains_key(e) <==> em@.contains_key(e) by {
            if r@.contains_key(e) {
                let jj = choose|jj: int| 0 <= jj < n && (#[trigger] entries[jj]).0@ == e;
            }
            if em@.contains_key(e) {
                let jj = key_index(entries, e);
                assert(has_key(entries, e));
                assert(0 <= jj < entries.len() && entries[jj].0@ == e);
            }
        }
    }
    r
}

/// The rounded percentages of one node's edges, summed.
pub open spec fn sum_pct(s: Seq<(String, u32)>, total: int) -> int
    decreases s.len(),
{
    if s.len() == 0 {
        0
    } else {
        sum_pct(s.drop_last(), total) + round_div(s.last().1 * 10000, total)
    }
}

/// Scaled bound: the percentage sum times the total stays within one
/// total per edge of the exact split.
proof fn lemma_sum_pct_bounds(s: Seq<(String, u32)>, total: int)
    requires
        total > 0,
    ensures
        total * sum_pct(s, total) >= 10000 * sum_counts(s) - s.len() * total,
        total * sum_pct(s, total) <= 10000 * sum_counts(s) + s.len() * total,
    decreases s.len(),
{
    if s.len() == 0 {
        assert(total * 0 == 0) by (nonlinear_arith);
    } else {
        let rest = s.drop_last();
        lemma_sum_pct_bounds(rest, total);
        let a = s.last().1 * 10000int;
        let q = round_div(a, total);
        crate::metadata::lemma_round_div_bounds(a, total);
        assert(total * sum_pct(s, total) == total * sum_pct(rest, total) + total * q)
            by (nonlinear_arith)
            requires sum_pct(s, total) == sum_pct(rest, total) + q;
        assert(s.len() * total == rest.len() * total + total) by (nonlinear_arith)
            requires s.len() == rest.len() + 1;
        assert(10000 * sum_counts(s) == 10000 * sum_counts(rest) + a);
    }
}

/// Normalization splits the whole: when nothing was filtered away, one
/// node's rounded percentages sum to one hundred percent, within one
/// rounding unit (a hundredth of a percent) per edge.
pub proof fn lemma_percentage_sum(s: Seq<(String, u32)>, total: int)
    requires
        total == sum_counts(s),
        total > 0,
    ensures
        10000 - s.len() <= sum_pct(s, total) <= 10000 + s.len(),
{
    lemma_sum_pct_bounds(s, total);
    let p = sum_pct(s, total);
    let n = s.len() as int;
    assert(total * p >= 10000 * total - n * total);
    assert(total * p <= 10000 * total + n * total);
    assert(p >= 10000 - n) by (nonlinear_arith)
        requires total > 0, total * p >= 10000 * total - n * total;
    assert(p <= 10000 + n) by (nonlinear_arith)
        requires total > 0, total * p <= 10000 * total + n * total;
}

/// A percentage never exceeds one hundred percent: each count is at most
/// the total.
pub proof fn lemma_percentage_in_range(c: u32, total: int)
    requires
        0 < total,
        c <= total,
    ensures
        0 <= round_div(c * 10000, total) <= 10000,
{
    crate::metadata::lemma_round_div_bounds(c * 10000, total);
    let a = c * 10000int;
    assert(2 * a + total <= (2 * total) * 10001) by (nonlinear_arith)
        requires a <= total * 10000, total > 0;
    vstd::arithmetic::div_mod::lemma_multiply_divide_lt(2 * a + total, 2 * total, 10001);
}

/// Normalization splits the whole, node by node: each edge of a
/// normalized node carries exactly the rounded share of its count, and
/// those shares sum to one hundred percent within one rounding unit per
/// edge.
pub proof fn lemma_node_percentage_sum(src: ArcStrMap<u32>, dst: ArcStrMap<Metadata>)
    requires
        src.wf(),
        normalized_node(src, dst),
        sum_counts(src.entries@) > 0,
    ensures
        forall|i: int|
            0 <= i < src.entries@.len() ==> dst@[(#[trigger] src.entries@[i]).0@].percentage
                == round_div(src.entries@[i].1 * 10000, sum_counts(src.entries@)),
        10000 - src.spec_len() <= sum_pct(src.entries@, sum_counts(src.entries@)) <= 10000
            + src.spec_len(),
{
    let s = src.entries@;
    let total = sum_counts(s);
    lemma_counts(s);
    lemma_seq_to_map(s);
    assert forall|i: int| 0 <= i < s.len() implies dst@[(#[trigger] s[i]).0@].percentage
        == round_div(s[i].1 * 10000, total) by {
        assert(has_key(s, s[i].0@));
        assert(src@.contains_key(s[i].0@));
        assert(src@[s[i].0@] == s[i].1);
        assert(dst@.contains_key(s[i].0@));
        assert(dst@[s[i].0@] == crate::metadata::spec_metadata(
            s[i].1,
            total,
            max_count(s),
        ));
        assert(s[i].1 <= total) by {
            assert(s.take(i + 1).drop_last() =~= s.take(i));
            assert(s.take(i + 1).last() == s[i]);
            assert(sum_counts(s.take(i + 1)) <= sum_counts(s));
            assert(sum_counts(s.take(i)) >= 0) by {
                lemma_counts(s.take(i));
            }
        }
        lemma_percentage_in_range(s[i].1, total);
    }
    lemma_percentage_sum(s, total);
}

/// Whether `dst` is `src` with the edges below the percentage threshold
/// removed and the rest unchanged.
pub open spec fn thresholded_node(
    src: ArcStrMap<Metadata>,
    dst: ArcStrMap<Metadata>,
    min_percentage: u32,
) -> bool {
    &&& forall|e: Seq<char>| #[trigger]
        dst@.contains_key(e) <==> (src@.contains_key(e) && src@[e].percentage >= min_percentage)
    &&& forall|e: Seq<char>| #[trigger] dst@.contains_key(e) ==> dst@[e] == src@[e]
}

/// Thresholding as a policy the caller opts into: keep only the edges
/// whose share of their node reaches `min_percentage` (in hundredths of a
/// percent), and drop every node left without an edge. A zero threshold
/// keeps the graph as it is.
pub fn apply_threshold(g: &StatsGraph, min_percentage: u32) -> (r: StatsGraph)
    requires
        g.wf(),
        forall|i: int| 0 <= i < g.entries@.len() ==> (#[trigger] g.entries@[i]).1.wf(),
    ensures
        r.wf(),
        forall|nm: Seq<char>| #[trigger]
            r@.contains_key(nm) <==> (g@.contains_key(nm) && exists|e: Seq<char>| #[trigger]
                g@[nm]@.contains_key(e) && g@[nm]@[e].percentage >= min_percentage),
        forall|nm: Seq<char>| #[trigger]
            r@.contains_key(nm) ==> r@[nm].wf() && thresholded_node(g@[nm], r@[nm], min_percentage),
{
    let ghost nodes = g.entries@;
    proof {
        lemma_seq_to_map(nodes);
        assert forall|i: int| 0 <= i < nodes.len() implies #[trigger] g@.contains_key(
            nodes[i].0@,
        ) && g@[nodes[i].0@] == nodes[i].1 by {
            assert(has_key(nodes, nodes[i].0@));
        }
    }
    let n = g.entries.len();
    let mut r: StatsGraph = ArcStrMap::new();
    let mut i: usize = 0;
    while i < n
        invariant
            n == nodes.len(),
            nodes == g.entries@,
            g.wf(),
            forall|ii: int| 0 <= ii < nodes.len() ==> (#[trigger] nodes[ii]).1.wf(),
            forall|ii: int| 0 <= ii < nodes.len() ==> #[trigger] g@.contains_key(nodes[ii].0@)
                && g@[nodes[ii].0@] == nodes[ii].1,
            i <= n,
            r.wf(),
            forall|nm: Seq<char>| #[trigger]
                r@.contains_key(nm) <==> exists|ii: int|
                    0 <= ii < i && (#[trigger] nodes[ii]).0@ == nm && (exists|e: Seq<char>|
                        #[trigger] nodes[ii].1@.contains_key(e) && nodes[ii].1@[e].percentage
                            >= min_percentage),
            forall|nm: Seq<char>| #[trigger]
                r@.contains_key(nm) ==> r@[nm].wf() && exists|ii: int|
                    0 <= ii < i && (#[trigger] nodes[ii]).0@ == nm && thresholded_node(
                        nodes[ii].1,
                        r@[nm],
                        min_percentage,
                    ),
        decreases n - i,
    {
        let node_name = &g.entries[i].0;
        let em = &g.entries[i].1;
        let em2 = threshold_edges(em, min_percentage);
        let ghost r0 = r@;
        if em2.len() > 0 {
            proof {
                lemma_seq_to_map(em2.entries@);
                assert(has_key(em2.entries@, em2.entries@[0].0@));
                assert(em2@.contains_key(em2.entries@[0].0@));
            }
            let ghost em2v = em2@;
            r.insert(node_name.clone(), em2);
            proof {
                assert(r@[nodes[i as int].0@]@ == em2v);
                let e0 = choose|e: Seq<char>| #[trigger] em2v.contains_key(e);
                assert(nodes[i as int].1@.contains_key(e0) && nodes[i as int].1@[e0].percentage
                    >= min_percentage);
                assert forall|nm: Seq<char>| #[trigger] r@.contains_key(nm) implies exists|
                    ii: int,
                |
                    0 <= ii < i + 1 && (#[trigger] nodes[ii]).0@ == nm && thresholded_node(
                        nodes[ii].1,
                        r@[nm],
                        min_percentage,
                    ) by {
                    if nm == nodes[i as int].0@ {
                        assert(thresholded_node(nodes[i as int].1, r@[nm], min_percentage));
                    } else {
                        assert(r0.contains_key(nm));
                        let ii = choose|ii: int|
                            0 <= ii < i && (#[trigger] nodes[ii]).0@ == nm && thresholded_node(
                                nodes[ii].1,
                                r0[nm],
                                min_percentage,
                            );
                        assert(r@[nm] == r0[nm]);
                    }
                }
            }
        } else {
            proof {
                lemma_seq_to_map(em2.entries@);
                assert forall|e: Seq<char>| #[trigger] nodes[i as int].1@.contains_key(e)
                    && nodes[i as int].1@[e].percentage >= min_percentage implies false by {
                    assert(em2@.contains_key(e));
                    assert(has_key(em2.entries@, e));
                }
            }
        }
        i = i + 1;
    }
    proof {
        assert forall|nm: Seq<char>| #[trigger] r@.contains_key(nm) implies (g@.contains_key(nm)
            && exists|e: Seq<char>| #[trigger] g@[nm]@.contains_key(e) && g@[nm]@[e].percentage
            >= min_percentage) by {
            let ii = choose|ii: int|
                0 <= ii < n && (#[trigger] nodes[ii]).0@ == nm && (exists|e: Seq<char>|
                    #[trigger] nodes[ii].1@.contains_key(e) && nodes[ii].1@[e].percentage
                        >= min_percentage);
            let e = choose|e: Seq<char>| #[trigger] nodes[ii].1@.contains_key(e)
                && nodes[ii].1@[e].percentage >= min_percentage;
            assert(g@[nm]@.contains_key(e));
        }
        assert forall|nm: Seq<char>|
            (g@.contains_key(nm) && exists|e: Seq<char>| #[trigger] g@[nm]@.contains_key(e)
                && g@[nm]@[e].percentage >= min_percentage) implies #[trigger] r@.contains_key(
            nm,
        ) by {
            let ii = key_index(nodes, nm);
            assert(has_key(nodes, nm));
            assert(0 <= ii < nodes.len() && nodes[ii].0@ == nm);
            assert(nodes[ii].1 == g@[nm]);
            let e = choose|e: Seq<char>| #[trigger] g@[nm]@.contains_key(e)
                && g@[nm]@[e].percentage >= min_percentage;
            assert(nodes[ii].1@.contains_key(e) && nodes[ii].1@[e].percentage >= min_percentage);
        }
        assert forall|nm: Seq<char>| #[trigger] r@.contains_key(nm) implies r@[nm].wf()
            && thresholded_node(g@[nm], r@[nm], min_percentage) by {
            let ii = choose|ii: int|
                0 <= ii < n && (#[trigger] nodes[ii]).0@ == nm && thresholded_node(
                    nodes[ii].1,
                    r@[nm],
                    min_percentage,
                );
            assert(nodes[ii].1 == g@[nm]);
        }
    }
    r
}

/// Keep the edges whose share reaches the threshold.
fn threshold_edges(em: &ArcStrMap<Metadata>, min_percentage: u32) -> (r: ArcStrMap<Metadata>)
    requires
        em.wf(),
    ensures
        r.wf(),
        thresholded_node(*em, r, min_percentage),
{
    let ghost entries = em.entries@;
    proof {
        lemma_seq_to_map(entries);
        assert forall|jj: int| 0 <= jj < entries.len() implies #[trigger] em@.contains_key(
            entries[jj].0@,
        ) && em@[entries[jj].0@] == entries[jj].1 by {
            assert(has_key(entries, entries[jj].0@));
        }
    }
    let n = em.entries.len();
    let mut r: ArcStrMap<Metadata> = ArcStrMap::new();
    let mut j: usize = 0;
    while j < n
        invariant
            n == entries.len(),
            entries == em.entries@,
            em.wf(),
            forall|jj: int| 0 <= jj < entries.len() ==> #[trigger] em@.contains_key(
                entries[jj].0@,
            ) && em@[entries[jj].0@] == entries[jj].1,
            j <= n,
            r.wf(),
            forall|e: Seq<char>| #[trigger]
                r@.contains_key(e) <==> exists|jj: int|
                    0 <= jj < j && (#[trigger] entries[jj]).0@ == e && entries[jj].1.percentage
                        >= min_percentage,
            forall|e: Seq<char>| #[trigger] r@.contains_key(e) ==> r@[e] == em@[e],
        decreases n - j,
    {
        let key = &em.entries[j].0;
        let m = em.entries[j].1;
        let ghost r0 = r@;
        if m.percentage >= min_percentage {
            r.insert(key.clone(), m);
            proof {
                assert forall|e: Seq<char>| #[trigger] r@.contains_key(e) implies r@[e]
                    == em@[e] by {
                    if e == entries[j as int].0@ {
                        assert(r@[e] == m);
                    } else {
                        assert(r0.contains_key(e));
                        assert(r@[e] == r0[e]);
                    }
                }
            }
        }
        j = j + 1;
    }
    proof {
        assert forall|e: Seq<char>| #[trigger] r@.contains_key(e) implies (em@.contains_key(e)
            && em@[e].percentage >= min_percentage) by {
            let jj = choose|jj: int|
                0 <= jj < n && (#[trigger] entries[jj]).0@ == e && entries[jj].1.percentage
                    >= min_percentage;
        }
        assert forall|e: Seq<char>|
            (em@.contains_key(e) && em@[e].percentage >= min_percentage) implies #[trigger]
            r@.contains_key(e) by {
            let jj = key_index(entries, e);
            assert(has_key(entries, e));
            assert(0 <= jj < entries.len() && entries[jj].0@ == e);
        }
    }
    r
}

} // verus!
