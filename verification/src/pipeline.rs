//! The whole pipeline as one verified step: expand the root's
//! neighborhood, filter the sentinel, derive the per-edge statistics, rank
//! the nodes, and project onto symmetric adjacency.
//!
//! With the exclusion flag set, the sentinel never appears anywhere past the
//! filter: not as a node, not as an edge target, and not in the undirected
//! adjacency.

use crate::cache::ArcStrMap;
use crate::error::Error;
use crate::gamelog_join_leave::GamelogJoinLeaveView;
use crate::graph::{build_graph, graph_view_spec, graph_wf, Graph};
use crate::is_kat::{Id, SentinelConfig};
use crate::normalize::{
    filter_graph, filtered_node, normalize, normalized_node, sum_counts, StatsGraph,
};
use crate::project::{adj_row_ok, project, projection_ok, spec_adjacent, AdjacencyRow};
use crate::rank::{node_le, rank, row_ok, RankedRow};
use crate::repo::{cache_consistent, in_str_views, spec_latest_name, PresenceLog};
use vstd::prelude::*;

verus! {

/// Everything one run derives from the log.
pub struct PipelineOutput {
    /// The two-level directed graph around the root, before the filter.
    pub expanded: Graph,
    /// The directed graph after the sentinel filter: the raw exported
    /// artifact.
    pub graph: Graph,
    /// Per-edge statistics of the filtered graph.
    pub stats: StatsGraph,
    /// The nodes in rank order, each with its ordered edges.
    pub ranked: Vec<RankedRow>,
    /// The symmetric adjacency, ordered by degree.
    pub undirected: Vec<AdjacencyRow>,
}

/// Whether `fg` is `g` with the sentinel dropped and empty nodes removed.
pub open spec fn filter_rel(g: &Graph, fg: &Graph, cfg: SentinelConfig) -> bool {
    &&& forall|nm: Seq<char>| #[trigger]
        fg@.contains_key(nm) <==> (g@.contains_key(nm) && !cfg.spec_drops_either(nm) && exists|
            e: Seq<char>,
        | #[trigger] g@[nm]@.contains_key(e) && !cfg.spec_drops_either(e))
    &&& forall|nm: Seq<char>| #[trigger]
        fg@.contains_key(nm) ==> fg@[nm].wf() && filtered_node(g@[nm], fg@[nm], cfg)
}

/// Whether `sg` carries the per-edge statistics of `fg`.
pub open spec fn normalize_rel(fg: &Graph, sg: &StatsGraph) -> bool {
    &&& forall|nm: Seq<char>| #[trigger]
        sg@.contains_key(nm) <==> (fg@.contains_key(nm) && sum_counts(fg@[nm].entries@) > 0)
    &&& forall|nm: Seq<char>| #[trigger]
        sg@.contains_key(nm) ==> sg@[nm].wf() && normalized_node(fg@[nm], sg@[nm])
}

/// Whether `rows` ranks exactly the nodes of `sg`.
pub open spec fn rank_rel(sg: &StatsGraph, rows: Seq<RankedRow>) -> bool {
    &&& rows.len() == sg.spec_len()
    &&& forall|a: int, b: int| 0 <= a < b < rows.len() ==> node_le(rows[a], rows[b])
    &&& forall|a: int, b: int|
        0 <= a < b < rows.len() ==> (#[trigger] rows[a]).0@ != (#[trigger] rows[b]).0@
    &&& forall|k: int| 0 <= k < rows.len() ==> row_ok(*sg, #[trigger] rows[k])
    &&& forall|nm: Seq<char>| #[trigger]
        sg@.contains_key(nm) ==> exists|k: int|
            0 <= k < rows.len() && (#[trigger] rows[k]).0@ == nm
}

/// Whether a name is the sentinel's key or current display name.
pub open spec fn is_sentinel_name(cfg: SentinelConfig, s: Seq<char>) -> bool {
    cfg.spec_matches_id(s) || cfg.spec_matches_name(s)
}

/// Sentinel exclusion: the sentinel appears nowhere in the filtered,
/// normalized, ranked, or undirected output — neither as a node nor as an
/// edge target.
pub open spec fn sentinel_absent(
    cfg: SentinelConfig,
    fg: &Graph,
    sg: &StatsGraph,
    rows: Seq<RankedRow>,
    proj: Seq<AdjacencyRow>,
) -> bool {
    &&& forall|nm: Seq<char>| #[trigger] fg@.contains_key(nm) ==> !is_sentinel_name(cfg, nm)
    &&& forall|nm: Seq<char>, e: Seq<char>|
        #![trigger fg@[nm]@.contains_key(e)]
        fg@.contains_key(nm) && fg@[nm]@.contains_key(e) ==> !is_sentinel_name(cfg, e)
    &&& forall|nm: Seq<char>| #[trigger] sg@.contains_key(nm) ==> !is_sentinel_name(cfg, nm)
    &&& forall|nm: Seq<char>, e: Seq<char>|
        #![trigger sg@[nm]@.contains_key(e)]
        sg@.contains_key(nm) && sg@[nm]@.contains_key(e) ==> !is_sentinel_name(cfg, e)
    &&& forall|k: int|
        0 <= k < rows.len() ==> !is_sentinel_name(cfg, (#[trigger] rows[k]).0@)
    &&& forall|k: int, a: int|
        #![trigger rows[k].1@[a]]
        0 <= k < rows.len() && 0 <= a < rows[k].1@.len() ==> !is_sentinel_name(
            cfg,
            rows[k].1@[a].0@,
        )
    &&& forall|p: int|
        0 <= p < proj.len() ==> !is_sentinel_name(cfg, (#[trigger] proj[p]).0@)
    &&& forall|p: int, a: int|
        #![trigger proj[p].1@[a]]
        0 <= p < proj.len() && 0 <= a < proj[p].1@.len() ==> !is_sentinel_name(
            cfg,
            proj[p].1@[a]@,
        )
}

/// Witnesses that the overflow guard really tripped: `g` is the two-level
/// graph around the root, `fg` its sentinel-filtered form, and some node
/// of `fg` has a total outgoing weight that does not fit the counter
/// width.
pub open spec fn overflow_witness(
    log: Seq<GamelogJoinLeaveView>,
    root: Seq<char>,
    cfg: SentinelConfig,
    g: Graph,
    fg: Graph,
) -> bool {
    &&& graph_wf(&g)
    &&& graph_view_spec(log, root, cfg, &g)
    &&& filter_rel(&g, &fg, cfg)
    &&& exists|i: int|
        0 <= i < fg.entries@.len() && sum_counts((#[trigger] fg.entries@[i]).1.entries@)
            >= u32::MAX
}

/// Check every node's total outgoing weight against the counter width.
fn totals_fit(g: &Graph) -> (r: bool)
    requires
        graph_wf(g),
    ensures
        r == forall|i: int|
            0 <= i < g.entries@.len() ==> sum_counts((#[trigger] g.entries@[i]).1.entries@)
                < u32::MAX,
{
    let n = g.entries.len();
    let mut i: usize = 0;
    while i < n
        invariant
            n == g.entries@.len(),
            i <= n,
            forall|ii: int| 0 <= ii < n ==> (#[trigger] g.entries@[ii]).1.wf(),
            forall|ii: int|
                0 <= ii < i ==> sum_counts((#[trigger] g.entries@[ii]).1.entries@) < u32::MAX,
        decreases n - i,
    {
        let em = &g.entries[i].1;
        let ghost s = em.entries@;
        proof {
            crate::normalize::lemma_counts(s);
        }
        let m = em.entries.len();
        let mut acc: u64 = 0;
        let mut j: usize = 0;
        let mut over = false;
        while j < m
            invariant
                m == s.len(),
                s == em.entries@,
                j <= m,
                !over ==> acc == sum_counts(s.take(j as int)) && acc < u32::MAX as u64,
                over ==> sum_counts(s) >= u32::MAX,
                forall|jj: int|
                    0 <= jj <= s.len() ==> sum_counts(#[trigger] s.take(jj)) <= sum_counts(s),
            decreases m - j,
        {
            if !over {
                let c = em.entries[j].1;
                proof {
                    assert(s.take(j as int + 1).drop_last() =~= s.take(j as int));
                    assert(s.take(j as int + 1).last() == s[j as int]);
                }
                let next = acc + c as u64;
                if next >= u32::MAX as u64 {
                    proof {
                        assert(sum_counts(s.take(j as int + 1)) >= u32::MAX);
                        crate::normalize::lemma_counts(s);
                        assert(sum_counts(s) >= sum_counts(s.take(j as int + 1))) by {
                            lemma_sum_extend(s, j as int + 1);
                        }
                    }
                    over = true;
                } else {
                    acc = next;
                }
            }
            j = j + 1;
        }
        if over {
            proof {
                assert(sum_counts(g.entries@[i as int].1.entries@) >= u32::MAX);
            }
            return false;
        }
        proof {
            assert(s.take(m as int) =~= s);
        }
        i = i + 1;
    }
    true
}

/// A prefix sum never exceeds the whole.
proof fn lemma_sum_extend(s: Seq<(String, u32)>, i: int)
    requires
        0 <= i <= s.len(),
    ensures
        sum_counts(s.take(i)) <= sum_counts(s),
    decreases s.len() - i,
{
    if i < s.len() {
        lemma_sum_extend(s, i + 1);
        assert(s.take(i + 1).drop_last() =~= s.take(i));
        assert(s.take(i + 1).last() == s[i]);
    } else {
        assert(s.take(i) =~= s);
    }
}

/// Run the whole pipeline for one root identity over the log.
///
/// `Err(Error::MissingName)` exactly when the root has no presence row;
/// `Err(Error::Overflow)` only when the machine-limit guard really
/// tripped: some node of the root's filtered two-level graph has a total
/// outgoing weight that does not fit the counter width
/// ([`overflow_witness`]); otherwise every stage's result is returned, and
/// with the exclusion flag set the sentinel is absent from everything past
/// the filter.
pub fn run_pipeline(
    root: &Id,
    log: &PresenceLog,
    cache: &mut ArcStrMap<String>,
    cfg: &SentinelConfig,
) -> (r: Result<PipelineOutput, Error>)
    requires
        old(cache).wf(),
        cache_consistent(old(cache)@, log@),
        log@.len() < u32::MAX,
    ensures
        final(cache).wf(),
        cache_consistent(final(cache)@, log@),
        match r {
            Ok(out) => spec_latest_name(log@, root@) is Some && graph_wf(&out.expanded)
                && graph_view_spec(log@, root@, *cfg, &out.expanded) && graph_wf(&out.graph)
                && filter_rel(&out.expanded, &out.graph, *cfg) && normalize_rel(
                &out.graph,
                &out.stats,
            ) && rank_rel(&out.stats, out.ranked@) && projection_ok(out.ranked@, out.undirected@)
                && (cfg.kat_exists ==> sentinel_absent(
                *cfg,
                &out.graph,
                &out.stats,
                out.ranked@,
                out.undirected@,
            )),
            Err(e) => (e == Error::MissingName && spec_latest_name(log@, root@) is None) || (e
                == Error::Overflow && spec_latest_name(log@, root@) is Some && exists|
                g: Graph,
                fg: Graph,
            | #[trigger] overflow_witness(log@, root@, *cfg, g, fg)),
        },
{
    let expanded = match build_graph(root, log, cache, cfg) {
        Ok(g) => g,
        Err(e) => {
            return Err(e);
        },
    };
    let graph = filter_graph(&expanded, cfg);
    if !totals_fit(&graph) {
        proof {
            assert(exists|i: int|
                0 <= i < graph.entries@.len() && sum_counts(
                    (#[trigger] graph.entries@[i]).1.entries@,
                ) >= u32::MAX) by {
                if forall|i: int|
                    0 <= i < graph.entries@.len() ==> sum_counts(
                        (#[trigger] graph.entries@[i]).1.entries@,
                    ) < u32::MAX {
                    assert(false);
                }
            }
            assert(filter_rel(&expanded, &graph, *cfg));
            assert(overflow_witness(log@, root@, *cfg, expanded, graph));
        }
        return Err(Error::Overflow);
    }
    let stats = normalize(&graph);
    proof {
        crate::cache::lemma_seq_to_map(stats.entries@);
        assert forall|i: int| 0 <= i < stats.entries@.len() implies (
        #[trigger] stats.entries@[i]).1.wf() by {
            assert(crate::cache::has_key(stats.entries@, stats.entries@[i].0@));
            assert(stats@.contains_key(stats.entries@[i].0@));
            assert(stats@[stats.entries@[i].0@] == stats.entries@[i].1);
        }
    }
    let ranked = rank(&stats);
    let undirected = project(&ranked);
    proof {
        if cfg.kat_exists {
            assert forall|nm: Seq<char>| #[trigger] graph@.contains_key(
                nm,
            ) implies !is_sentinel_name(*cfg, nm) by {
                assert(!cfg.spec_drops_either(nm));
            }
            assert forall|nm: Seq<char>, e: Seq<char>|
                #![trigger graph@[nm]@.contains_key(e)]
                graph@.contains_key(nm) && graph@[nm]@.contains_key(e) implies !is_sentinel_name(
                *cfg,
                e,
            ) by {
                assert(filtered_node(expanded@[nm], graph@[nm], *cfg));
                assert(!cfg.spec_drops_either(e));
            }
            assert forall|nm: Seq<char>, e: Seq<char>|
                #![trigger stats@[nm]@.contains_key(e)]
                stats@.contains_key(nm) && stats@[nm]@.contains_key(e) implies !is_sentinel_name(
                *cfg,
                e,
            ) by {
                assert(normalized_node(graph@[nm], stats@[nm]));
                assert(graph@[nm]@.contains_key(e));
            }
            assert forall|k: int, a: int|
                #![trigger ranked@[k].1@[a]]
                0 <= k < ranked@.len() && 0 <= a < ranked@[k].1@.len() implies !is_sentinel_name(
                *cfg,
                ranked@[k].1@[a].0@,
            ) by {
                assert(row_ok(stats, ranked@[k]));
                assert(stats@[ranked@[k].0@]@.contains_key(ranked@[k].1@[a].0@));
            }
            assert forall|k: int| 0 <= k < ranked@.len() implies !is_sentinel_name(
                *cfg,
                (#[trigger] ranked@[k]).0@,
            ) by {
                assert(row_ok(stats, ranked@[k]));
                assert(stats@.contains_key(ranked@[k].0@));
            }
            assert forall|a: Seq<char>, b: Seq<char>| #[trigger] spec_adjacent(
                ranked@,
                a,
                b,
            ) implies !is_sentinel_name(*cfg, a) && !is_sentinel_name(*cfg, b) by {
                if crate::project::has_edge(ranked@, a, b) {
                    let (i, j): (int, int) = choose|i: int, j: int|
                        0 <= i < ranked@.len() && 0 <= j < (#[trigger] ranked@[i]).1@.len()
                            && ranked@[i].0@ == a && (#[trigger] ranked@[i].1@[j]).0@ == b;
                    assert(!is_sentinel_name(*cfg, ranked@[i].0@));
                    assert(!is_sentinel_name(*cfg, ranked@[i].1@[j].0@));
                } else {
                    let (i, j): (int, int) = choose|i: int, j: int|
                        0 <= i < ranked@.len() && 0 <= j < (#[trigger] ranked@[i]).1@.len()
                            && ranked@[i].0@ == b && (#[trigger] ranked@[i].1@[j]).0@ == a;
                    assert(!is_sentinel_name(*cfg, ranked@[i].0@));
                    assert(!is_sentinel_name(*cfg, ranked@[i].1@[j].0@));
                }
            }
            assert forall|p: int| 0 <= p < undirected@.len() implies !is_sentinel_name(
                *cfg,
                (#[trigger] undirected@[p]).0@,
            ) by {
                assert(adj_row_ok(ranked@, undirected@[p]));
                let row = undirected@[p];
                assert(row.1@.len() > 0);
                assert(in_str_views(row.1@, row.1@[0]@)) by {
                    assert((row.1@[0])@ == row.1@[0]@);
                }
                assert(spec_adjacent(ranked@, row.0@, row.1@[0]@));
            }
            assert forall|p: int, a: int|
                #![trigger undirected@[p].1@[a]]
                0 <= p < undirected@.len() && 0 <= a < undirected@[p].1@.len()
                implies !is_sentinel_name(*cfg, undirected@[p].1@[a]@) by {
                let row = undirected@[p];
                assert(adj_row_ok(ranked@, row));
                assert(in_str_views(row.1@, row.1@[a]@)) by {
                    assert((row.1@[a])@ == row.1@[a]@);
                }
                assert(spec_adjacent(ranked@, row.0@, row.1@[a]@));
            }
        }
    }
    Ok(PipelineOutput { expanded, graph, stats, ranked, undirected })
}

} // verus!
