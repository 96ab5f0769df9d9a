//! The neighborhood expander: the directed co-occurrence graph around one
//! root identity, keyed by resolved display names.
//!
//! The root is resolved and aggregated first; every first-degree neighbor
//! is then expanded one level deep the same way. A neighbor whose identity
//! or resolved name the active exclusion drops contributes neither an edge nor
//! a node, and a node whose edge set ends up empty is dropped.

use crate::aggregate::{
    count_keys_seen, get_others_for, lemma_dedup_keys, spec_co_count, spec_location_keys,
    spec_seen_at, CoOccurrenceMap,
};
use crate::cache::{has_key, lemma_seq_to_map, ArcStrMap};
use crate::error::Error;
use crate::gamelog_join_leave::GamelogJoinLeaveView;
use crate::is_kat::{Id, SentinelConfig};
use crate::repo::{
    cache_consistent, get_display_name_for, get_locations_for, in_views, lemma_latest_idx,
    spec_latest_name, spec_locations, spec_occupants, PresenceLog,
};
use crate::world_instance::{WorldInstance, WorldInstanceView};
use vstd::prelude::*;

verus! {

/// Display name to outgoing co-occurrence edges.
pub type Graph = ArcStrMap<CoOccurrenceMap>;

/// Well-formedness of a graph: the node map and every edge map.
pub open spec fn graph_wf(g: &Graph) -> bool {
    g.wf() && forall|i: int| 0 <= i < g.entries@.len() ==> (#[trigger] g.entries@[i]).1.wf()
}

/// The place keys of every location the identity visited.
pub open spec fn spec_key_set(log: Seq<GamelogJoinLeaveView>, id: Seq<char>) -> Set<Seq<char>> {
    Set::new(
        |k: Seq<char>|
            exists|w: WorldInstanceView|
                spec_locations(log, id).contains(w) && (#[trigger] w.prefix()) == k,
    )
}

/// The identity's place keys at which `uid` was observed.
pub open spec fn seen_key_set(
    log: Seq<GamelogJoinLeaveView>,
    id: Seq<char>,
    uid: Seq<char>,
) -> Set<Seq<char>> {
    Set::new(
        |k: Seq<char>| spec_key_set(log, id).contains(k) && spec_seen_at(log, k, id, uid),
    )
}

/// The co-occurrence count of `uid` with `id`: at how many of `id`'s place
/// keys `uid` was observed; zero when the exclusion drops `uid`.
pub open spec fn spec_node_count(
    log: Seq<GamelogJoinLeaveView>,
    id: Seq<char>,
    cfg: SentinelConfig,
    uid: Seq<char>,
) -> nat {
    if cfg.spec_drops_id(uid) {
        0
    } else {
        seen_key_set(log, id, uid).len()
    }
}

/// The identities with an edge from `id`: observed at at least one of
/// `id`'s place keys and not dropped by the exclusion.
pub open spec fn spec_edge_ids(
    log: Seq<GamelogJoinLeaveView>,
    id: Seq<char>,
    cfg: SentinelConfig,
) -> Set<Seq<char>> {
    Set::new(
        |uid: Seq<char>|
            !cfg.spec_drops_id(uid) && exists|k: Seq<char>| #[trigger]
                seen_key_set(log, id, uid).contains(k),
    )
}

/// The resolved names of `id`'s edges, the excluded names removed.
pub open spec fn spec_edge_names(
    log: Seq<GamelogJoinLeaveView>,
    id: Seq<char>,
    cfg: SentinelConfig,
) -> Set<Seq<char>> {
    Set::new(
        |nm: Seq<char>|
            exists|uid: Seq<char>| #[trigger]
                spec_edge_ids(log, id, cfg).contains(uid) && spec_latest_name(log, uid) == Some(nm)
                    && !cfg.spec_drops_name(nm),
    )
}

/// Whether `id` keeps at least one named edge after sentinel filtering.
pub open spec fn spec_has_edges(
    log: Seq<GamelogJoinLeaveView>,
    id: Seq<char>,
    cfg: SentinelConfig,
) -> bool {
    exists|nm: Seq<char>| #[trigger] spec_edge_names(log, id, cfg).contains(nm)
}

/// Whether `em` is the resolved edge map of `id`: it binds exactly `id`'s
/// edge names, each to the count of an edge identity resolving to it.
pub open spec fn edge_map_spec(
    log: Seq<GamelogJoinLeaveView>,
    id: Seq<char>,
    cfg: SentinelConfig,
    em: Map<Seq<char>, u32>,
) -> bool {
    &&& forall|nm: Seq<char>| #[trigger]
        em.contains_key(nm) <==> spec_edge_names(log, id, cfg).contains(nm)
    &&& forall|nm: Seq<char>| #[trigger]
        em.contains_key(nm) ==> exists|uid: Seq<char>|
            spec_edge_ids(log, id, cfg).contains(uid) && spec_latest_name(log, uid) == Some(nm)
                && em[nm] == spec_node_count(log, id, cfg, uid)
}

/// Whether the node named `nm` can come from `id`: the root itself, or a
/// first-degree neighbor whose resolved name the exclusion keeps; in both cases
/// only with a non-empty edge set.
pub open spec fn node_source(
    log: Seq<GamelogJoinLeaveView>,
    root: Seq<char>,
    cfg: SentinelConfig,
    nm: Seq<char>,
    id: Seq<char>,
) -> bool {
    spec_latest_name(log, id) == Some(nm) && spec_has_edges(log, id, cfg) && (id == root || (
    spec_edge_ids(log, root, cfg).contains(id) && !cfg.spec_drops_name(nm)))
}

/// Whether `g` is the two-level directed graph around `root`: one node per
/// source, each carrying a resolved edge map of its source.
pub open spec fn graph_view_spec(
    log: Seq<GamelogJoinLeaveView>,
    root: Seq<char>,
    cfg: SentinelConfig,
    g: &Graph,
) -> bool {
    &&& forall|nm: Seq<char>| #[trigger]
        g@.contains_key(nm) <==> exists|id: Seq<char>| #[trigger] node_source(
            log,
            root,
            cfg,
            nm,
            id,
        )
    &&& forall|nm: Seq<char>| #[trigger]
        g@.contains_key(nm) ==> g@[nm].wf() && exists|id: Seq<char>| #[trigger] node_source(
            log,
            root,
            cfg,
            nm,
            id,
        ) && edge_map_spec(log, id, cfg, g@[nm]@)
}

/// The count over a duplicate-free key sequence is the size of the set of
/// its keys at which `uid` was seen.
pub proof fn lemma_count_keys_card(
    log: Seq<GamelogJoinLeaveView>,
    excl: Seq<char>,
    keys: Seq<Seq<char>>,
    uid: Seq<char>,
)
    requires
        forall|a: int, b: int| 0 <= a < b < keys.len() ==> keys[a] != keys[b],
    ensures
        ({
            let s = Set::new(
                |k: Seq<char>| keys.contains(k) && spec_seen_at(log, k, excl, uid),
            );
            s.finite() && count_keys_seen(log, excl, keys, uid) == s.len()
        }),
    decreases keys.len(),
{
    let s = Set::new(|k: Seq<char>| keys.contains(k) && spec_seen_at(log, k, excl, uid));
    if keys.len() == 0 {
        assert(s =~= Set::<Seq<char>>::empty());
    } else {
        let rest = keys.drop_last();
        lemma_count_keys_card(log, excl, rest, uid);
        let sr = Set::new(|k: Seq<char>| rest.contains(k) && spec_seen_at(log, k, excl, uid));
        assert(!rest.contains(keys.last())) by {
            if rest.contains(keys.last()) {
                let i = choose|i: int| 0 <= i < rest.len() && rest[i] == keys.last();
                assert(keys[i] == keys.last());
            }
        }
        assert forall|k: Seq<char>| keys.contains(k) implies (rest.contains(k) || k
            == keys.last()) by {
            let i = choose|i: int| 0 <= i < keys.len() && keys[i] == k;
            if i < keys.len() - 1 {
                assert(rest[i] == k);
            }
        }
        assert forall|k: Seq<char>| rest.contains(k) implies keys.contains(k) by {
            let i = choose|i: int| 0 <= i < rest.len() && rest[i] == k;
            assert(keys[i] == k);
        }
        assert(keys.contains(keys.last())) by {
            assert(keys[keys.len() - 1] == keys.last());
        }
        if spec_seen_at(log, keys.last(), excl, uid) {
            assert(s =~= sr.insert(keys.last()));
            assert(!sr.contains(keys.last()));
        } else {
            assert(s =~= sr);
        }
    }
}

/// Over a faithful enumeration of the identity's locations, the
/// aggregator's count equals the log-level node count, and is positive
/// exactly on the log-level edge identities.
pub proof fn lemma_aggregate_is_node_count(
    log: Seq<GamelogJoinLeaveView>,
    id: Seq<char>,
    cfg: SentinelConfig,
    locs: Seq<WorldInstance>,
    uid: Seq<char>,
)
    requires
        forall|a: int, b: int| 0 <= a < b < locs.len() ==> (#[trigger] locs[a])@ != (
        #[trigger] locs[b])@,
        forall|j: int| 0 <= j < locs.len() ==> spec_locations(log, id).contains((#[trigger] locs[j])@),
        forall|w: WorldInstanceView| spec_locations(log, id).contains(w) ==> in_views(locs, w),
    ensures
        spec_co_count(log, id, cfg, spec_location_keys(locs), uid) == spec_node_count(
            log,
            id,
            cfg,
            uid,
        ),
        spec_co_count(log, id, cfg, spec_location_keys(locs), uid) > 0 <==> spec_edge_ids(
            log,
            id,
            cfg,
        ).contains(uid),
{
    let prefixes = locs.map_values(|w: WorldInstance| w@.prefix());
    let keys = spec_location_keys(locs);
    lemma_dedup_keys(prefixes);
    assert forall|k: Seq<char>| keys.contains(k) <==> spec_key_set(log, id).contains(k) by {
        if keys.contains(k) {
            assert(prefixes.contains(k));
            let j = choose|j: int| 0 <= j < prefixes.len() && prefixes[j] == k;
            assert(locs[j]@.prefix() == k);
            assert(spec_locations(log, id).contains(locs[j]@));
            assert(spec_key_set(log, id).contains(k));
        }
        if spec_key_set(log, id).contains(k) {
            let w = choose|w: WorldInstanceView|
                spec_locations(log, id).contains(w) && (#[trigger] w.prefix()) == k;
            assert(in_views(locs, w));
            let j = choose|j: int| 0 <= j < locs.len() && (#[trigger] locs[j])@ == w;
            assert(prefixes[j] == k);
            assert(prefixes.contains(k));
        }
    }
    lemma_count_keys_card(log, id, keys, uid);
    let s1 = Set::new(|k: Seq<char>| keys.contains(k) && spec_seen_at(log, k, id, uid));
    assert(s1 =~= seen_key_set(log, id, uid));
    if !cfg.spec_drops_id(uid) {
        assert(spec_co_count(log, id, cfg, keys, uid) == seen_key_set(log, id, uid).len());
        if count_keys_seen(log, id, keys, uid) > 0 {
            assert(seen_key_set(log, id, uid).len() > 0);
            if !(exists|k: Seq<char>| #[trigger] seen_key_set(log, id, uid).contains(k)) {
                assert(seen_key_set(log, id, uid) =~= Set::<Seq<char>>::empty());
            }
        }
        if exists|k: Seq<char>| #[trigger] seen_key_set(log, id, uid).contains(k) {
            let k = choose|k: Seq<char>| #[trigger] seen_key_set(log, id, uid).contains(k);
            if seen_key_set(log, id, uid).len() == 0 {
                assert(seen_key_set(log, id, uid).remove(k).len() + 1 == 0);
            }
        }
    }
}

/// Every edge identity has a presence row, so its name resolves.
pub proof fn lemma_edge_id_resolvable(
    log: Seq<GamelogJoinLeaveView>,
    id: Seq<char>,
    cfg: SentinelConfig,
    uid: Seq<char>,
)
    requires
        spec_edge_ids(log, id, cfg).contains(uid),
    ensures
        spec_latest_name(log, uid) is Some,
{
    let k = choose|k: Seq<char>| #[trigger] seen_key_set(log, id, uid).contains(k);
    assert(spec_occupants(log, k, id).contains(uid));
    let i = choose|i: int|
        0 <= i < log.len() && (#[trigger] log[i]).user_id == Some(uid) && crate::repo::row_is_at(
            log[i],
            k,
        );
    lemma_latest_idx(log, uid, log.len() as int);
    if latest_idx_is_none(log, uid) {
        assert(log[i].user_id != Some(uid));
    }
}

/// Helper naming the no-match case of the latest-row scan.
spec fn latest_idx_is_none(log: Seq<GamelogJoinLeaveView>, uid: Seq<char>) -> bool {
    crate::repo::latest_idx_upto(log, uid, log.len() as int) == -1
}

/// Whether the entry at `jj` yields an edge named `nm`.
spec fn entry_qual(
    log: Seq<GamelogJoinLeaveView>,
    cfg: SentinelConfig,
    entries: Seq<(String, u32)>,
    jj: int,
    nm: Seq<char>,
) -> bool {
    spec_latest_name(log, entries[jj].0@) == Some(nm) && !cfg.spec_drops_name(nm)
}

/// Resolve each identity of a co-occurrence map to its display name,
/// dropping the excluded names; the counts carry over.
fn resolve_edges(
    others: &CoOccurrenceMap,
    log: &PresenceLog,
    cache: &mut ArcStrMap<String>,
    cfg: &SentinelConfig,
) -> (r: Result<CoOccurrenceMap, Error>)
    requires
        others.wf(),
        old(cache).wf(),
        cache_consistent(old(cache)@, log@),
        forall|uid: Seq<char>| #[trigger]
            others@.contains_key(uid) ==> spec_latest_name(log@, uid) is Some,
    ensures
        final(cache).wf(),
        cache_consistent(final(cache)@, log@),
        match r {
            Ok(em) => em.wf() && (forall|nm: Seq<char>| #[trigger]
                em@.contains_key(nm) <==> exists|uid: Seq<char>| #[trigger] others@.contains_key(
                    uid,
                ) && spec_latest_name(log@, uid) == Some(nm) && !cfg.spec_drops_name(nm)) && (
            forall|nm: Seq<char>| #[trigger]
                em@.contains_key(nm) ==> exists|uid: Seq<char>| #[trigger] others@.contains_key(
                    uid,
                ) && spec_latest_name(log@, uid) == Some(nm) && em@[nm] == others@[uid]),
            Err(_) => false,
        },
{
    let ghost entries = others.entries@;
    proof {
        lemma_seq_to_map(entries);
        assert forall|jj: int| 0 <= jj < entries.len() implies #[trigger] others@.contains_key(
            entries[jj].0@,
        ) by {
            assert(has_key(entries, entries[jj].0@));
        }
    }
    let n = others.entries.len();
    let mut em: CoOccurrenceMap = ArcStrMap::new();
    let mut j: usize = 0;
    while j < n
        invariant
            n == entries.len(),
            entries == others.entries@,
            others.wf(),
            j <= n,
            cache.wf(),
            cache_consistent(cache@, log@),
            forall|jj: int| 0 <= jj < entries.len() ==> #[trigger] others@.contains_key(
                entries[jj].0@,
            ) && others@[entries[jj].0@] == entries[jj].1 && spec_latest_name(log@, entries[jj].0@)
                is Some,
            em.wf(),
            forall|nm: Seq<char>| #[trigger]
                em@.contains_key(nm) <==> exists|jj: int|
                    0 <= jj < j && #[trigger] entry_qual(log@, *cfg, entries, jj, nm),
            forall|nm: Seq<char>| #[trigger]
                em@.contains_key(nm) ==> exists|jj: int|
                    0 <= jj < j && #[trigger] entry_qual(log@, *cfg, entries, jj, nm) && em@[nm]
                        == entries[jj].1,
        decreases n - j,
    {
        let uid = &others.entries[j].0;
        let count = others.entries[j].1;
        let nid = Id(uid.clone());
        let n_name = match get_display_name_for(&nid, log, cache) {
            Ok(x) => x,
            Err(_) => {
                proof {
                    assert(others@.contains_key(entries[j as int].0@));
                    assert(false);
                }
                return Err(Error::MissingName);
            },
        };
        let keep = !(cfg.kat_exists && n_name.0 == cfg.kat_name);
        let ghost em0 = em@;
        if keep {
            em.insert(n_name.to_string(), count);
            proof {
                assert(entry_qual(log@, *cfg, entries, j as int, n_name@));
                assert forall|nm: Seq<char>| #[trigger] em@.contains_key(nm) implies exists|
                    jj: int,
                |
                    0 <= jj < j + 1 && #[trigger] entry_qual(log@, *cfg, entries, jj, nm)
                        && em@[nm] == entries[jj].1 by {
                    if nm == n_name@ {
                        assert(em@[nm] == count);
                        assert(entry_qual(log@, *cfg, entries, j as int, nm) && em@[nm]
                            == entries[j as int].1);
                    } else {
                        assert(em0.contains_key(nm));
                        let jj = choose|jj: int|
                            0 <= jj < j && #[trigger] entry_qual(log@, *cfg, entries, jj, nm)
                                && em0[nm] == entries[jj].1;
                        assert(em@[nm] == em0[nm]);
                    }
                }
            }
        } else {
            proof {
                assert forall|nm: Seq<char>| entry_qual(log@, *cfg, entries, j as int, nm)
                    implies false by {
                    assert(spec_latest_name(log@, entries[j as int].0@) == Some(n_name@));
                }
            }
        }
        j = j + 1;
    }
    proof {
        assert forall|nm: Seq<char>| #[trigger] em@.contains_key(nm) implies exists|
            uid: Seq<char>,
        | #[trigger]
            others@.contains_key(uid) && spec_latest_name(log@, uid) == Some(nm)
                && !cfg.spec_drops_name(nm) by {
            let jj = choose|jj: int|
                0 <= jj < n && #[trigger] entry_qual(log@, *cfg, entries, jj, nm);
            assert(others@.contains_key(entries[jj].0@) && spec_latest_name(log@, entries[jj].0@)
                == Some(nm) && !cfg.spec_drops_name(nm));
        }
        assert forall|nm: Seq<char>|
            (exists|uid: Seq<char>| #[trigger] others@.contains_key(uid) && spec_latest_name(
                log@,
                uid,
            ) == Some(nm) && !cfg.spec_drops_name(nm)) implies em@.contains_key(nm) by {
            let uid = choose|uid: Seq<char>| #[trigger]
                others@.contains_key(uid) && spec_latest_name(log@, uid) == Some(nm)
                    && !cfg.spec_drops_name(nm);
            let jj = crate::cache::key_index(entries, uid);
            assert(has_key(entries, uid));
            assert(0 <= jj < entries.len() && entries[jj].0@ == uid);
            assert(entry_qual(log@, *cfg, entries, jj, nm));
        }
        assert forall|nm: Seq<char>| #[trigger] em@.contains_key(nm) implies exists|
            uid: Seq<char>,
        | #[trigger]
            others@.contains_key(uid) && spec_latest_name(log@, uid) == Some(nm) && em@[nm]
                == others@[uid] by {
            let jj = choose|jj: int|
                0 <= jj < n && #[trigger] entry_qual(log@, *cfg, entries, jj, nm) && em@[nm]
                    == entries[jj].1;
            assert(others@.contains_key(entries[jj].0@) && spec_latest_name(log@, entries[jj].0@)
                == Some(nm) && em@[nm] == others@[entries[jj].0@]);
        }
    }
    Ok(em)
}

/// Whether a node named `nm` in the graph under construction can come from
/// the root or from one of the first `t` neighbor entries.
spec fn partial_source(
    log: Seq<GamelogJoinLeaveView>,
    root: Seq<char>,
    cfg: SentinelConfig,
    entries: Seq<(String, u32)>,
    t: int,
    nm: Seq<char>,
    id: Seq<char>,
) -> bool {
    (id == root && node_source(log, root, cfg, nm, root)) || (exists|jj: int|
        0 <= jj < t && (#[trigger] entries[jj]).0@ == id && node_source(log, root, cfg, nm, id))
}

/// Build the two-level directed co-occurrence graph around `root`, keyed by
/// resolved display names.
///
/// `Err(Error::MissingName)` exactly when the root itself has no presence
/// row; every observed neighbor has one, so neighbor resolution never
/// fails.
pub fn build_graph(
    root: &Id,
    log: &PresenceLog,
    cache: &mut ArcStrMap<String>,
    cfg: &SentinelConfig,
) -> (r: Result<Graph, Error>)
    requires
        old(cache).wf(),
        cache_consistent(old(cache)@, log@),
        log@.len() < u32::MAX,
    ensures
        final(cache).wf(),
        cache_consistent(final(cache)@, log@),
        match r {
            Ok(g) => graph_wf(&g) && spec_latest_name(log@, root@) is Some && graph_view_spec(
                log@,
                root@,
                *cfg,
                &g,
            ),
            Err(e) => e == Error::MissingName && spec_latest_name(log@, root@) is None,
        },
{
    let root_name = match get_display_name_for(root, log, cache) {
        Ok(x) => x,
        Err(e) => {
            return Err(e);
        },
    };
    let locations = get_locations_for(root, log);
    let others = get_others_for(root, log, &locations, cfg);
    proof {
        assert forall|uid: Seq<char>| #[trigger] others@.contains_key(
            uid,
        ) implies spec_edge_ids(log@, root@, *cfg).contains(uid) && others@[uid]
            == spec_node_count(log@, root@, *cfg, uid) by {
            lemma_aggregate_is_node_count(log@, root@, *cfg, locations@, uid);
        }
        assert forall|uid: Seq<char>| #[trigger] spec_edge_ids(log@, root@, *cfg).contains(
            uid,
        ) implies others@.contains_key(uid) by {
            lemma_aggregate_is_node_count(log@, root@, *cfg, locations@, uid);
        }
        assert forall|uid: Seq<char>| #[trigger] others@.contains_key(
            uid,
        ) implies spec_latest_name(log@, uid) is Some by {
            lemma_edge_id_resolvable(log@, root@, *cfg, uid);
        }
    }
    let root_edges = match resolve_edges(&others, log, cache, cfg) {
        Ok(x) => x,
        Err(e) => {
            proof {
                assert(false);
            }
            return Err(e);
        },
    };
    proof {
        lemma_edge_map(log@, root@, *cfg, others@, &root_edges);
    }
    let ghost entries = others.entries@;
    proof {
        lemma_seq_to_map(entries);
        assert forall|jj: int| 0 <= jj < entries.len() implies #[trigger] others@.contains_key(
            entries[jj].0@,
        ) && spec_edge_ids(log@, root@, *cfg).contains(entries[jj].0@) by {
            assert(has_key(entries, entries[jj].0@));
            assert(others@.contains_key(entries[jj].0@));
        }
    }
    let mut g: Graph = ArcStrMap::new();
    let root_has = root_edges.len() > 0;
    proof {
        lemma_len_nonempty(&root_edges);
        assert(root_has <==> spec_has_edges(log@, root@, *cfg)) by {
            if root_has {
                let nm = choose|nm: Seq<char>| #[trigger] root_edges@.contains_key(nm);
                assert(spec_edge_names(log@, root@, *cfg).contains(nm));
            }
            if spec_has_edges(log@, root@, *cfg) {
                let nm = choose|nm: Seq<char>| #[trigger] spec_edge_names(log@, root@, *cfg)
                    .contains(nm);
                assert(root_edges@.contains_key(nm));
            }
        }
        if root_has {
            assert(node_source(log@, root@, *cfg, root_name@, root@));
        }
    }
    let ghost root_edges_snap = root_edges@;
    if root_has {
        g.insert(root_name.to_string(), root_edges);
    }
    proof {
        assert forall|nm: Seq<char>| #[trigger] g@.contains_key(nm) <==> exists|id: Seq<char>|
            #[trigger] partial_source(log@, root@, *cfg, entries, 0int, nm, id) by {
            if g@.contains_key(nm) {
                assert(root_has);
                assert(nm == root_name@);
                assert(partial_source(log@, root@, *cfg, entries, 0int, nm, root@));
            }
            if exists|id: Seq<char>| #[trigger] partial_source(
                log@,
                root@,
                *cfg,
                entries,
                0int,
                nm,
                id,
            ) {
                let id = choose|id: Seq<char>| #[trigger] partial_source(
                    log@,
                    root@,
                    *cfg,
                    entries,
                    0int,
                    nm,
                    id,
                );
                assert(id == root@ && node_source(log@, root@, *cfg, nm, root@));
                assert(spec_has_edges(log@, root@, *cfg));
                assert(root_has);
                assert(spec_latest_name(log@, root@) == Some(nm));
                assert(nm == root_name@);
                assert(g@.contains_key(nm));
            }
        }
        assert forall|nm: Seq<char>| #[trigger] g@.contains_key(nm) implies g@[nm].wf() && exists|
            id: Seq<char>,
        | #[trigger] partial_source(log@, root@, *cfg, entries, 0int, nm, id) && edge_map_spec(
            log@,
            id,
            *cfg,
            g@[nm]@,
        ) by {
            assert(root_has);
            assert(nm == root_name@);
            assert(g@[nm]@ == root_edges_snap);
            assert(partial_source(log@, root@, *cfg, entries, 0int, nm, root@) && edge_map_spec(
                log@,
                root@,
                *cfg,
                g@[nm]@,
            ));
        }
    }
    proof {
        assert(forall|jj: int| 0 <= jj < entries.len() ==> #[trigger] others@.contains_key(
            entries[jj].0@,
        ) && spec_edge_ids(log@, root@, *cfg).contains(entries[jj].0@));
    }
    let n = others.entries.len();
    let mut t: usize = 0;
    while t < n
        invariant
            n == entries.len(),
            entries == others.entries@,
            others.wf(),
            t <= n,
            log@.len() < u32::MAX,
            cache.wf(),
            cache_consistent(cache@, log@),
            spec_latest_name(log@, root@) == Some(root_name@),
            forall|jj: int| 0 <= jj < entries.len() ==> #[trigger] others@.contains_key(
                entries[jj].0@,
            ) && spec_edge_ids(log@, root@, *cfg).contains(entries[jj].0@),
            g.wf(),
            forall|nm: Seq<char>| #[trigger]
                g@.contains_key(nm) <==> exists|id: Seq<char>| #[trigger] partial_source(
                    log@,
                    root@,
                    *cfg,
                    entries,
                    t as int,
                    nm,
                    id,
                ),
            forall|nm: Seq<char>| #[trigger]
                g@.contains_key(nm) ==> g@[nm].wf() && exists|id: Seq<char>| #[trigger]
                    partial_source(log@, root@, *cfg, entries, t as int, nm, id) && edge_map_spec(
                        log@,
                        id,
                        *cfg,
                        g@[nm]@,
                    ),
        decreases n - t,
    {
        let uid = &others.entries[t].0;
        let nid = Id(uid.clone());
        proof {
            assert(others@.contains_key(entries[t as int].0@));
            lemma_edge_id_resolvable(log@, root@, *cfg, nid@);
        }
        let n_name = match get_display_name_for(&nid, log, cache) {
            Ok(x) => x,
            Err(_) => {
                proof {
                    assert(false);
                }
                return Err(Error::MissingName);
            },
        };
        let keep_node = !(cfg.kat_exists && n_name.0 == cfg.kat_name);
        let ghost g0 = g@;
        if keep_node {
            let locs_u = get_locations_for(&nid, log);
            let others_u = get_others_for(&nid, log, &locs_u, cfg);
            proof {
                assert forall|x: Seq<char>| #[trigger] others_u@.contains_key(
                    x,
                ) implies spec_edge_ids(log@, nid@, *cfg).contains(x) && others_u@[x]
                    == spec_node_count(log@, nid@, *cfg, x) by {
                    lemma_aggregate_is_node_count(log@, nid@, *cfg, locs_u@, x);
                }
                assert forall|x: Seq<char>| #[trigger] spec_edge_ids(log@, nid@, *cfg).contains(
                    x,
                ) implies others_u@.contains_key(x) by {
                    lemma_aggregate_is_node_count(log@, nid@, *cfg, locs_u@, x);
                }
                assert forall|x: Seq<char>| #[trigger] others_u@.contains_key(
                    x,
                ) implies spec_latest_name(log@, x) is Some by {
                    lemma_edge_id_resolvable(log@, nid@, *cfg, x);
                }
            }
            let edges_u = match resolve_edges(&others_u, log, cache, cfg) {
                Ok(x) => x,
                Err(e) => {
                    proof {
                        assert(false);
                    }
                    return Err(e);
                },
            };
            proof {
                lemma_edge_map(log@, nid@, *cfg, others_u@, &edges_u);
            }
            let u_has = edges_u.len() > 0;
            proof {
                lemma_len_nonempty(&edges_u);
                assert(u_has <==> spec_has_edges(log@, nid@, *cfg)) by {
                    if u_has {
                        let nm = choose|nm: Seq<char>| #[trigger] edges_u@.contains_key(nm);
                        assert(spec_edge_names(log@, nid@, *cfg).contains(nm));
                    }
                    if spec_has_edges(log@, nid@, *cfg) {
                        let nm = choose|nm: Seq<char>| #[trigger] spec_edge_names(
                            log@,
                            nid@,
                            *cfg,
                        ).contains(nm);
                        assert(edges_u@.contains_key(nm));
                    }
                }
                if u_has {
                    assert(node_source(log@, root@, *cfg, n_name@, nid@));
                }
            }
            if u_has {
                g.insert(n_name.to_string(), edges_u);
                proof {
                    assert(entries[t as int].0@ == nid@);
                    assert(partial_source(
                        log@,
                        root@,
                        *cfg,
                        entries,
                        t as int + 1,
                        n_name@,
                        nid@,
                    ));
                    lemma_partial_source_step(log@, root@, *cfg, entries, t as int, n_name@, nid@);
                }
            } else {
                proof {
                    lemma_partial_source_skip(log@, root@, *cfg, entries, t as int);
                    assert forall|nm: Seq<char>| node_source(log@, root@, *cfg, nm, nid@)
                        implies false by {
                        assert(spec_latest_name(log@, nid@) == Some(n_name@));
                    }
                }
            }
        } else {
            proof {
                lemma_partial_source_skip(log@, root@, *cfg, entries, t as int);
                assert forall|nm: Seq<char>| node_source(log@, root@, *cfg, nm, nid@)
                    implies false by {
                    assert(spec_latest_name(log@, nid@) == Some(n_name@));
                    assert(cfg.spec_drops_name(n_name@));
                }
            }
        }
        t = t + 1;
    }
    proof {
        assert forall|nm: Seq<char>| #[trigger] g@.contains_key(nm) implies exists|id: Seq<char>|
            #[trigger] node_source(log@, root@, *cfg, nm, id) by {
            let id = choose|id: Seq<char>| #[trigger] partial_source(
                log@,
                root@,
                *cfg,
                entries,
                n as int,
                nm,
                id,
            );
            assert(node_source(log@, root@, *cfg, nm, id));
        }
        assert forall|nm: Seq<char>|
            (exists|id: Seq<char>| #[trigger] node_source(log@, root@, *cfg, nm, id)) implies
            #[trigger] g@.contains_key(nm) by {
            let id = choose|id: Seq<char>| #[trigger] node_source(log@, root@, *cfg, nm, id);
            if id == root@ {
                assert(partial_source(log@, root@, *cfg, entries, n as int, nm, id));
            } else {
                assert(spec_edge_ids(log@, root@, *cfg).contains(id));
                assert(others@.contains_key(id));
                let jj = crate::cache::key_index(entries, id);
                assert(has_key(entries, id));
                assert(0 <= jj < entries.len() && entries[jj].0@ == id);
                assert(partial_source(log@, root@, *cfg, entries, n as int, nm, id));
            }
        }
        assert forall|nm: Seq<char>| #[trigger] g@.contains_key(nm) implies g@[nm].wf() && exists|
            id: Seq<char>,
        | #[trigger] node_source(log@, root@, *cfg, nm, id) && edge_map_spec(
            log@,
            id,
            *cfg,
            g@[nm]@,
        ) by {
            let id = choose|id: Seq<char>| #[trigger] partial_source(
                log@,
                root@,
                *cfg,
                entries,
                n as int,
                nm,
                id,
            ) && edge_map_spec(log@, id, *cfg, g@[nm]@);
            assert(node_source(log@, root@, *cfg, nm, id) && edge_map_spec(
                log@,
                id,
                *cfg,
                g@[nm]@,
            ));
        }
        assert forall|i: int| 0 <= i < g.entries@.len() implies (#[trigger] g.entries@[i]).1.wf() by {
            lemma_seq_to_map(g.entries@);
            assert(has_key(g.entries@, g.entries@[i].0@));
            assert(g@.contains_key(g.entries@[i].0@));
            assert(g@[g.entries@[i].0@] == g.entries@[i].1);
        }
    }
    Ok(g)
}

/// Unfold one neighbor step of the source characterization.
proof fn lemma_partial_source_skip(
    log: Seq<GamelogJoinLeaveView>,
    root: Seq<char>,
    cfg: SentinelConfig,
    entries: Seq<(String, u32)>,
    t: int,
)
    requires
        0 <= t < entries.len(),
    ensures
        forall|nm: Seq<char>, id: Seq<char>|
            #![trigger partial_source(log, root, cfg, entries, t + 1, nm, id)]
            #![trigger partial_source(log, root, cfg, entries, t, nm, id)]
            partial_source(log, root, cfg, entries, t + 1, nm, id) <==> (partial_source(
                log,
                root,
                cfg,
                entries,
                t,
                nm,
                id,
            ) || (entries[t].0@ == id && node_source(log, root, cfg, nm, id))),
{
    assert forall|nm: Seq<char>, id: Seq<char>|
        partial_source(log, root, cfg, entries, t + 1, nm, id) implies (partial_source(
        log,
        root,
        cfg,
        entries,
        t,
        nm,
        id,
    ) || (entries[t].0@ == id && node_source(log, root, cfg, nm, id))) by {
        if !(id == root && node_source(log, root, cfg, nm, root)) {
            let jj = choose|jj: int|
                0 <= jj < t + 1 && (#[trigger] entries[jj]).0@ == id && node_source(
                    log,
                    root,
                    cfg,
                    nm,
                    id,
                );
            if jj < t {
                assert(partial_source(log, root, cfg, entries, t, nm, id));
            }
        }
    }
}

/// One neighbor step that adds its own node as a source.
proof fn lemma_partial_source_step(
    log: Seq<GamelogJoinLeaveView>,
    root: Seq<char>,
    cfg: SentinelConfig,
    entries: Seq<(String, u32)>,
    t: int,
    nm0: Seq<char>,
    id0: Seq<char>,
)
    requires
        0 <= t < entries.len(),
        entries[t].0@ == id0,
        node_source(log, root, cfg, nm0, id0),
    ensures
        partial_source(log, root, cfg, entries, t + 1, nm0, id0),
        forall|nm: Seq<char>, id: Seq<char>|
            #![trigger partial_source(log, root, cfg, entries, t + 1, nm, id)]
            #![trigger partial_source(log, root, cfg, entries, t, nm, id)]
            partial_source(log, root, cfg, entries, t + 1, nm, id) <==> (partial_source(
                log,
                root,
                cfg,
                entries,
                t,
                nm,
                id,
            ) || (entries[t].0@ == id && node_source(log, root, cfg, nm, id))),
{
    lemma_partial_source_skip(log, root, cfg, entries, t);
}

/// Emptiness of a well-formed map is emptiness of its domain.
proof fn lemma_len_nonempty(m: &CoOccurrenceMap)
    requires
        m.wf(),
    ensures
        m.spec_len() > 0 ==> exists|nm: Seq<char>| #[trigger] m@.contains_key(nm),
        m.spec_len() == 0 ==> forall|nm: Seq<char>| !(#[trigger] m@.contains_key(nm)),
{
    lemma_seq_to_map(m.entries@);
    if m.spec_len() > 0 {
        assert(has_key(m.entries@, m.entries@[0].0@));
        assert(m@.contains_key(m.entries@[0].0@));
    } else {
        assert forall|nm: Seq<char>| !(#[trigger] m@.contains_key(nm)) by {
            if has_key(m.entries@, nm) {
                let i = crate::cache::key_index(m.entries@, nm);
            }
        }
    }
}

/// Translate the resolver's contract over a co-occurrence map whose
/// contents are the log-level edge identities into the log-level edge-map
/// characterization.
proof fn lemma_edge_map(
    log: Seq<GamelogJoinLeaveView>,
    id: Seq<char>,
    cfg: SentinelConfig,
    others: Map<Seq<char>, u32>,
    em: &CoOccurrenceMap,
)
    requires
        forall|uid: Seq<char>| #[trigger]
            others.contains_key(uid) <==> spec_edge_ids(log, id, cfg).contains(uid),
        forall|uid: Seq<char>| #[trigger]
            others.contains_key(uid) ==> others[uid] == spec_node_count(log, id, cfg, uid),
        forall|nm: Seq<char>| #[trigger]
            em@.contains_key(nm) <==> exists|uid: Seq<char>| #[trigger] others.contains_key(uid)
                && spec_latest_name(log, uid) == Some(nm) && !cfg.spec_drops_name(nm),
        forall|nm: Seq<char>| #[trigger]
            em@.contains_key(nm) ==> exists|uid: Seq<char>| #[trigger] others.contains_key(uid)
                && spec_latest_name(log, uid) == Some(nm) && em@[nm] == others[uid],
    ensures
        edge_map_spec(log, id, cfg, em@),
{
    assert forall|nm: Seq<char>| #[trigger] em@.contains_key(nm) <==> spec_edge_names(
        log,
        id,
        cfg,
    ).contains(nm) by {
        if em@.contains_key(nm) {
            let uid = choose|uid: Seq<char>| #[trigger]
                others.contains_key(uid) && spec_latest_name(log, uid) == Some(nm)
                    && !cfg.spec_drops_name(nm);
            assert(spec_edge_ids(log, id, cfg).contains(uid));
            assert(spec_edge_names(log, id, cfg).contains(nm));
        }
        if spec_edge_names(log, id, cfg).contains(nm) {
            let uid = choose|uid: Seq<char>| #[trigger]
                spec_edge_ids(log, id, cfg).contains(uid) && spec_latest_name(log, uid) == Some(
                    nm,
                ) && !cfg.spec_drops_name(nm);
            assert(others.contains_key(uid));
        }
    }
    assert forall|nm: Seq<char>| #[trigger] em@.contains_key(nm) implies exists|uid: Seq<char>|
        spec_edge_ids(log, id, cfg).contains(uid) && spec_latest_name(log, uid) == Some(nm)
            && em@[nm] == spec_node_count(log, id, cfg, uid) by {
        let uid = choose|uid: Seq<char>| #[trigger]
            others.contains_key(uid) && spec_latest_name(log, uid) == Some(nm) && em@[nm]
                == others[uid];
        assert(spec_edge_ids(log, id, cfg).contains(uid) && spec_latest_name(log, uid) == Some(nm)
            && em@[nm] == spec_node_count(log, id, cfg, uid));
    }
}

} // verus!
