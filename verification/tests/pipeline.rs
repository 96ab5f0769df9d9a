//! End-to-end behavior of the pipeline over a small in-memory log.

use vrcx_insights::aggregate::get_others_for;
use vrcx_insights::cache::ArcStrMap;
use vrcx_insights::error::Error;
use vrcx_insights::gamelog_join_leave::{GamelogJoinLeave, GamelogJoinLeaveRow};
use vrcx_insights::is_kat::{Id, Name, SentinelConfig};
use vrcx_insights::pipeline::run_pipeline;
use vrcx_insights::repo::{get_display_name_for, get_locations_for, get_uuid_of, PresenceLog};

fn row(created_at: &str, name: &str, location: &str, user: &str) -> GamelogJoinLeave {
    let raw = GamelogJoinLeaveRow {
        id: 0,
        created_at: created_at.to_string(),
        event_type: "OnPlayerJoined".to_string(),
        display_name: name.to_string(),
        location: location.to_string(),
        user_id: user.to_string(),
        time: 1,
    };
    GamelogJoinLeave::from_row(&raw).unwrap()
}

fn scenario_log() -> PresenceLog {
    let mut log = PresenceLog::new();
    // Root "R" visited W1:I1 and W2:I2.
    log.push(row("2024-01-01T10:00:00", "Root", "W1:I1", "R"));
    log.push(row("2024-01-01T11:00:00", "Root", "W2:I2", "R"));
    // W1:I1 also visited by "A" and "B"; W2:I2 also visited by "A" only.
    log.push(row("2024-01-01T10:05:00", "Alice", "W1:I1", "A"));
    log.push(row("2024-01-01T10:06:00", "Bob", "W1:I1", "B"));
    log.push(row("2024-01-01T11:05:00", "Alice", "W2:I2", "A"));
    log
}

fn no_sentinel() -> SentinelConfig {
    SentinelConfig::new("K".to_string(), "Kat".to_string(), false)
}

#[test]
fn aggregate_counts_distinct_locations() {
    let log = scenario_log();
    let root = Id::from("R");
    let locations = get_locations_for(&root, &log);
    assert_eq!(locations.len(), 2);
    let cfg = no_sentinel();
    let others = get_others_for(&root, &log, &locations, &cfg);
    assert_eq!(others.len(), 2);
    assert_eq!(others.get(&"A".to_string()), Some(&2));
    assert_eq!(others.get(&"B".to_string()), Some(&1));
    assert_eq!(others.get(&"R".to_string()), None);
}

#[test]
fn aggregate_counts_locations_not_events() {
    // Three duplicate events of the same co-occupant at one location
    // contribute one, not three.
    let mut log = PresenceLog::new();
    log.push(row("2024-01-01T10:00:00", "Root", "W1:I1", "R"));
    log.push(row("2024-01-01T10:01:00", "Alice", "W1:I1~region(EU)", "A"));
    log.push(row("2024-01-01T10:02:00", "Alice", "W1:I1~region(JP)", "A"));
    log.push(row("2024-01-01T10:03:00", "Alice", "W1:I1", "A"));
    let root = Id::from("R");
    let locations = get_locations_for(&root, &log);
    let cfg = no_sentinel();
    let others = get_others_for(&root, &log, &locations, &cfg);
    assert_eq!(others.get(&"A".to_string()), Some(&1));
}

#[test]
fn aggregate_drops_sentinel_when_gate_active() {
    // The sentinel appears as a co-occupant in one location; with the
    // exclusion flag set it is absent from the co-occurrence map entirely.
    let mut log = PresenceLog::new();
    log.push(row("2024-01-01T10:00:00", "Root", "W1:I1", "R"));
    log.push(row("2024-01-01T10:01:00", "Alice", "W1:I1", "A"));
    log.push(row("2024-01-01T10:02:00", "Kat", "W1:I1", "K"));
    let root = Id::from("R");
    let locations = get_locations_for(&root, &log);
    let gated = SentinelConfig::new("K".to_string(), "Kat".to_string(), true);
    let others = get_others_for(&root, &log, &locations, &gated);
    assert_eq!(others.get(&"K".to_string()), None);
    assert_eq!(others.get(&"A".to_string()), Some(&1));

    // With the exclusion flag unset the sentinel is treated like anyone else.
    let open_cfg = no_sentinel();
    let all = get_others_for(&root, &log, &locations, &open_cfg);
    assert_eq!(all.get(&"K".to_string()), Some(&1));
}

#[test]
fn resolve_returns_latest_name_and_caches() {
    let mut log = scenario_log();
    // An older and a newer name for "A": the latest must win.
    log.push(row("2023-06-01T00:00:00", "OldAlice", "W1:I1", "A"));
    let mut cache: ArcStrMap<String> = ArcStrMap::new();
    let id = Id::from("A");
    let first = get_display_name_for(&id, &log, &mut cache).unwrap();
    assert_eq!(first.to_string(), "Alice");
    assert_eq!(cache.len(), 1);
    // Second resolution: same name, cache unchanged.
    let second = get_display_name_for(&id, &log, &mut cache).unwrap();
    assert_eq!(second.to_string(), "Alice");
    assert_eq!(cache.len(), 1);
}

#[test]
fn resolve_unknown_identity_is_fatal() {
    let log = scenario_log();
    let mut cache: ArcStrMap<String> = ArcStrMap::new();
    let id = Id::from("nobody");
    let r = get_display_name_for(&id, &log, &mut cache);
    assert_eq!(r.unwrap_err(), Error::MissingName);
    assert_eq!(cache.len(), 0);
}

#[test]
fn uuid_lookup_finds_first_binding() {
    let log = scenario_log();
    let id = get_uuid_of(&Name::from("Bob"), &log).unwrap();
    assert_eq!(id.to_string(), "B");
    let missing = get_uuid_of(&Name::from("Nobody"), &log);
    assert_eq!(missing.unwrap_err(), Error::MissingName);
}

#[test]
fn pipeline_scenario_statistics() {
    let log = scenario_log();
    let root = Id::from("R");
    let mut cache: ArcStrMap<String> = ArcStrMap::new();
    let cfg = no_sentinel();
    let out = run_pipeline(&root, &log, &mut cache, &cfg).unwrap();

    // Normalized edges for the root node: A has count 2, total 3, max 3
    // (2 + 1), percentage 66.67, percentile 50.0; B has count 1,
    // percentage 33.33, percentile 25.0 (held in hundredths).
    let node = out.stats.get(&"Root".to_string()).unwrap();
    let a = node.get(&"Alice".to_string()).unwrap();
    assert_eq!(a.count, 2);
    assert_eq!(a.total, 3);
    assert_eq!(a.max, 3);
    assert_eq!(a.percentage, 6667);
    assert_eq!(a.percentile, 5000);
    let b = node.get(&"Bob".to_string()).unwrap();
    assert_eq!(b.count, 1);
    assert_eq!(b.percentage, 3333);
    assert_eq!(b.percentile, 2500);

    // Percentages of one node sum to one hundred percent, within one
    // hundredth per edge.
    let sum: u64 = a.percentage as u64 + b.percentage as u64;
    assert!(sum >= 10000 - 2 && sum <= 10000 + 2);
    // The `+1` bias keeps even the maximum edge short of a full score.
    assert!(a.percentile < 10000);
    assert!(b.percentile < 10000);
}

#[test]
fn pipeline_ranking_descends_by_weight() {
    let log = scenario_log();
    let root = Id::from("R");
    let mut cache: ArcStrMap<String> = ArcStrMap::new();
    let cfg = no_sentinel();
    let out = run_pipeline(&root, &log, &mut cache, &cfg).unwrap();
    let weights: Vec<u64> = out
        .ranked
        .iter()
        .map(|(_, edges)| edges.iter().map(|(_, m)| m.count as u64).sum())
        .collect();
    for w in weights.windows(2) {
        assert!(w[0] >= w[1]);
    }
    // Within each node, edges descend by count.
    for (_, edges) in &out.ranked {
        for pair in edges.windows(2) {
            assert!(pair[0].1.count >= pair[1].1.count);
        }
    }
    // Ties fall back to ascending name order: the root and A both weigh 3.
    let names: Vec<&str> = out.ranked.iter().map(|(n, _)| n.as_str()).collect();
    assert_eq!(names, vec!["Alice", "Root", "Bob"]);
}

#[test]
fn pipeline_projection_is_symmetric() {
    let log = scenario_log();
    let root = Id::from("R");
    let mut cache: ArcStrMap<String> = ArcStrMap::new();
    let cfg = no_sentinel();
    let out = run_pipeline(&root, &log, &mut cache, &cfg).unwrap();
    // B in adjacency(A) implies A in adjacency(B).
    for (name, adj) in &out.undirected {
        for other in adj {
            let reverse = out
                .undirected
                .iter()
                .find(|(n, _)| n == other)
                .expect("adjacent name must have a row of its own");
            assert!(reverse.1.contains(name));
        }
    }
    // Degrees never increase along the output.
    for w in out.undirected.windows(2) {
        assert!(w[0].1.len() >= w[1].1.len());
    }
    // All three names have degree two, so the order is purely by name.
    let names: Vec<&str> = out.undirected.iter().map(|(n, _)| n.as_str()).collect();
    assert_eq!(names, vec!["Alice", "Bob", "Root"]);
}

#[test]
fn pipeline_projection_is_idempotent() {
    let log = scenario_log();
    let root = Id::from("R");
    let cfg = no_sentinel();
    let mut cache1: ArcStrMap<String> = ArcStrMap::new();
    let out1 = run_pipeline(&root, &log, &mut cache1, &cfg).unwrap();
    let mut cache2: ArcStrMap<String> = ArcStrMap::new();
    let out2 = run_pipeline(&root, &log, &mut cache2, &cfg).unwrap();
    // Same input, same adjacency sets.
    assert_eq!(out1.undirected.len(), out2.undirected.len());
    for (name, adj) in &out1.undirected {
        let twin = out2
            .undirected
            .iter()
            .find(|(n, _)| n == name)
            .expect("both runs project the same names");
        let mut left: Vec<String> = adj.clone();
        let mut right: Vec<String> = twin.1.clone();
        left.sort();
        right.sort();
        assert_eq!(left, right);
    }
}

#[test]
fn pipeline_excludes_sentinel_everywhere() {
    let mut log = scenario_log();
    log.push(row("2024-01-01T10:07:00", "Kat", "W1:I1", "K"));
    let root = Id::from("R");
    let gated = SentinelConfig::new("K".to_string(), "Kat".to_string(), true);
    let mut cache: ArcStrMap<String> = ArcStrMap::new();
    let out = run_pipeline(&root, &log, &mut cache, &gated).unwrap();
    for (name, edges) in out.graph.get_map() {
        assert_ne!(name.as_str(), "K");
        assert_ne!(name.as_str(), "Kat");
        for (target, _) in edges.get_map() {
            assert_ne!(target.as_str(), "K");
            assert_ne!(target.as_str(), "Kat");
        }
    }
    for (name, edges) in &out.ranked {
        assert_ne!(name.as_str(), "Kat");
        for (target, _) in edges {
            assert_ne!(target.as_str(), "Kat");
        }
    }
    for (name, adj) in &out.undirected {
        assert_ne!(name.as_str(), "Kat");
        for other in adj {
            assert_ne!(other.as_str(), "Kat");
        }
    }
}

#[test]
fn pipeline_root_without_rows_is_fatal() {
    let log = scenario_log();
    let root = Id::from("ghost");
    let cfg = no_sentinel();
    let mut cache: ArcStrMap<String> = ArcStrMap::new();
    let r = run_pipeline(&root, &log, &mut cache, &cfg);
    assert_eq!(r.err().unwrap(), Error::MissingName);
}

#[test]
fn malformed_event_kind_is_fatal() {
    let raw = GamelogJoinLeaveRow {
        id: 0,
        created_at: "2024-01-01T10:00:00".to_string(),
        event_type: "teleported".to_string(),
        display_name: "Root".to_string(),
        location: "W1:I1".to_string(),
        user_id: "R".to_string(),
        time: 1,
    };
    assert_eq!(GamelogJoinLeave::from_row(&raw).unwrap_err(), Error::MalformedRow);
}

#[test]
fn malformed_location_is_fatal_but_empty_is_absent() {
    let mut raw = GamelogJoinLeaveRow {
        id: 0,
        created_at: "2024-01-01T10:00:00".to_string(),
        event_type: "join".to_string(),
        display_name: "Root".to_string(),
        location: "no-colon-here".to_string(),
        user_id: "R".to_string(),
        time: 1,
    };
    assert_eq!(
        GamelogJoinLeave::from_row(&raw).unwrap_err(),
        Error::MalformedRow
    );
    raw.location = String::new();
    let typed = GamelogJoinLeave::from_row(&raw).unwrap();
    assert!(typed.location.is_none());
}
