//! The smaller pieces: the association map, the parsers, the edge
//! statistics, and the standalone vertex.

use vrcx_insights::cache::{ArcStrMap, ArcStrSet};
use vrcx_insights::error::Error;
use vrcx_insights::group_access_type::GroupAccessType;
use vrcx_insights::is_kat::{Id, IsKat, Name, SentinelConfig};
use vrcx_insights::join_leave_event::JoinLeaveEvent;
use vrcx_insights::metadata::Metadata;
use vrcx_insights::normalize::apply_threshold;
use vrcx_insights::vertex::Vertex;
use vrcx_insights::world_regions::Regions;

#[test]
fn map_insert_get_and_len() {
    let mut m: ArcStrMap<u32> = ArcStrMap::new();
    assert!(m.is_empty());
    assert_eq!(m.insert("a".to_string(), 1), None);
    assert_eq!(m.insert("b".to_string(), 2), None);
    assert_eq!(m.len(), 2);
    assert_eq!(m.get(&"a".to_string()), Some(&1));
    assert_eq!(m.get(&"c".to_string()), None);
    // An update keeps the entry count and returns the old binding.
    assert_eq!(m.insert("a".to_string(), 7), Some(1));
    assert_eq!(m.len(), 2);
    assert_eq!(m.get(&"a".to_string()), Some(&7));
    assert_eq!(m.keys(), vec!["a".to_string(), "b".to_string()]);
    assert_eq!(m.values(), vec![7, 2]);
}

#[test]
fn map_iteration_orders_by_first_insertion() {
    let mut m: ArcStrMap<u32> = ArcStrMap::new_empty_arc_str();
    m.insert("z".to_string(), 26);
    m.insert("a".to_string(), 1);
    m.insert("z".to_string(), 260);
    let entries = m.into_iter();
    assert_eq!(entries.len(), 2);
    assert_eq!(entries[0].0, "z");
    assert_eq!(entries[0].1, 260);
    assert_eq!(entries[1].0, "a");
}

#[test]
fn set_insert_reports_prior_presence() {
    let mut s: ArcStrSet = ArcStrSet::new();
    assert!(!s.insert_set("x".to_string()));
    assert!(s.insert_set("x".to_string()));
    assert!(!s.insert_set("y".to_string()));
    assert_eq!(s.keys_set(), vec!["x".to_string(), "y".to_string()]);
}

#[test]
fn sentinel_matching_follows_config() {
    let cfg = SentinelConfig::new("usr_1".to_string(), "Kat".to_string(), true);
    assert!(Id::from("usr_1").is_kat(&cfg));
    assert!(!Id::from("usr_2").is_kat(&cfg));
    assert!(Name::from("Kat").is_kat(&cfg));
    assert!(!Name::from("usr_1").is_kat(&cfg));
    assert!("usr_1".to_string().is_kat(&cfg));
    assert!("Kat".to_string().is_kat(&cfg));
    assert!(!"kat".to_string().is_kat(&cfg));
}

#[test]
fn event_kinds_parse_case_insensitively() {
    assert_eq!(JoinLeaveEvent::parse("OnPlayerJoined"), Some(JoinLeaveEvent::Join));
    assert_eq!(JoinLeaveEvent::parse("joins"), Some(JoinLeaveEvent::Join));
    assert_eq!(JoinLeaveEvent::parse("LEFT"), Some(JoinLeaveEvent::Leave));
    assert_eq!(JoinLeaveEvent::parse("OnPlayerLeft"), Some(JoinLeaveEvent::Leave));
    assert_eq!(JoinLeaveEvent::parse("teleport"), None);
}

#[test]
fn regions_parse_their_aliases() {
    assert_eq!(Regions::parse("EU"), Some(Regions::Europe));
    assert_eq!(Regions::parse("Europe"), Some(Regions::Europe));
    assert_eq!(Regions::parse("us w"), Some(Regions::USWest));
    assert_eq!(Regions::parse("use"), Some(Regions::USEast));
    assert_eq!(Regions::parse("us"), Some(Regions::US));
    assert_eq!(Regions::parse("jp"), Some(Regions::Japan));
    assert_eq!(Regions::parse("moon"), None);
}

#[test]
fn group_access_parses_known_levels() {
    assert_eq!(GroupAccessType::parse("Public"), Some(GroupAccessType::Public));
    assert_eq!(GroupAccessType::parse("plus"), Some(GroupAccessType::Plus));
    assert_eq!(GroupAccessType::parse("MEMBERS"), Some(GroupAccessType::Members));
    assert_eq!(GroupAccessType::parse("secret"), None);
}

#[test]
fn metadata_compares_only_within_one_node_shape() {
    let a = Metadata { count: 2, max: 3, total: 3, percentage: 6667, percentile: 5000 };
    let b = Metadata { count: 1, max: 3, total: 3, percentage: 3333, percentile: 2500 };
    // Equality goes by the raw figures alone.
    assert_eq!(a, Metadata { count: 2, max: 3, total: 3, percentage: 0, percentile: 0 });
    assert!(a != b);
    // Counts compare when total and max agree, and only then.
    assert_eq!(a.partial_cmp(&b), Some(std::cmp::Ordering::Greater));
    assert_eq!(b.partial_cmp(&a), Some(std::cmp::Ordering::Less));
    let c = Metadata { count: 2, max: 9, total: 9, percentage: 0, percentile: 0 };
    assert_eq!(a.partial_cmp(&c), None);
}

#[test]
fn vertex_add_counts_per_identity() {
    let mut v = Vertex::new("R");
    v.add(Vertex::new("A"));
    v.add(Vertex::new("B"));
    v.add(Vertex::new("A"));
    assert_eq!(v.everyone_else.len(), 2);
    assert_eq!(v.everyone_else[0].0.user_id, "A");
    assert_eq!(v.everyone_else[0].1, 2);
    assert_eq!(v.everyone_else[1].0.user_id, "B");
    assert_eq!(v.everyone_else[1].1, 1);
}

#[test]
fn error_messages_name_the_failure() {
    assert!(Error::Store.message().contains("store"));
    assert!(Error::MissingName.message().contains("no presence row"));
    assert!(Error::MalformedRow.message().contains("malformed"));
    assert!(Error::Overflow.message().contains("weight"));
}

#[test]
fn threshold_keeps_qualifying_edges_only() {
    let mut inner: ArcStrMap<Metadata> = ArcStrMap::new();
    inner.insert(
        "big".to_string(),
        Metadata { count: 3, max: 4, total: 4, percentage: 7500, percentile: 6000 },
    );
    inner.insert(
        "small".to_string(),
        Metadata { count: 1, max: 4, total: 4, percentage: 2500, percentile: 2000 },
    );
    let mut g: ArcStrMap<ArcStrMap<Metadata>> = ArcStrMap::new();
    g.insert("node".to_string(), inner);

    let kept = apply_threshold(&g, 5000);
    let node = kept.get(&"node".to_string()).unwrap();
    assert!(node.get(&"big".to_string()).is_some());
    assert!(node.get(&"small".to_string()).is_none());

    // A threshold nothing reaches drops the node entirely.
    let none = apply_threshold(&g, 9999);
    assert!(none.get(&"node".to_string()).is_none());

    // A zero threshold keeps everything.
    let all = apply_threshold(&g, 0);
    assert_eq!(all.get(&"node".to_string()).unwrap().len(), 2);
}
