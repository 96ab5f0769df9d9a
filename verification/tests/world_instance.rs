//! Location-string parsing.

use vrcx_insights::world_instance::{WorldInstance, WorldInstanceParseError};
use vrcx_insights::world_regions::Regions;

fn world_instance_data() -> WorldInstance {
    WorldInstance {
        world_id: "world_id".to_string(),
        instance_id: "instance_id".to_string(),
        nonce: None,
        hidden: None,
        private: None,
        region: Some(Regions::Europe),
        friends: None,
        group: None,
        group_access_type: None,
    }
}

#[test]
fn test_parse_world_instance() {
    let world_instance_str = "world_id:instance_id~region(EU)";
    let expected_world_instance = world_instance_data();
    let actual_world_instance = WorldInstance::from_str(world_instance_str).unwrap();
    assert_eq!(actual_world_instance, expected_world_instance);
}

#[test]
fn test_parse_world_instance_invalid_format() {
    let world_instance_str = "invalid_format";
    let actual_result = WorldInstance::from_str(world_instance_str);
    assert!(actual_result.is_err());
    assert_eq!(
        actual_result.unwrap_err(),
        WorldInstanceParseError::InvalidFormat
    );
}

#[test]
fn test_parse_world_instance_invalid_world_id() {
    let world_instance_str = ":instance_id~region(EU)";
    let actual_result = WorldInstance::from_str(world_instance_str);
    assert!(actual_result.is_err());
    assert_eq!(
        actual_result.unwrap_err(),
        WorldInstanceParseError::InvalidWorldId
    );
}

#[test]
fn test_parse_world_instance_invalid_instance_id() {
    let world_instance_str = "world_id:~region(EU)";
    let actual_result = WorldInstance::from_str(world_instance_str);
    assert!(actual_result.is_err());
    assert_eq!(
        actual_result.unwrap_err(),
        WorldInstanceParseError::InvalidInstanceId
    );
}

#[test]
fn test_from_str_for_world_instance_empty_input() {
    let world_instance_str = "";
    let actual_result = WorldInstance::from_str(world_instance_str);
    assert!(actual_result.is_err());
    assert_eq!(actual_result.unwrap_err(), WorldInstanceParseError::Empty);
}

#[test]
fn test_from_str_for_world_instance_from_string() {
    let world_instance_str = "world_id:instance_id~region(EU)";
    let expected_world_instance = world_instance_data();
    let actual_world_instance = WorldInstance::from(world_instance_str.to_string());
    assert_eq!(actual_world_instance, expected_world_instance);
}

#[test]
fn test_from_str_for_world_instance_from_str() {
    let world_instance_str = "world_id:instance_id~region(EU)";
    let expected_world_instance = world_instance_data();
    let actual_world_instance = WorldInstance::from(world_instance_str);
    assert_eq!(actual_world_instance, expected_world_instance);
}

#[test]
fn test_parse_world_instance_unknown_key_is_rejected() {
    let actual_result = WorldInstance::from_str("world_id:instance_id~unknown_key(value)");
    assert!(actual_result.is_err());
    assert_eq!(actual_result.unwrap_err(), WorldInstanceParseError::Other);
}

#[test]
fn test_parse_world_instance_bad_region_value() {
    let actual_result = WorldInstance::from_str("world_id:instance_id~region(nowhere)");
    assert_eq!(
        actual_result.unwrap_err(),
        WorldInstanceParseError::InvalidOptionalField
    );
}

#[test]
fn test_parse_world_instance_all_modifiers() {
    let s = "w:i~nonce(n1)~hidden(h)~private(p)~friends(f)~group(g)~groupAccessType(members)~region(jp)";
    let w = WorldInstance::from_str(s).unwrap();
    assert_eq!(w.world_id, "w");
    assert_eq!(w.instance_id, "i");
    assert_eq!(w.nonce, Some("n1".to_string()));
    assert_eq!(w.hidden, Some("h".to_string()));
    assert_eq!(w.private, Some("p".to_string()));
    assert_eq!(w.friends, Some("f".to_string()));
    assert_eq!(w.group, Some("g".to_string()));
    assert!(w.group_access_type.is_some());
    assert_eq!(w.region, Some(Regions::Japan));
}

#[test]
fn test_get_prefix_joins_world_and_instance() {
    let w = WorldInstance::from_str("wrld_abc:12345~region(EU)").unwrap();
    assert_eq!(w.get_prefix(), "wrld_abc:12345");
}
