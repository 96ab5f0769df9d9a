//! The group-access modifier of a session location.

use crate::text::{eq_ignore_case, str_eq_ignore_case};
use vstd::prelude::*;

verus! {

/// A group access level, read from a location's `groupAccessType(..)`
/// modifier.
#[derive(Debug, Clone, Copy, PartialEq, Eq, Hash, Structural)]
pub enum GroupAccessType {
    Public,
    Plus,
    Members,
    Other,
}

/// The access level named by a modifier value, compared up to ASCII case;
/// `None` for an unknown value (the log is then malformed).
pub open spec fn spec_parse_group_access(s: Seq<char>) -> Option<GroupAccessType> {
    if eq_ignore_case(s, "public"@) {
        Some(GroupAccessType::Public)
    } else if eq_ignore_case(s, "plus"@) {
        Some(GroupAccessType::Plus)
    } else if eq_ignore_case(s, "members"@) {
        Some(GroupAccessType::Members)
    } else {
        None
    }
}

impl GroupAccessType {
    /// Parse a group access level, case-insensitively.
    pub fn parse(s: &str) -> (r: Option<GroupAccessType>)
        ensures
            r == spec_parse_group_access(s@),
    {
        if str_eq_ignore_case(s, "public") {
            Some(GroupAccessType::Public)
        } else if str_eq_ignore_case(s, "plus") {
            Some(GroupAccessType::Plus)
        } else if str_eq_ignore_case(s, "members") {
            Some(GroupAccessType::Members)
        } else {
            None
        }
    }
}

} // verus!
