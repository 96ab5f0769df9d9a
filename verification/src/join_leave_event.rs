//! The kind of a presence event.

use crate::text::{eq_ignore_case, str_eq_ignore_case};
use vstd::prelude::*;

verus! {

/// What a log row records: someone joining a session, someone leaving it,
/// or another kind of entry.
#[derive(Debug, Clone, Copy, PartialEq, Eq, Hash, Structural)]
pub enum JoinLeaveEvent {
    Join,
    Leave,
    Other,
}

/// The event kind named by a row's type string, compared up to ASCII case;
/// `None` for an unknown kind (the log is then malformed).
pub open spec fn spec_parse_event(s: Seq<char>) -> Option<JoinLeaveEvent> {
    if eq_ignore_case(s, "join"@) || eq_ignore_case(s, "joins"@) || eq_ignore_case(s, "joined"@)
        || eq_ignore_case(s, "onplayerjoined"@) {
        Some(JoinLeaveEvent::Join)
    } else if eq_ignore_case(s, "leave"@) || eq_ignore_case(s, "leaves"@) || eq_ignore_case(
        s,
        "left"@,
    ) || eq_ignore_case(s, "onplayerleft"@) {
        Some(JoinLeaveEvent::Leave)
    } else {
        None
    }
}

impl JoinLeaveEvent {
    /// Parse an event kind, case-insensitively.
    pub fn parse(s: &str) -> (r: Option<JoinLeaveEvent>)
        ensures
            r == spec_parse_event(s@),
    {
        if str_eq_ignore_case(s, "join") || str_eq_ignore_case(s, "joins") || str_eq_ignore_case(
            s,
            "joined",
        ) || str_eq_ignore_case(s, "onplayerjoined") {
            Some(JoinLeaveEvent::Join)
        } else if str_eq_ignore_case(s, "leave") || str_eq_ignore_case(s, "leaves")
            || str_eq_ignore_case(s, "left") || str_eq_ignore_case(s, "onplayerleft") {
            Some(JoinLeaveEvent::Leave)
        } else {
            None
        }
    }
}

} // verus!
