//! Presence rows: the raw shape the store hands over, and the typed event
//! the pipeline works on.
//!
//! The store's timestamp column is kept as its text; the log writes
//! ISO-8601 timestamps, which order chronologically when ordered
//! lexicographically, so "most recent" is the lexicographic maximum.

use crate::error::Error;
use crate::join_leave_event::{spec_parse_event, JoinLeaveEvent};
use crate::world_instance::{
    spec_parse_world_instance, WorldInstance, WorldInstanceView,
};
use vstd::prelude::*;

verus! {

/// One raw row of the presence log, exactly as the store returns it.
#[derive(Debug, Clone)]
pub struct GamelogJoinLeaveRow {
    pub id: i64,
    pub created_at: String,
    /// The raw event kind column (named `type` in the store).
    pub event_type: String,
    pub display_name: String,
    pub location: String,
    pub user_id: String,
    pub time: i32,
}

/// The mathematical value of a raw row.
#[verifier::ext_equal]
pub struct GamelogJoinLeaveRowView {
    pub id: int,
    pub created_at: Seq<char>,
    pub event_type: Seq<char>,
    pub display_name: Seq<char>,
    pub location: Seq<char>,
    pub user_id: Seq<char>,
    pub time: int,
}

impl View for GamelogJoinLeaveRow {
    type V = GamelogJoinLeaveRowView;

    open spec fn view(&self) -> GamelogJoinLeaveRowView {
        GamelogJoinLeaveRowView {
            id: self.id as int,
            created_at: self.created_at@,
            event_type: self.event_type@,
            display_name: self.display_name@,
            location: self.location@,
            user_id: self.user_id@,
            time: self.time as int,
        }
    }
}

/// One typed presence event: the kind parsed, an empty location or identity
/// turned into absence, and the non-positive time field dropped.
#[derive(Debug)]
pub struct GamelogJoinLeave {
    pub id: i64,
    /// The timestamp text, kept verbatim; lexicographic order on it is the
    /// log's chronological order.
    pub created_at: String,
    pub event: JoinLeaveEvent,
    pub display_name: String,
    pub location: Option<WorldInstance>,
    pub user_id: Option<String>,
    pub time: Option<u64>,
}

/// The mathematical value of a typed presence event.
#[verifier::ext_equal]
pub struct GamelogJoinLeaveView {
    pub id: int,
    pub created_at: Seq<char>,
    pub event: JoinLeaveEvent,
    pub display_name: Seq<char>,
    pub location: Option<WorldInstanceView>,
    pub user_id: Option<Seq<char>>,
    pub time: Option<u64>,
}

impl View for GamelogJoinLeave {
    type V = GamelogJoinLeaveView;

    open spec fn view(&self) -> GamelogJoinLeaveView {
        GamelogJoinLeaveView {
            id: self.id as int,
            created_at: self.created_at@,
            event: self.event,
            display_name: self.display_name@,
            location: match self.location {
                Some(w) => Some(w@),
                None => None,
            },
            user_id: match self.user_id {
                Some(u) => Some(u@),
                None => None,
            },
            time: self.time,
        }
    }
}

impl GamelogJoinLeaveView {
    /// The view of the empty event.
    pub open spec fn empty() -> GamelogJoinLeaveView {
        GamelogJoinLeaveView {
            id: 0,
            created_at: Seq::empty(),
            event: JoinLeaveEvent::Other,
            display_name: Seq::empty(),
            location: None,
            user_id: None,
            time: None,
        }
    }
}

/// What converting a raw row yields: `Err` exactly on a malformed event
/// kind or a malformed non-empty location string.
pub open spec fn spec_from_row(r: GamelogJoinLeaveRowView) -> Result<
    GamelogJoinLeaveView,
    Error,
> {
    match spec_parse_event(r.event_type) {
        None => Err(Error::MalformedRow),
        Some(event) => {
            let location = if r.location.len() == 0 {
                Ok(None)
            } else {
                match spec_parse_world_instance(r.location) {
                    Ok(w) => Ok(Some(w)),
                    Err(_) => Err(Error::MalformedRow),
                }
            };
            match location {
                Err(e) => Err(e),
                Ok(loc) => Ok(
                    GamelogJoinLeaveView {
                        id: r.id,
                        created_at: r.created_at,
                        event,
                        display_name: r.display_name,
                        location: loc,
                        user_id: if r.user_id.len() == 0 {
                            None
                        } else {
                            Some(r.user_id)
                        },
                        time: if r.time <= 0 {
                            None
                        } else {
                            Some(r.time as u64)
                        },
                    },
                ),
            }
        },
    }
}

impl GamelogJoinLeave {
    /// The empty event.
    pub fn new() -> (r: Self)
        ensures
            r@ == GamelogJoinLeaveView::empty(),
    {
        let r = GamelogJoinLeave {
            id: 0,
            created_at: String::new(),
            event: JoinLeaveEvent::Other,
            display_name: String::new(),
            location: None,
            user_id: None,
            time: None,
        };
        proof {
            assert(r@ =~= GamelogJoinLeaveView::empty());
        }
        r
    }

    /// Type a raw row. The log is assumed well formed: a malformed event
    /// kind or location string is a fatal [`Error::MalformedRow`], exactly
    /// as [`spec_from_row`] says.
    pub fn from_row(row: &GamelogJoinLeaveRow) -> (r: Result<Self, Error>)
        ensures
            match (r, spec_from_row(row@)) {
                (Ok(g), Ok(v)) => g@ == v,
                (Err(e1), Err(e2)) => e1 == e2,
                _ => false,
            },
    {
        let event = match JoinLeaveEvent::parse(row.event_type.as_str()) {
            Some(e) => e,
            None => {
                return Err(Error::MalformedRow);
            },
        };
        let location = if row.location.as_str().is_empty() {
            None
        } else {
            match WorldInstance::from_str(row.location.as_str()) {
                Ok(w) => Some(w),
                Err(_) => {
                    return Err(Error::MalformedRow);
                },
            }
        };
        let user_id = if row.user_id.as_str().is_empty() {
            None
        } else {
            Some(row.user_id.clone())
        };
        let time = if row.time <= 0 {
            None
        } else {
            Some(row.time as u64)
        };
        let r = GamelogJoinLeave {
            id: row.id,
            created_at: row.created_at.clone(),
            event,
            display_name: row.display_name.clone(),
            location,
            user_id,
            time,
        };
        proof {
            match spec_from_row(row@) {
                Ok(v) => {
                    assert(r@ =~= v);
                },
                Err(_) => {},
            }
        }
        Ok(r)
    }
}

} // verus!
