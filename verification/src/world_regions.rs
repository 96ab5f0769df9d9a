//! The region modifier of a session location.

use crate::text::{eq_ignore_case, str_eq_ignore_case};
use vstd::prelude::*;

verus! {

/// A hosting region, read from a location's `region(..)` modifier.
#[derive(Debug, Clone, Copy, PartialEq, Eq, Hash, Structural)]
pub enum Regions {
    Other,
    USWest,
    US,
    USEast,
    Europe,
    Japan,
}

/// The region named by a modifier value, compared up to ASCII case; `None`
/// for a value naming no known region (the log is then malformed).
pub open spec fn spec_parse_region(s: Seq<char>) -> Option<Regions> {
    if eq_ignore_case(s, "uswest"@) || eq_ignore_case(s, "usw"@) || eq_ignore_case(s, "us w"@)
        || eq_ignore_case(s, "us_w"@) || eq_ignore_case(s, "uw"@) {
        Some(Regions::USWest)
    } else if eq_ignore_case(s, "us"@) {
        Some(Regions::US)
    } else if eq_ignore_case(s, "useast"@) || eq_ignore_case(s, "use"@) || eq_ignore_case(
        s,
        "us e"@,
    ) || eq_ignore_case(s, "us_e"@) || eq_ignore_case(s, "ue"@) {
        Some(Regions::USEast)
    } else if eq_ignore_case(s, "europe"@) || eq_ignore_case(s, "eu"@) {
        Some(Regions::Europe)
    } else if eq_ignore_case(s, "japan"@) || eq_ignore_case(s, "jp"@) {
        Some(Regions::Japan)
    } else {
        None
    }
}

impl Regions {
    /// Parse a region name, case-insensitively.
    pub fn parse(s: &str) -> (r: Option<Regions>)
        ensures
            r == spec_parse_region(s@),
    {
        if str_eq_ignore_case(s, "uswest") || str_eq_ignore_case(s, "usw") || str_eq_ignore_case(
            s,
            "us w",
        ) || str_eq_ignore_case(s, "us_w") || str_eq_ignore_case(s, "uw") {
            Some(Regions::USWest)
        } else if str_eq_ignore_case(s, "us") {
            Some(Regions::US)
        } else if str_eq_ignore_case(s, "useast") || str_eq_ignore_case(s, "use")
            || str_eq_ignore_case(s, "us e") || str_eq_ignore_case(s, "us_e")
            || str_eq_ignore_case(s, "ue") {
            Some(Regions::USEast)
        } else if str_eq_ignore_case(s, "europe") || str_eq_ignore_case(s, "eu") {
            Some(Regions::Europe)
        } else if str_eq_ignore_case(s, "japan") || str_eq_ignore_case(s, "jp") {
            Some(Regions::Japan)
        } else {
            None
        }
    }
}

} // verus!
