//! Session locations and their encoding string.
//!
//! A location string has the shape `world:instance~mod(value)~mod(value)…`:
//! exactly one `:` separates the world id from the rest, the rest is split
//! at `~`, and every piece containing a `(` is a modifier whose key stands
//! before the `(` and whose value runs up to the next `)` or `(`. Two
//! locations are the same place when their `world_id:instance_id` prefix
//! matches; the modifiers are not part of the co-presence join key.

use crate::group_access_type::{spec_parse_group_access, GroupAccessType};
use crate::text::{
    count_char_from, count_from, find_char_between, find_char_from, first_idx_from, idx_between,
    lemma_count_pos_has_idx, lemma_first_idx_from, lemma_idx_between, str_eq,
};
use crate::world_regions::{spec_parse_region, Regions};
use vstd::prelude::*;

verus! {

/// A session location: a world, an instance of it, and optional modifiers.
#[derive(Debug, Hash)]
pub struct WorldInstance {
    pub world_id: String,
    pub instance_id: String,
    pub nonce: Option<String>,
    pub hidden: Option<String>,
    pub private: Option<String>,
    pub region: Option<Regions>,
    pub friends: Option<String>,
    pub group: Option<String>,
    pub group_access_type: Option<GroupAccessType>,
}

/// The mathematical value of a [`WorldInstance`]: the same fields over
/// character sequences.
#[verifier::ext_equal]
pub struct WorldInstanceView {
    pub world_id: Seq<char>,
    pub instance_id: Seq<char>,
    pub nonce: Option<Seq<char>>,
    pub hidden: Option<Seq<char>>,
    pub private: Option<Seq<char>>,
    pub region: Option<Regions>,
    pub friends: Option<Seq<char>>,
    pub group: Option<Seq<char>>,
    pub group_access_type: Option<GroupAccessType>,
}

/// The view of an optional string.
pub open spec fn opt_view(o: Option<String>) -> Option<Seq<char>> {
    match o {
        Some(s) => Some(s@),
        None => None,
    }
}

impl View for WorldInstance {
    type V = WorldInstanceView;

    open spec fn view(&self) -> WorldInstanceView {
        WorldInstanceView {
            world_id: self.world_id@,
            instance_id: self.instance_id@,
            nonce: opt_view(self.nonce),
            hidden: opt_view(self.hidden),
            private: opt_view(self.private),
            region: self.region,
            friends: opt_view(self.friends),
            group: opt_view(self.group),
            group_access_type: self.group_access_type,
        }
    }
}

impl WorldInstanceView {
    /// The view of a location with empty ids and no modifiers.
    pub open spec fn empty() -> WorldInstanceView {
        WorldInstanceView {
            world_id: Seq::empty(),
            instance_id: Seq::empty(),
            nonce: None,
            hidden: None,
            private: None,
            region: None,
            friends: None,
            group: None,
            group_access_type: None,
        }
    }

    /// The co-presence join key: `world_id:instance_id`.
    pub open spec fn prefix(self) -> Seq<char> {
        self.world_id + seq![':'] + self.instance_id
    }
}

/// A location parse error.
///
/// - `Empty`: the string is empty.
/// - `InvalidFormat`: the string does not have exactly one `:`.
/// - `InvalidWorldId`: the world id is empty.
/// - `InvalidInstanceId`: the instance id is empty.
/// - `InvalidOptionalField`: a modifier value names no known region or
///   group access level.
/// - `Other`: a modifier key is unknown.
#[derive(Debug, Clone, PartialEq, Eq, Structural)]
pub enum WorldInstanceParseError {
    Empty,
    InvalidFormat,
    InvalidWorldId,
    InvalidInstanceId,
    InvalidOptionalField,
    Other,
}

/// `idx_between` clamped into `[from, to]`: the end of the piece of the
/// window that starts at `from` and runs to the next `c` or to the window's
/// end.
pub open spec fn seg_end(s: Seq<char>, from: int, to: int, c: char) -> int {
    let e = idx_between(s, from, to, c);
    if e < from || e > to {
        to
    } else {
        e
    }
}

/// Apply one `~`-separated piece `[from, to)` of a location string to the
/// fields `w`. A piece without `(` changes nothing; otherwise the key
/// before the first `(` picks the field and the value runs from after the
/// `(` to the next `)` or `(`.
pub open spec fn spec_apply_segment(
    s: Seq<char>,
    from: int,
    to: int,
    w: WorldInstanceView,
) -> Result<WorldInstanceView, WorldInstanceParseError> {
    let k = idx_between(s, from, to, '(');
    if k == -1 {
        Ok(w)
    } else {
        let key = s.subrange(from, k);
        let e1 = seg_end(s, k + 1, to, '(');
        let e2 = seg_end(s, k + 1, to, ')');
        let ve = if e1 < e2 {
            e1
        } else {
            e2
        };
        let value = s.subrange(k + 1, ve);
        if key == "nonce"@ {
            Ok(WorldInstanceView { nonce: Some(value), ..w })
        } else if key == "hidden"@ {
            Ok(WorldInstanceView { hidden: Some(value), ..w })
        } else if key == "private"@ {
            Ok(WorldInstanceView { private: Some(value), ..w })
        } else if key == "region"@ {
            match spec_parse_region(value) {
                Some(rg) => Ok(WorldInstanceView { region: Some(rg), ..w }),
                None => Err(WorldInstanceParseError::InvalidOptionalField),
            }
        } else if key == "friends"@ {
            Ok(WorldInstanceView { friends: Some(value), ..w })
        } else if key == "group"@ {
            Ok(WorldInstanceView { group: Some(value), ..w })
        } else if key == "groupAccessType"@ {
            match spec_parse_group_access(value) {
                Some(g) => Ok(WorldInstanceView { group_access_type: Some(g), ..w }),
                None => Err(WorldInstanceParseError::InvalidOptionalField),
            }
        } else {
            Err(WorldInstanceParseError::Other)
        }
    }
}

/// Apply every `~`-separated piece of the window `[from, to)`, left to
/// right.
pub open spec fn spec_apply_segments(
    s: Seq<char>,
    from: int,
    to: int,
    w: WorldInstanceView,
) -> Result<WorldInstanceView, WorldInstanceParseError>
    decreases to - from when 0 <= from
{
    let e = seg_end(s, from, to, '~');
    match spec_apply_segment(s, from, e, w) {
        Err(err) => Err(err),
        Ok(w2) => if e >= to {
            Ok(w2)
        } else {
            spec_apply_segments(s, e + 1, to, w2)
        },
    }
}

/// What parsing a location string yields: the field values on success, and
/// which malformation was hit otherwise.
pub open spec fn spec_parse_world_instance(s: Seq<char>) -> Result<
    WorldInstanceView,
    WorldInstanceParseError,
> {
    if s.len() == 0 {
        Err(WorldInstanceParseError::Empty)
    } else if count_from(s, 0, ':') != 1 {
        Err(WorldInstanceParseError::InvalidFormat)
    } else {
        let ci = first_idx_from(s, 0, ':');
        if ci == 0 {
            Err(WorldInstanceParseError::InvalidWorldId)
        } else {
            let ie = seg_end(s, ci + 1, s.len() as int, '~');
            if ie == ci + 1 {
                Err(WorldInstanceParseError::InvalidInstanceId)
            } else {
                let w0 = WorldInstanceView {
                    world_id: s.subrange(0, ci),
                    instance_id: s.subrange(ci + 1, ie),
                    ..WorldInstanceView::empty()
                };
                spec_apply_segments(s, ci + 1, s.len() as int, w0)
            }
        }
    }
}

/// Apply one `~`-separated piece of the string to the fields.
fn apply_segment(s: &str, from: usize, to: usize, w: WorldInstance) -> (r: Result<
    WorldInstance,
    WorldInstanceParseError,
>)
    requires
        from <= to,
        to <= s@.len(),
    ensures
        match (r, spec_apply_segment(s@, from as int, to as int, w@)) {
            (Ok(x), Ok(v)) => x@ == v,
            (Err(e1), Err(e2)) => e1 == e2,
            _ => false,
        },
{
    proof {
        lemma_idx_between(s@, from as int, to as int, '(');
    }
    let k = match find_char_between(s, from, to, '(') {
        None => {
            return Ok(w);
        },
        Some(k) => k,
    };
    let key = s.substring_char(from, k);
    proof {
        lemma_idx_between(s@, k as int + 1, to as int, '(');
        lemma_idx_between(s@, k as int + 1, to as int, ')');
    }
    let e1 = match find_char_between(s, k + 1, to, '(') {
        None => to,
        Some(i) => i,
    };
    let e2 = match find_char_between(s, k + 1, to, ')') {
        None => to,
        Some(i) => i,
    };
    let ve = if e1 < e2 {
        e1
    } else {
        e2
    };
    let value = s.substring_char(k + 1, ve);
    if str_eq(key, "nonce") {
        Ok(WorldInstance { nonce: Some(value.to_owned()), ..w })
    } else if str_eq(key, "hidden") {
        Ok(WorldInstance { hidden: Some(value.to_owned()), ..w })
    } else if str_eq(key, "private") {
        Ok(WorldInstance { private: Some(value.to_owned()), ..w })
    } else if str_eq(key, "region") {
        match Regions::parse(value) {
            Some(rg) => Ok(WorldInstance { region: Some(rg), ..w }),
            None => Err(WorldInstanceParseError::InvalidOptionalField),
        }
    } else if str_eq(key, "friends") {
        Ok(WorldInstance { friends: Some(value.to_owned()), ..w })
    } else if str_eq(key, "group") {
        Ok(WorldInstance { group: Some(value.to_owned()), ..w })
    } else if str_eq(key, "groupAccessType") {
        match GroupAccessType::parse(value) {
            Some(g) => Ok(WorldInstance { group_access_type: Some(g), ..w }),
            None => Err(WorldInstanceParseError::InvalidOptionalField),
        }
    } else {
        Err(WorldInstanceParseError::Other)
    }
}

/// Apply every `~`-separated piece of the window `[from, to)`, left to
/// right.
fn apply_segments(s: &str, from: usize, to: usize, w: WorldInstance) -> (r: Result<
    WorldInstance,
    WorldInstanceParseError,
>)
    requires
        from <= to,
        to <= s@.len(),
    ensures
        match (r, spec_apply_segments(s@, from as int, to as int, w@)) {
            (Ok(x), Ok(v)) => x@ == v,
            (Err(e1), Err(e2)) => e1 == e2,
            _ => false,
        },
    decreases to - from,
{
    proof {
        lemma_idx_between(s@, from as int, to as int, '~');
    }
    let e = match find_char_between(s, from, to, '~') {
        None => to,
        Some(i) => i,
    };
    let w2 = match apply_segment(s, from, e, w) {
        Ok(x) => x,
        Err(err) => {
            return Err(err);
        },
    };
    if e >= to {
        Ok(w2)
    } else {
        apply_segments(s, e + 1, to, w2)
    }
}

impl WorldInstance {
    /// A location with empty ids and no modifiers.
    pub fn new() -> (r: Self)
        ensures
            r@ == WorldInstanceView::empty(),
    {
        let r = WorldInstance {
            world_id: String::new(),
            instance_id: String::new(),
            nonce: None,
            hidden: None,
            private: None,
            region: None,
            friends: None,
            group: None,
            group_access_type: None,
        };
        proof {
            assert(r@ =~= WorldInstanceView::empty());
        }
        r
    }

    /// The co-presence join key: `world_id:instance_id`.
    pub fn get_prefix(&self) -> (r: String)
        ensures
            r@ == self@.prefix(),
    {
        let mut r = self.world_id.clone();
        r.append(":");
        r.append(self.instance_id.as_str());
        proof {
            reveal_strlit(":");
            assert(":"@ =~= seq![':']);
            assert(r@ =~= self@.prefix());
        }
        r
    }

    /// Parse a location string; `Ok` exactly when
    /// [`spec_parse_world_instance`] accepts it, with exactly that error
    /// otherwise.
    pub fn from_str(s: &str) -> (r: Result<Self, WorldInstanceParseError>)
        ensures
            match (r, spec_parse_world_instance(s@)) {
                (Ok(x), Ok(v)) => x@ == v,
                (Err(e1), Err(e2)) => e1 == e2,
                _ => false,
            },
    {
        let n = s.unicode_len();
        if n == 0 {
            return Err(WorldInstanceParseError::Empty);
        }
        if count_char_from(s, 0, ':') != 1 {
            return Err(WorldInstanceParseError::InvalidFormat);
        }
        proof {
            lemma_count_pos_has_idx(s@, 0, ':');
            lemma_first_idx_from(s@, 0, ':');
        }
        let ci = match find_char_from(s, 0, ':') {
            Some(i) => i,
            None => {
                return Err(WorldInstanceParseError::InvalidFormat);
            },
        };
        if ci == 0 {
            return Err(WorldInstanceParseError::InvalidWorldId);
        }
        proof {
            lemma_idx_between(s@, ci as int + 1, s@.len() as int, '~');
        }
        let ie = match find_char_between(s, ci + 1, n, '~') {
            None => n,
            Some(i) => i,
        };
        if ie == ci + 1 {
            return Err(WorldInstanceParseError::InvalidInstanceId);
        }
        let mut w = WorldInstance::new();
        w.world_id = String::from_str(s.substring_char(0, ci));
        w.instance_id = String::from_str(s.substring_char(ci + 1, ie));
        proof {
            let w0 = WorldInstanceView {
                world_id: s@.subrange(0, ci as int),
                instance_id: s@.subrange(ci as int + 1, ie as int),
                ..WorldInstanceView::empty()
            };
            assert(w@ =~= w0);
        }
        apply_segments(s, ci + 1, n, w)
    }
}

/// Compare optional strings by their contents.
fn opt_string_eq(a: &Option<String>, b: &Option<String>) -> (r: bool)
    ensures
        r == (opt_view(*a) == opt_view(*b)),
{
    match (a, b) {
        (Option::None, Option::None) => true,
        (Option::Some(x), Option::Some(y)) => *x == *y,
        _ => false,
    }
}

/// Clone an optional string.
fn opt_string_clone(a: &Option<String>) -> (r: Option<String>)
    ensures
        opt_view(r) == opt_view(*a),
{
    match a {
        Option::None => None,
        Option::Some(x) => Some(x.clone()),
    }
}

impl PartialEq for WorldInstance {
    fn eq(&self, other: &WorldInstance) -> (r: bool)
        ensures
            r == (self@ == other@),
    {
        let r = self.world_id == other.world_id && self.instance_id == other.instance_id
            && opt_string_eq(&self.nonce, &other.nonce) && opt_string_eq(
            &self.hidden,
            &other.hidden,
        ) && opt_string_eq(&self.private, &other.private) && opt_region_eq(
            &self.region,
            &other.region,
        ) && opt_string_eq(&self.friends, &other.friends) && opt_string_eq(
            &self.group,
            &other.group,
        ) && opt_group_eq(&self.group_access_type, &other.group_access_type);
        proof {
            if r {
                assert(self@ =~= other@);
            }
        }
        r
    }
}

impl vstd::std_specs::cmp::PartialEqSpecImpl for WorldInstance {
    open spec fn obeys_eq_spec() -> bool {
        true
    }

    open spec fn eq_spec(&self, other: &WorldInstance) -> bool {
        self@ == other@
    }
}

impl Eq for WorldInstance {}

/// Compare optional regions.
fn opt_region_eq(a: &Option<Regions>, b: &Option<Regions>) -> (r: bool)
    ensures
        r == (*a == *b),
{
    match (a, b) {
        (Option::None, Option::None) => true,
        (Option::Some(x), Option::Some(y)) => *x == *y,
        _ => false,
    }
}

/// Compare optional group access levels.
fn opt_group_eq(a: &Option<GroupAccessType>, b: &Option<GroupAccessType>) -> (r: bool)
    ensures
        r == (*a == *b),
{
    match (a, b) {
        (Option::None, Option::None) => true,
        (Option::Some(x), Option::Some(y)) => *x == *y,
        _ => false,
    }
}

impl Clone for WorldInstance {
    fn clone(&self) -> (r: Self)
        ensures
            r@ == self@,
    {
        let r = WorldInstance {
            world_id: self.world_id.clone(),
            instance_id: self.instance_id.clone(),
            nonce: opt_string_clone(&self.nonce),
            hidden: opt_string_clone(&self.hidden),
            private: opt_string_clone(&self.private),
            region: self.region,
            friends: opt_string_clone(&self.friends),
            group: opt_string_clone(&self.group),
            group_access_type: self.group_access_type,
        };
        proof {
            assert(r@ =~= self@);
        }
        r
    }
}

impl Default for WorldInstance {
    /// A location with empty ids and no modifiers.
    fn default() -> (r: Self)
        ensures
            r@ == WorldInstanceView::empty(),
    {
        WorldInstance::new()
    }
}

impl From<&str> for WorldInstance {
    /// Parse a location string; an unparseable one yields the default
    /// location, so callers that must treat malformation as fatal parse
    /// through [`WorldInstance::from_str`] instead.
    fn from(s: &str) -> (r: Self)
        ensures
            match spec_parse_world_instance(s@) {
                Ok(v) => r@ == v,
                Err(_) => r@ == WorldInstanceView::empty(),
            },
    {
        match WorldInstance::from_str(s) {
            Ok(w) => w,
            Err(_) => WorldInstance::new(),
        }
    }
}

impl vstd::std_specs::convert::FromSpecImpl<&str> for WorldInstance {
    open spec fn obeys_from_spec() -> bool {
        false
    }

    open spec fn from_spec(s: &str) -> WorldInstance {
        arbitrary()
    }
}

impl From<String> for WorldInstance {
    /// Parse a location string; an unparseable one yields the default
    /// location, so callers that must treat malformation as fatal parse
    /// through [`WorldInstance::from_str`] instead.
    fn from(s: String) -> (r: Self)
        ensures
            match spec_parse_world_instance(s@) {
                Ok(v) => r@ == v,
                Err(_) => r@ == WorldInstanceView::empty(),
            },
    {
        match WorldInstance::from_str(s.as_str()) {
            Ok(w) => w,
            Err(_) => WorldInstance::new(),
        }
    }
}

impl vstd::std_specs::convert::FromSpecImpl<String> for WorldInstance {
    open spec fn obeys_from_spec() -> bool {
        false
    }

    open spec fn from_spec(s: String) -> WorldInstance {
        arbitrary()
    }
}

} // verus!
