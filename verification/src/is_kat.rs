//! Identities, display names, and the reserved sentinel.
//!
//! An [`Id`] is the opaque account key used to join against the presence log;
//! a [`Name`] is the human-readable display name most recently bound to an
//! identity. One reserved identity/name pair (the sentinel) may be excluded
//! from all graph output; whether the exclusion flag is set is part of the
//! explicit [`SentinelConfig`] handed to the pipeline rather than ambient
//! global state.

use vstd::prelude::*;

verus! {

/// An opaque, immutable account key. Used as the join key against the log;
/// never displayed directly.
#[derive(Debug, Hash)]
pub struct Id(pub String);

impl View for Id {
    type V = Seq<char>;

    open spec fn view(&self) -> Seq<char> {
        self.0@
    }
}

impl Clone for Id {
    fn clone(&self) -> (r: Self)
        ensures
            r@ == self@,
    {
        Id(self.0.clone())
    }
}

impl Id {
    /// The key as an owned string.
    pub fn to_string(&self) -> (r: String)
        ensures
            r@ == self@,
    {
        self.0.clone()
    }
}

impl PartialEq for Id {
    fn eq(&self, other: &Id) -> (r: bool)
        ensures
            r == (self@ == other@),
    {
        self.0 == other.0
    }
}

impl vstd::std_specs::cmp::PartialEqSpecImpl for Id {
    open spec fn obeys_eq_spec() -> bool {
        true
    }

    open spec fn eq_spec(&self, other: &Id) -> bool {
        self@ == other@
    }
}

impl From<String> for Id {
    fn from(value: String) -> (r: Self)
        ensures
            r@ == value@,
    {
        Id(value)
    }
}

impl vstd::std_specs::convert::FromSpecImpl<String> for Id {
    open spec fn obeys_from_spec() -> bool {
        true
    }

    open spec fn from_spec(value: String) -> Id {
        Id(value)
    }
}

impl From<&str> for Id {
    fn from(value: &str) -> (r: Self)
        ensures
            r@ == value@,
    {
        Id(value.to_owned())
    }
}

impl vstd::std_specs::convert::FromSpecImpl<&str> for Id {
    open spec fn obeys_from_spec() -> bool {
        false
    }

    open spec fn from_spec(value: &str) -> Id {
        arbitrary()
    }
}

/// The most recently logged human-readable name bound to an identity.
#[derive(Debug, Hash)]
pub struct Name(pub String);

impl View for Name {
    type V = Seq<char>;

    open spec fn view(&self) -> Seq<char> {
        self.0@
    }
}

impl Clone for Name {
    fn clone(&self) -> (r: Self)
        ensures
            r@ == self@,
    {
        Name(self.0.clone())
    }
}

impl Name {
    /// The name as an owned string.
    pub fn to_string(&self) -> (r: String)
        ensures
            r@ == self@,
    {
        self.0.clone()
    }
}

impl PartialEq for Name {
    fn eq(&self, other: &Name) -> (r: bool)
        ensures
            r == (self@ == other@),
    {
        self.0 == other.0
    }
}

impl vstd::std_specs::cmp::PartialEqSpecImpl for Name {
    open spec fn obeys_eq_spec() -> bool {
        true
    }

    open spec fn eq_spec(&self, other: &Name) -> bool {
        self@ == other@
    }
}

impl From<String> for Name {
    fn from(value: String) -> (r: Self)
        ensures
            r@ == value@,
    {
        Name(value)
    }
}

impl vstd::std_specs::convert::FromSpecImpl<String> for Name {
    open spec fn obeys_from_spec() -> bool {
        true
    }

    open spec fn from_spec(value: String) -> Name {
        Name(value)
    }
}

impl From<&str> for Name {
    fn from(value: &str) -> (r: Self)
        ensures
            r@ == value@,
    {
        Name(value.to_owned())
    }
}

impl vstd::std_specs::convert::FromSpecImpl<&str> for Name {
    open spec fn obeys_from_spec() -> bool {
        false
    }

    open spec fn from_spec(value: &str) -> Name {
        arbitrary()
    }
}

/// The reserved sentinel identity/name pair and the state of its exclusion
/// flag. Built once at startup and passed through the pipeline explicitly.
pub struct SentinelConfig {
    /// The reserved account key.
    pub kat_id: String,
    /// The display name the sentinel identity currently resolves to.
    pub kat_name: String,
    /// Whether the exclusion flag is set. When `false` the sentinel is
    /// treated like any other identity.
    pub kat_exists: bool,
}

impl SentinelConfig {
    pub fn new(kat_id: String, kat_name: String, kat_exists: bool) -> (r: Self)
        ensures
            r.kat_id@ == kat_id@,
            r.kat_name@ == kat_name@,
            r.kat_exists == kat_exists,
    {
        SentinelConfig { kat_id, kat_name, kat_exists }
    }

    /// Whether a raw identity key is the sentinel's key.
    pub open spec fn spec_matches_id(&self, s: Seq<char>) -> bool {
        s == self.kat_id@
    }

    /// Whether a raw display name is the sentinel's current name.
    pub open spec fn spec_matches_name(&self, s: Seq<char>) -> bool {
        s == self.kat_name@
    }

    /// An identity key is dropped when the exclusion flag is set and the
    /// key is the sentinel's.
    pub open spec fn spec_drops_id(&self, s: Seq<char>) -> bool {
        self.kat_exists && self.spec_matches_id(s)
    }

    /// A display name is dropped when the exclusion flag is set and the
    /// name is the sentinel's.
    pub open spec fn spec_drops_name(&self, s: Seq<char>) -> bool {
        self.kat_exists && self.spec_matches_name(s)
    }

    /// A string is dropped when the exclusion flag is set and it matches
    /// either the sentinel's key or its current display name.
    pub open spec fn spec_drops_either(&self, s: Seq<char>) -> bool {
        self.kat_exists && (self.spec_matches_id(s) || self.spec_matches_name(s))
    }
}

/// Matching against the reserved sentinel, relative to an explicit
/// [`SentinelConfig`].
pub trait IsKat {
    /// What this value is compared against in the configuration.
    spec fn spec_is_kat(&self, cfg: &SentinelConfig) -> bool;

    /// Whether this value matches the sentinel.
    fn is_kat(&self, cfg: &SentinelConfig) -> (r: bool)
        ensures
            r == self.spec_is_kat(cfg),
    ;
}

impl IsKat for Id {
    open spec fn spec_is_kat(&self, cfg: &SentinelConfig) -> bool {
        cfg.spec_matches_id(self@)
    }

    fn is_kat(&self, cfg: &SentinelConfig) -> (r: bool)
        ensures
            r == self.spec_is_kat(cfg),
    {
        self.0 == cfg.kat_id
    }
}

impl IsKat for Name {
    open spec fn spec_is_kat(&self, cfg: &SentinelConfig) -> bool {
        cfg.spec_matches_name(self@)
    }

    fn is_kat(&self, cfg: &SentinelConfig) -> (r: bool)
        ensures
            r == self.spec_is_kat(cfg),
    {
        self.0 == cfg.kat_name
    }
}

impl IsKat for String {
    open spec fn spec_is_kat(&self, cfg: &SentinelConfig) -> bool {
        cfg.spec_matches_id(self@) || cfg.spec_matches_name(self@)
    }

    fn is_kat(&self, cfg: &SentinelConfig) -> (r: bool)
        ensures
            r == self.spec_is_kat(cfg),
    {
        *self == cfg.kat_id || *self == cfg.kat_name
    }
}

} // verus!
