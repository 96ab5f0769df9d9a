//! Per-edge statistics of the normalized graph.
//!
//! Percentages are held in hundredths of a percent (`6667` is `66.67 %`),
//! computed with round-half-away-from-zero on the hundredths digit:
//! `percentage` is the edge's share of the node's total outgoing weight,
//! `percentile` its share of the stored maximum plus one — the `+1` bias
//! keeps the maximum edge itself short of a full score.

use vstd::prelude::*;

verus! {

/// The statistics of one edge.
#[derive(Debug, Clone, Copy)]
pub struct Metadata {
    /// The edge's co-occurrence count.
    pub count: u32,
    /// The node's maximum outgoing count, plus one.
    pub max: u32,
    /// The node's total outgoing weight.
    pub total: u32,
    /// `count / total`, in hundredths of a percent.
    pub percentage: u32,
    /// `count / (max + 1)`, in hundredths of a percent.
    pub percentile: u32,
}

/// `a / b` rounded half away from zero, for non-negative `a` and positive
/// `b`.
pub open spec fn round_div(a: int, b: int) -> int {
    (2 * a + b) / (2 * b)
}

/// The statistics of an edge with count `c` on a node with total weight
/// `total` and maximum outgoing count `maxc`.
pub open spec fn spec_metadata(c: u32, total: int, maxc: int) -> Metadata {
    Metadata {
        count: c,
        max: (maxc + 1) as u32,
        total: total as u32,
        percentage: round_div(c * 10000, total) as u32,
        percentile: round_div(c * 10000, maxc + 2) as u32,
    }
}

impl PartialEq for Metadata {
    /// As in the exported form, only the raw figures decide equality; the
    /// two derived percentages are determined by them up to rounding.
    fn eq(&self, other: &Metadata) -> (r: bool)
        ensures
            r == (self.count == other.count && self.total == other.total && self.max
                == other.max),
    {
        self.count == other.count && self.total == other.total && self.max == other.max
    }
}

impl vstd::std_specs::cmp::PartialEqSpecImpl for Metadata {
    open spec fn obeys_eq_spec() -> bool {
        true
    }

    open spec fn eq_spec(&self, other: &Metadata) -> bool {
        self.count == other.count && self.total == other.total && self.max == other.max
    }
}

impl Eq for Metadata {}

/// What comparing two edge statistics yields: counts are comparable only
/// between edges of nodes with the same total and maximum.
pub open spec fn spec_metadata_cmp(a: Metadata, b: Metadata) -> Option<core::cmp::Ordering> {
    if a.total == b.total && a.max == b.max {
        if a.count < b.count {
            Some(core::cmp::Ordering::Less)
        } else if a.count > b.count {
            Some(core::cmp::Ordering::Greater)
        } else {
            Some(core::cmp::Ordering::Equal)
        }
    } else {
        None
    }
}

impl PartialOrd for Metadata {
    fn partial_cmp(&self, other: &Metadata) -> (r: Option<core::cmp::Ordering>)
        ensures
            r == spec_metadata_cmp(*self, *other),
    {
        if self.total == other.total && self.max == other.max {
            if self.count < other.count {
                Some(core::cmp::Ordering::Less)
            } else if self.count > other.count {
                Some(core::cmp::Ordering::Greater)
            } else {
                Some(core::cmp::Ordering::Equal)
            }
        } else {
            None
        }
    }
}

impl vstd::std_specs::cmp::PartialOrdSpecImpl for Metadata {
    open spec fn obeys_partial_cmp_spec() -> bool {
        true
    }

    open spec fn partial_cmp_spec(&self, other: &Metadata) -> Option<core::cmp::Ordering> {
        spec_metadata_cmp(*self, *other)
    }
}

/// Rounded division stays within one denominator of the exact quotient:
/// `round_div(a, b)` times `b` is within `b` of `a`.
pub proof fn lemma_round_div_bounds(a: int, b: int)
    requires
        a >= 0,
        b > 0,
    ensures
        b * round_div(a, b) >= a - b,
        b * round_div(a, b) <= a + b,
        round_div(a, b) >= 0,
{
    let q = (2 * a + b) / (2 * b);
    vstd::arithmetic::div_mod::lemma_fundamental_div_mod(2 * a + b, 2 * b);
    let r = (2 * a + b) % (2 * b);
    vstd::arithmetic::div_mod::lemma_remainder(2 * a + b, 2 * b);
    assert(2 * a + b == (2 * b) * q + r);
    assert(0 <= r < 2 * b);
    assert((2 * b) * q == 2 * (b * q)) by (nonlinear_arith);
    assert(2 * (b * q) == 2 * a + b - r);
    assert(2 * (b * q) > 2 * a + b - 2 * b);
    assert(2 * (b * q) <= 2 * a + b);
    assert(b * q >= a - b) by {
        if b * q <= a - b - 1 {
            assert(2 * (b * q) <= 2 * a - 2 * b - 2);
        }
    }
    assert(b * q <= a + b) by {
        if b * q >= a + b + 1 {
            assert(2 * (b * q) >= 2 * a + 2 * b + 2);
        }
    }
    assert(q >= 0) by {
        vstd::arithmetic::div_mod::lemma_div_pos_is_pos(2 * a + b, 2 * b);
    }
}

/// The `+1` bias keeps the maximum edge short of a full score: the
/// percentile of the edge carrying the maximum count `c` is strictly
/// below one hundred percent — as long as the count stays below the point
/// where rounding closes the gap.
pub proof fn lemma_percentile_biased(c: u32)
    requires
        c <= 39997,
    ensures
        round_div(c * 10000, c + 2) < 10000,
{
    let a = c * 10000int;
    let d = c + 2int;
    assert(2 * a + d < (2 * d) * 10000);
    vstd::arithmetic::div_mod::lemma_multiply_divide_lt(2 * a + d, 2 * d, 10000);
}

} // verus!
