//! What the library promises as a whole.
//!
//! The statements below speak of plain data: fields, positions, moments,
//! signatures that a key accepts. They say what a result must satisfy, for
//! every input, without recourse to how it is computed.

pub mod ancestry;
pub mod calendar;
pub mod encodings;
pub mod envelopes;
pub mod layouts;
pub mod logs;
pub mod objects;
pub mod records;
pub mod resolution;
pub mod revocation;
pub mod scopes;
pub mod sessions;
pub mod signatures;
pub mod standings;
pub mod texts;
pub mod thresholds;
pub mod trust;
pub mod verification;

use vstd::prelude::*;

use crate::time::{Interval, Timestamp};

verus! {

/// Whether one moment is not after another.
pub open spec fn not_later(a: Timestamp, b: Timestamp) -> bool {
    a.secs < b.secs || (a.secs == b.secs && a.nanos <= b.nanos)
}

/// Whether a moment is neither before the start of a span nor after its end.
pub open spec fn inside(span: Interval, t: Timestamp) -> bool {
    not_later(span.from, t) && match span.to {
        None => true,
        Some(end) => not_later(t, end),
    }
}

/// Moments are ordered by their seconds, then by their nanoseconds.
pub proof fn moments_are_ordered(a: Timestamp, b: Timestamp)
    ensures
        a.le(b) == not_later(a, b),
        a.lt(b) == !not_later(b, a),
{
}

/// Both ends belong to a span, and a span without end goes on.
pub proof fn spans_hold_both_ends(span: Interval, t: Timestamp)
    ensures
        span.has(t) == inside(span, t),
{
}

} // verus!
