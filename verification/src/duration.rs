//! The view of `std::time::Duration` used by the contracts: whole seconds and
//! the nanoseconds of the second that has begun.

use std::time::Duration;
use vstd::prelude::*;

verus! {

pub open spec fn nanos_per_sec() -> nat {
    1_000_000_000
}

/// The longest duration, in nanoseconds: `u64::MAX` seconds and 999,999,999 ns.
pub open spec fn max_total_nanos() -> nat {
    (u64::MAX as nat) * nanos_per_sec() + 999_999_999
}

/// What `Duration::as_secs` returns for a duration.
pub uninterp spec fn secs_of(d: Duration) -> u64;

/// What `Duration::subsec_nanos` returns for a duration.
pub uninterp spec fn subsec_nanos_of(d: Duration) -> u32;

/// The length of a duration in nanoseconds.
pub open spec fn total_nanos(d: Duration) -> nat {
    (secs_of(d) as nat) * nanos_per_sec() + (subsec_nanos_of(d) as nat)
}

/// `Duration::as_secs`: the number of whole seconds. Claimed: the named value.
#[verifier::external_body]
pub(crate) fn duration_as_secs(d: &Duration) -> (r: u64)
    ensures
        r == secs_of(*d),
{
    d.as_secs()
}

/// `Duration::subsec_nanos`: the fractional part in nanoseconds. Claimed: the
/// named value, which the documentation says is below one billion.
#[verifier::external_body]
pub(crate) fn duration_subsec_nanos(d: &Duration) -> (r: u32)
    ensures
        r == subsec_nanos_of(*d),
        r < 1_000_000_000,
{
    d.subsec_nanos()
}

/// `Duration::new`: the duration of `secs` seconds and `nanos` nanoseconds.
/// Claimed: with `nanos` below one billion (so that nothing carries and the
/// call cannot panic), `as_secs` gives back `secs` and `subsec_nanos` gives
/// back `nanos`.
#[verifier::external_body]
pub(crate) fn duration_new(secs: u64, nanos: u32) -> (d: Duration)
    requires
        nanos < 1_000_000_000,
    ensures
        secs_of(d) == secs,
        subsec_nanos_of(d) == nanos,
{
    Duration::new(secs, nanos)
}

} // verus!
