pub mod clock;
pub mod db;
pub mod order;
pub mod stats;
pub mod tpl;
pub mod strutil;
pub mod types;

use vstd::prelude::*;

verus! {

/// Smallest multiple of `step` that is no greater than `t`: the start of the
/// aggregation bucket containing instant `t`.
pub open spec fn bucket_floor(t: nat, step: nat) -> nat
    recommends
        step > 0,
{
    (t / step) * step
}

/// Truncate a unix timestamp down to the boundary of an aggregation bucket
/// of `step` seconds.
pub fn align_to_bucket(t: u64, step: u64) -> (r: u64)
    requires
        step > 0,
    ensures
        r == bucket_floor(t as nat, step as nat),
        r <= t,
        r % step == 0,
{
    let q = t / step;
    proof {
        assert(q * step <= t && (q * step) % (step as int) == 0) by (nonlinear_arith)
            requires
                step > 0,
                q == t as int / step as int,
                0 <= t,
        ;
    }
    q * step
}

} // verus!
