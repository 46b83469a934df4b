use vstd::prelude::*;
use vstd::arithmetic::power2::{pow2, lemma2_to64, lemma_pow2_adds};
use crate::types::NeighborStats;

verus! {

/// Floor of the base-2 logarithm; zero below 2.
pub open spec fn floor_log2(v: nat) -> nat
    decreases v,
{
    if v < 2 {
        0
    } else {
        (1 + floor_log2(v / 2)) as nat
    }
}

/// Seconds a connection has been alive at `now`, saturating at zero for a
/// contact time in the future.
pub open spec fn uptime_of(now: u64, first_contact_time: u64) -> nat {
    if first_contact_time <= now {
        (now - first_contact_time) as nat
    } else {
        0
    }
}

/// Geometric uptime bucket: the nearest integer to the base-2 logarithm of
/// the uptime (zero for an uptime of zero). A connection alive for X seconds
/// is likely to stay alive for comparable further time, so only
/// order-of-magnitude age differences should influence ranking. Rounding
/// log2(u) to the nearest integer equals halving (rounding up) the floored
/// log2 of the square of u.
pub open spec fn uptime_bucket(uptime: nat) -> nat {
    if uptime == 0 {
        0
    } else {
        (((floor_log2(uptime * uptime) + 1) as nat) / 2) as nat
    }
}

proof fn lemma_pow2_128()
    ensures
        pow2(128) == 0x100000000000000000000000000000000,
{
    lemma2_to64();
    lemma_pow2_adds(64, 64);
}

proof fn lemma_floor_log2_bound(v: nat, e: nat)
    requires
        v < pow2(e + 1),
    ensures
        floor_log2(v) <= e,
    decreases v,
{
    if v < 2 {
    } else {
        if e == 0 {
            assert(pow2(1) == 2) by { lemma2_to64(); };
            assert(false);
        } else {
            assert(pow2(e + 1) == 2 * pow2(e)) by {
                lemma_pow2_adds(1, e);
                lemma2_to64();
            };
            lemma_floor_log2_bound(v / 2, (e - 1) as nat);
        }
    }
}

/// Computes the geometric uptime bucket of an uptime in seconds.
pub fn uptime_bucket_exec(uptime: u64) -> (r: u64)
    ensures
        r == uptime_bucket(uptime as nat),
        r <= 64,
{
    if uptime == 0 {
        return 0;
    }
    proof {
        assert(1 <= (uptime as nat) * (uptime as nat) <= (u64::MAX as nat) * (u64::MAX as nat))
            by (nonlinear_arith)
            requires 1 <= uptime <= u64::MAX;
    }
    let sq: u128 = (uptime as u128) * (uptime as u128);
    proof {
        lemma_pow2_128();
        lemma_floor_log2_bound(sq as nat, 127);
    }
    let mut x: u128 = sq;
    let mut f: u64 = 0;
    while x >= 2
        invariant
            1 <= x,
            f + floor_log2(x as nat) == floor_log2(sq as nat),
            floor_log2(sq as nat) <= 127,
        decreases x,
    {
        assert(floor_log2(x as nat) == 1 + floor_log2((x as nat) / 2));
        x = x / 2;
        f = f + 1;
    }
    (f + 1) / 2
}

/// Rank of a connection in the ascending evict-first order: primarily its
/// uptime bucket, with the health score breaking ties. Packing both into one
/// number makes the order total: lower rank means a better eviction candidate.
pub open spec fn evict_rank(now: u64, s: NeighborStats) -> int {
    uptime_bucket(uptime_of(now, s.first_contact_time)) * 0x10000000000000000 + s.health_score
}

/// Computes the evict-first rank of a connection's statistics at time `now`.
pub fn evict_rank_exec(now: u64, s: &NeighborStats) -> (r: u128)
    ensures
        r as int == evict_rank(now, *s),
{
    let uptime: u64 = if s.first_contact_time <= now {
        now - s.first_contact_time
    } else {
        0
    };
    let b = uptime_bucket_exec(uptime);
    (b as u128) * 0x10000000000000000u128 + (s.health_score as u128)
}

/// Outcome of ranking two connections against each other.
#[derive(Clone, Copy, PartialEq, Eq, Structural, Debug)]
pub enum RankOrdering {
    Less,
    Equal,
    Greater,
}

/// Total ordering over two connections' statistics, used to rank best-to-keep
/// against worst-to-evict. Uptime buckets are compared first (younger sorts
/// earlier, toward eviction); within a bucket, the lower health score sorts
/// earlier.
pub fn compare_neighbor_uptime_health(now: u64, stats1: &NeighborStats, stats2: &NeighborStats) -> (r:
    RankOrdering)
    ensures
        (r == RankOrdering::Less <==> evict_rank(now, *stats1) < evict_rank(now, *stats2)),
        (r == RankOrdering::Equal <==> evict_rank(now, *stats1) == evict_rank(now, *stats2)),
        (r == RankOrdering::Greater <==> evict_rank(now, *stats1) > evict_rank(now, *stats2)),
{
    let r1 = evict_rank_exec(now, stats1);
    let r2 = evict_rank_exec(now, stats2);
    if r1 < r2 {
        RankOrdering::Less
    } else if r1 == r2 {
        RankOrdering::Equal
    } else {
        RankOrdering::Greater
    }
}

} // verus!
