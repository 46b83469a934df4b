use vstd::prelude::*;
use crate::distribution::{lemma_org_members_complete, lemma_org_members_elem, lemma_org_members_distinct, org_members, orgs_in, OrgBucket};
use crate::network::{conn_keys_unique, count_outbound_spec, lemma_count_outbound_bounds, PeerNetwork};
use crate::peerdb::PeerDb;
use crate::sampler::{lemma_weight_total_nonneg, sample_org_by_neighbor_count, weight_total};
use crate::sorts::{distinct_info_keys, sort_neighbor_infos, sorted_by_evict_rank, NeighborInfo};
use crate::types::{distinct_keys, ConnEntry, LocalPeer, NetError, NeighborKey};
use crate::uptime::evict_rank;

verus! {

/// How many of a pruner's returned keys the database assigns to one
/// organization.
pub open spec fn pruned_for_org(r: Seq<NeighborKey>, db: PeerDb, org: u32) -> int
    decreases r.len(),
{
    if r.len() == 0 {
        0
    } else {
        pruned_for_org(r.drop_last(), db, org) + (if db.org_of(r.last()) == Option::Some(org) {
            1int
        } else {
            0int
        })
    }
}

pub proof fn lemma_pruned_nonneg(r: Seq<NeighborKey>, db: PeerDb, org: u32)
    ensures
        pruned_for_org(r, db, org) >= 0,
    decreases r.len(),
{
    if r.len() > 0 {
        lemma_pruned_nonneg(r.drop_last(), db, org);
    }
}

/// Every returned key names a live outbound connection outside the preserve
/// set.
pub open spec fn outbound_sound(conns: Seq<ConnEntry>, preserve: Seq<u64>, r: Seq<
    NeighborKey,
>) -> bool {
    forall|idx: int|
        #![trigger r[idx]]
        0 <= idx < r.len() ==> exists|ci: int|
            0 <= ci < conns.len() && (#[trigger] conns[ci]).key == r[idx]
                && conns[ci].stats.outbound && !preserve.contains(conns[ci].event_id)
}

/// Every returned key resolves in the peer database: a peer the database
/// does not know is never evicted by the organization path.
pub open spec fn all_resolved(db: PeerDb, r: Seq<NeighborKey>) -> bool {
    forall|idx: int| #![trigger r[idx]] 0 <= idx < r.len() ==> db.org_of(r[idx]) is Some
}

/// How many members an organization holds beyond the per-organization cap.
pub open spec fn org_excess(
    conns: Seq<ConnEntry>,
    preserve: Seq<u64>,
    db: PeerDb,
    cap: u64,
    org: u32,
) -> int {
    if org_members(conns, preserve, db, org).len() > cap {
        org_members(conns, preserve, db, org).len() - cap
    } else {
        0
    }
}

/// The per-organization excesses summed over a list of organizations.
pub open spec fn total_org_excess(
    conns: Seq<ConnEntry>,
    preserve: Seq<u64>,
    db: PeerDb,
    cap: u64,
    orgs: Seq<u32>,
) -> int
    decreases orgs.len(),
{
    if orgs.len() == 0 {
        0
    } else {
        total_org_excess(conns, preserve, db, cap, orgs.drop_last()) + org_excess(
            conns,
            preserve,
            db,
            cap,
            orgs.last(),
        )
    }
}

proof fn lemma_total_excess_prefix(
    conns: Seq<ConnEntry>,
    preserve: Seq<u64>,
    db: PeerDb,
    cap: u64,
    orgs: Seq<u32>,
    m: int,
)
    requires
        0 <= m <= orgs.len(),
    ensures
        total_org_excess(conns, preserve, db, cap, orgs.take(m)) <= total_org_excess(
            conns,
            preserve,
            db,
            cap,
            orgs,
        ),
    decreases orgs.len(),
{
    if m == orgs.len() {
        assert(orgs.take(m) =~= orgs);
    } else {
        assert(orgs.drop_last().take(m) =~= orgs.take(m));
        lemma_total_excess_prefix(conns, preserve, db, cap, orgs.drop_last(), m);
    }
}

/// Every bucket's members stand in ascending evict-first order.
pub open spec fn buckets_sorted(now: u64, dist: Seq<OrgBucket>) -> bool {
    forall|j: int|
        0 <= j < dist.len() ==> sorted_by_evict_rank(now, (#[trigger] dist[j]).members@)
}

/// A bucket holds exactly the members of its organization that were not yet
/// pruned.
pub open spec fn members_retained(
    conns: Seq<ConnEntry>,
    preserve: Seq<u64>,
    db: PeerDb,
    dist: Seq<OrgBucket>,
    ret: Seq<NeighborKey>,
) -> bool {
    forall|j: int, m: NeighborInfo|
        #![trigger org_members(conns, preserve, db, dist[j].org).contains(m)]
        0 <= j < dist.len() && org_members(conns, preserve, db, dist[j].org).contains(m) ==> (
        dist[j].members@.contains(m) <==> !ret.contains(m.0))
}

/// Among one organization's candidates, every connection kept ranks no
/// lower than any connection evicted: the worst-to-keep go first.
pub open spec fn worst_first(
    now: u64,
    conns: Seq<ConnEntry>,
    preserve: Seq<u64>,
    db: PeerDb,
    ret: Seq<NeighborKey>,
) -> bool {
    forall|ci: int, cj: int|
        #![trigger conns[ci], conns[cj]]
        0 <= ci < conns.len() && 0 <= cj < conns.len() && conns[ci].stats.outbound
            && !preserve.contains(conns[ci].event_id) && conns[cj].stats.outbound
            && !preserve.contains(conns[cj].event_id) && db.org_of(conns[ci].key) == db.org_of(
            conns[cj].key,
        ) && db.org_of(conns[ci].key) is Some && ret.contains(conns[ci].key) && !ret.contains(
            conns[cj].key,
        ) ==> evict_rank(now, conns[ci].stats) <= evict_rank(now, conns[cj].stats)
}

/// The running state of one outbound pruning pass: the buckets still hold
/// distinct organizations with pairwise distinct member keys, each member is
/// one of its organization's connections, each organization's bucket size
/// plus what was already pruned from it equals what it started with, nothing
/// was pruned from an organization without a bucket, and the result list
/// holds distinct keys of live outbound non-preserved connections, none of
/// which is still a member anywhere.
pub open spec fn bucket_state_ok(
    conns: Seq<ConnEntry>,
    preserve: Seq<u64>,
    db: PeerDb,
    dist: Seq<OrgBucket>,
    ret: Seq<NeighborKey>,
) -> bool {
    &&& forall|a: int, b: int|
        0 <= a < b < dist.len() ==> (#[trigger] dist[a]).org != (#[trigger] dist[b]).org
    &&& forall|j: int| 0 <= j < dist.len() ==> distinct_info_keys((#[trigger] dist[j]).members@)
    &&& forall|j: int, m: NeighborInfo|
        0 <= j < dist.len() && #[trigger] dist[j].members@.contains(m) ==> org_members(
            conns,
            preserve,
            db,
            dist[j].org,
        ).contains(m)
    &&& forall|j: int|
        0 <= j < dist.len() ==> (#[trigger] dist[j]).members@.len() + pruned_for_org(
            ret,
            db,
            dist[j].org,
        ) == org_members(conns, preserve, db, dist[j].org).len()
    &&& forall|org: u32|
        (forall|j: int| 0 <= j < dist.len() ==> (#[trigger] dist[j]).org != org)
            ==> #[trigger] pruned_for_org(ret, db, org) == 0
    &&& distinct_keys(ret)
    &&& outbound_sound(conns, preserve, ret)
    &&& forall|j: int, x: int|
        0 <= j < dist.len() && 0 <= x < dist[j].members@.len() ==> !ret.contains(
            (#[trigger] dist[j].members@[x]).0,
        )
}

/// Removes the worst-ranked remaining member of the bucket at `k` and
/// appends its key to the result, keeping the pass state consistent.
fn evict_front(
    dist: &mut Vec<OrgBucket>,
    ret: &mut Vec<NeighborKey>,
    k: usize,
    Ghost(now): Ghost<u64>,
    Ghost(conns): Ghost<Seq<ConnEntry>>,
    Ghost(preserve): Ghost<Seq<u64>>,
    Ghost(db): Ghost<PeerDb>,
)
    requires
        conn_keys_unique(conns),
        bucket_state_ok(conns, preserve, db, old(dist)@, old(ret)@),
        buckets_sorted(now, old(dist)@),
        members_retained(conns, preserve, db, old(dist)@, old(ret)@),
        worst_first(now, conns, preserve, db, old(ret)@),
        all_resolved(db, old(ret)@),
        k < old(dist)@.len(),
        old(dist)@[k as int].members@.len() > 0,
    ensures
        bucket_state_ok(conns, preserve, db, final(dist)@, final(ret)@),
        buckets_sorted(now, final(dist)@),
        members_retained(conns, preserve, db, final(dist)@, final(ret)@),
        worst_first(now, conns, preserve, db, final(ret)@),
        all_resolved(db, final(ret)@),
        final(dist)@.len() == old(dist)@.len(),
        final(ret)@.len() == old(ret)@.len() + 1,
        forall|j: int|
            0 <= j < old(dist)@.len() && j != k ==> final(dist)@[j] == old(dist)@[j],
        final(dist)@[k as int].org == old(dist)@[k as int].org,
        final(dist)@[k as int].members@ == old(dist)@[k as int].members@.drop_first(),
{
    let ghost d0 = old(dist)@;
    let ghost r0 = old(ret)@;
    let ghost org = d0[k as int].org;
    let ghost mm = d0[k as int].members@[0];
    let mut b = dist.remove(k);
    let m0 = b.members.remove(0);
    ret.push(m0.0);
    dist.insert(k, b);
    proof {
        assert(b.members@ =~= d0[k as int].members@.drop_first());
        assert(dist@ == d0.remove(k as int).insert(k as int, b));
        assert(dist@.len() == d0.len());
        assert forall|j: int| 0 <= j < d0.len() && j != k implies dist@[j] == d0[j] by {
            if j < k {
                assert(d0.remove(k as int)[j] == d0[j]);
            } else {
                assert(d0.remove(k as int)[j - 1] == d0[j]);
            }
        };
        assert(dist@[k as int] == b);
        assert(ret@ =~= r0.push(mm.0));
        assert(ret@.drop_last() =~= r0);
        assert(ret@.last() == mm.0);

        // the evicted member is one of its organization's connections
        assert(d0[k as int].members@.contains(mm));
        assert(org_members(conns, preserve, db, org).contains(mm));
        lemma_org_members_elem(conns, preserve, db, org, mm);
        let ci = choose|ci: int|
            0 <= ci < conns.len() && (#[trigger] conns[ci]).key == mm.0 && conns[ci].stats == mm.1
                && crate::distribution::is_org_member(conns[ci], preserve, db, org);
        assert(db.org_of(mm.0) == Option::Some(org));

        // how the per-organization pruning counts change
        assert forall|o: u32|
            pruned_for_org(ret@, db, o) == pruned_for_org(r0, db, o) + (if o == org {
                1int
            } else {
                0int
            }) by {};

        // member keys of other buckets never equal the evicted key
        assert forall|j: int, x: int|
            0 <= j < d0.len() && j != k && 0 <= x < d0[j].members@.len() implies (
        #[trigger] d0[j].members@[x]).0 != mm.0 by {
            assert(d0[j].members@.contains(d0[j].members@[x]));
            assert(org_members(conns, preserve, db, d0[j].org).contains(d0[j].members@[x]));
            lemma_org_members_elem(conns, preserve, db, d0[j].org, d0[j].members@[x]);
            let ci2 = choose|ci2: int|
                0 <= ci2 < conns.len() && (#[trigger] conns[ci2]).key == d0[j].members@[x].0
                    && conns[ci2].stats == d0[j].members@[x].1
                    && crate::distribution::is_org_member(conns[ci2], preserve, db, d0[j].org);
            assert(db.org_of(d0[j].members@[x].0) == Option::Some(d0[j].org));
            if j < k {
                assert(d0[j].org != org);
            } else {
                assert(d0[k as int].org != d0[j].org);
            }
        };

        // each bundle piece, re-established
        assert forall|a: int, b2: int| 0 <= a < b2 < dist@.len() implies (#[trigger] dist@[a]).org
            != (#[trigger] dist@[b2]).org by {
            assert(dist@[a].org == d0[a].org);
            assert(dist@[b2].org == d0[b2].org);
        };
        assert forall|j: int| 0 <= j < dist@.len() implies distinct_info_keys(
            (#[trigger] dist@[j]).members@,
        ) by {
            if j == k {
                assert(forall|x: int|
                    0 <= x < dist@[j].members@.len() ==> dist@[j].members@[x] == d0[
                        k as int
                    ].members@[x + 1]);
                assert(distinct_info_keys(d0[k as int].members@));
            }
        };
        assert forall|j: int, m: NeighborInfo|
            0 <= j < dist@.len() && #[trigger] dist@[j].members@.contains(m) implies org_members(
            conns,
            preserve,
            db,
            dist@[j].org,
        ).contains(m) by {
            if j == k {
                let x = choose|x: int| 0 <= x < dist@[j].members@.len() && dist@[j].members@[x] == m;
                assert(d0[k as int].members@[x + 1] == m);
                assert(d0[k as int].members@.contains(m));
            }
        };
        assert forall|j: int|
            0 <= j < dist@.len() implies (#[trigger] dist@[j]).members@.len() + pruned_for_org(
            ret@,
            db,
            dist@[j].org,
        ) == org_members(conns, preserve, db, dist@[j].org).len() by {
            if j != k {
                assert(dist@[j] == d0[j]);
                if j < k {
                    assert(d0[j].org != org);
                } else {
                    assert(d0[k as int].org != d0[j].org);
                }
            }
        };
        assert forall|org2: u32|
            (forall|j: int| 0 <= j < dist@.len() ==> (#[trigger] dist@[j]).org != org2)
                implies #[trigger] pruned_for_org(ret@, db, org2) == 0 by {
            assert(dist@[k as int].org == org);
            assert(org2 != org);
            assert(forall|j: int| 0 <= j < d0.len() ==> (#[trigger] d0[j]).org != org2) by {
                assert(forall|j: int|
                    0 <= j < d0.len() && j != k ==> d0[j] == dist@[j]);
            };
        };
        assert(!r0.contains(mm.0)) by {
            assert(0 <= 0 < d0[k as int].members@.len());
        };
        assert forall|a: int, b2: int| 0 <= a < b2 < ret@.len() implies (#[trigger] ret@[a]) != (
        #[trigger] ret@[b2]) by {
            if b2 == ret@.len() - 1 {
                assert(ret@[a] == r0[a]);
                assert(r0.contains(r0[a]));
                if r0[a] == mm.0 {
                    assert(r0.contains(mm.0));
                }
            }
        };
        assert(outbound_sound(conns, preserve, ret@)) by {
            assert forall|idx: int|
                #![trigger ret@[idx]]
                0 <= idx < ret@.len() implies exists|ci3: int|
                0 <= ci3 < conns.len() && (#[trigger] conns[ci3]).key == ret@[idx]
                    && conns[ci3].stats.outbound && !preserve.contains(conns[ci3].event_id) by {
                if idx < r0.len() {
                    assert(ret@[idx] == r0[idx]);
                } else {
                    assert(ret@[idx] == mm.0);
                    assert(conns[ci].key == mm.0 && conns[ci].stats.outbound
                        && !preserve.contains(conns[ci].event_id));
                }
            };
        };
        assert forall|j: int, x: int|
            0 <= j < dist@.len() && 0 <= x < dist@[j].members@.len() implies !ret@.contains(
            (#[trigger] dist@[j].members@[x]).0,
        ) by {
            let m = dist@[j].members@[x];
            if j == k {
                assert(m == d0[k as int].members@[x + 1]);
                assert(!r0.contains(m.0));
                assert(distinct_info_keys(d0[k as int].members@));
                assert(m.0 != mm.0);
            } else {
                assert(dist@[j] == d0[j]);
                assert(!r0.contains(m.0));
                assert(m.0 != mm.0);
            }
            if ret@.contains(m.0) {
                let y = choose|y: int| 0 <= y < ret@.len() && ret@[y] == m.0;
                if y < r0.len() {
                    assert(r0[y] == m.0);
                    assert(r0.contains(m.0));
                }
            }
        };

        // membership in the grown result list
        assert forall|x: NeighborKey| ret@.contains(x) implies (r0.contains(x) || x == mm.0) by {
            let y = choose|y: int| 0 <= y < ret@.len() && ret@[y] == x;
            if y < r0.len() {
                assert(r0[y] == x);
            }
        };
        assert forall|x: NeighborKey| r0.contains(x) implies ret@.contains(x) by {
            let y = choose|y: int| 0 <= y < r0.len() && r0[y] == x;
            assert(ret@[y] == x);
        };

        assert(all_resolved(db, ret@)) by {
            assert forall|idx: int| #![trigger ret@[idx]] 0 <= idx < ret@.len() implies db.org_of(
                ret@[idx],
            ) is Some by {
                if idx < r0.len() {
                    assert(ret@[idx] == r0[idx]);
                } else {
                    assert(ret@[idx] == mm.0);
                }
            };
        };

        // the trimmed bucket stays sorted
        assert forall|j: int| 0 <= j < dist@.len() implies sorted_by_evict_rank(
            now,
            (#[trigger] dist@[j]).members@,
        ) by {
            if j == k {
                assert(forall|x: int|
                    0 <= x < dist@[j].members@.len() ==> dist@[j].members@[x] == d0[
                        k as int
                    ].members@[x + 1]);
            }
        };

        // each bucket still holds exactly its organization's unpruned members
        assert forall|j: int, m: NeighborInfo|
            0 <= j < dist@.len() && #[trigger] org_members(conns, preserve, db, dist@[j].org).contains(
                m,
            ) implies (dist@[j].members@.contains(m) <==> !ret@.contains(m.0)) by {
            if j == k {
                lemma_org_members_distinct(conns, preserve, db, org);
                if m == mm {
                    assert(!dist@[k as int].members@.contains(mm)) by {
                        if dist@[k as int].members@.contains(mm) {
                            let x = choose|x: int|
                                0 <= x < dist@[k as int].members@.len() && dist@[
                                    k as int
                                ].members@[x] == mm;
                            assert(d0[k as int].members@[x + 1] == mm);
                            assert(d0[k as int].members@[0].0 != d0[k as int].members@[x + 1].0);
                        }
                    };
                    assert(ret@.contains(mm.0));
                } else {
                    assert(m.0 != mm.0) by {
                        if m.0 == mm.0 {
                            let om = org_members(conns, preserve, db, org);
                            let a1 = choose|a1: int| 0 <= a1 < om.len() && om[a1] == m;
                            let a2 = choose|a2: int| 0 <= a2 < om.len() && om[a2] == mm;
                            assert(distinct_info_keys(om));
                            if a1 != a2 {
                                assert(om[a1].0 != om[a2].0);
                            }
                        }
                    };
                    assert(dist@[k as int].members@.contains(m) <==> d0[
                        k as int
                    ].members@.contains(m)) by {
                        if d0[k as int].members@.contains(m) {
                            let x = choose|x: int|
                                0 <= x < d0[k as int].members@.len() && d0[k as int].members@[x]
                                    == m;
                            if x == 0 {
                                assert(m == mm);
                                assert(false);
                            } else {
                                assert(dist@[k as int].members@[x - 1] == m);
                            }
                        }
                        if dist@[k as int].members@.contains(m) {
                            let x = choose|x: int|
                                0 <= x < dist@[k as int].members@.len() && dist@[
                                    k as int
                                ].members@[x] == m;
                            assert(d0[k as int].members@[x + 1] == m);
                        }
                    };
                }
            } else {
                assert(dist@[j] == d0[j]);
                assert(m.0 != mm.0) by {
                    lemma_org_members_elem(conns, preserve, db, d0[j].org, m);
                    let cim = choose|cim: int|
                        0 <= cim < conns.len() && (#[trigger] conns[cim]).key == m.0
                            && conns[cim].stats == m.1 && crate::distribution::is_org_member(
                            conns[cim],
                            preserve,
                            db,
                            d0[j].org,
                        );
                    if j < k {
                        assert(d0[j].org != org);
                    } else {
                        assert(d0[k as int].org != d0[j].org);
                    }
                };
            }
        };

        // evicted candidates never outrank kept ones within an organization
        assert forall|ci2: int, cj2: int|
            0 <= ci2 < conns.len() && 0 <= cj2 < conns.len() && (#[trigger] conns[ci2]).stats.outbound
                && !preserve.contains(conns[ci2].event_id) && (#[trigger] conns[cj2]).stats.outbound
                && !preserve.contains(conns[cj2].event_id) && db.org_of(conns[ci2].key)
                == db.org_of(conns[cj2].key) && db.org_of(conns[ci2].key) is Some && ret@.contains(
                conns[ci2].key,
            ) && !ret@.contains(conns[cj2].key) implies evict_rank(now, conns[ci2].stats)
            <= evict_rank(now, conns[cj2].stats) by {
            if conns[ci2].key == mm.0 {
                assert(db.org_of(conns[ci2].key) == Option::Some(org));
                assert(crate::distribution::is_org_member(conns[ci2], preserve, db, org));
                assert(crate::distribution::is_org_member(conns[cj2], preserve, db, org));
                lemma_org_members_complete(conns, preserve, db, org, ci2);
                lemma_org_members_complete(conns, preserve, db, org, cj2);
                lemma_org_members_distinct(conns, preserve, db, org);
                let om = org_members(conns, preserve, db, org);
                let entry_ci = (conns[ci2].key, conns[ci2].stats);
                let entry_cj = (conns[cj2].key, conns[cj2].stats);
                assert(entry_ci == mm) by {
                    if entry_ci != mm {
                        let a1 = choose|a1: int| 0 <= a1 < om.len() && om[a1] == entry_ci;
                        let a2 = choose|a2: int| 0 <= a2 < om.len() && om[a2] == mm;
                        if a1 != a2 {
                            assert(om[a1].0 != om[a2].0);
                        }
                    }
                };
                assert(!r0.contains(entry_cj.0));
                assert(d0[k as int].org == org);
                assert(d0[k as int].members@.contains(entry_cj));
                let x = choose|x: int|
                    0 <= x < d0[k as int].members@.len() && d0[k as int].members@[x] == entry_cj;
                assert(x != 0) by {
                    if x == 0 {
                        assert(entry_cj == mm);
                    }
                };
                assert(evict_rank(now, d0[k as int].members@[0].1) <= evict_rank(
                    now,
                    d0[k as int].members@[x].1,
                ));
            } else {
                assert(r0.contains(conns[ci2].key));
                assert(!r0.contains(conns[cj2].key));
            }
        };
    }
}

/// Finds the bucket of an organization known to be present.
fn find_bucket(dist: &Vec<OrgBucket>, org: u32) -> (r: usize)
    requires
        exists|j: int| 0 <= j < dist@.len() && (#[trigger] dist@[j]).org == org,
    ensures
        r < dist@.len(),
        dist@[r as int].org == org,
{
    let mut i: usize = 0;
    while i < dist.len()
        invariant
            i <= dist.len(),
            exists|j: int| 0 <= j < dist@.len() && (#[trigger] dist@[j]).org == org,
            forall|j: int| 0 <= j < i ==> (#[trigger] dist@[j]).org != org,
        decreases dist.len() - i,
    {
        if dist[i].org == org {
            return i;
        }
        i = i + 1;
    }
    proof {
        let j = choose|j: int| 0 <= j < dist@.len() && (#[trigger] dist@[j]).org == org;
        assert(false);
    }
    0
}

impl PeerNetwork {
    /// Relieves outbound over-subscription while keeping organization
    /// diversity. Below the outbound soft limit nothing is pruned. Otherwise
    /// every organization is first hard-trimmed, worst-ranked members first,
    /// down to the per-organization cap (stopping early once the global
    /// target is met), and the remaining burden is then shared by sampling
    /// organizations proportionally to how many members they still hold. The
    /// result holds distinct keys of outbound non-preserved connections,
    /// each resolved by the peer database; it never prunes below the target;
    /// at the end either the target is met or every organization's
    /// candidates are exhausted; every organization is left within its cap
    /// unless the target was met first; and whenever the summed
    /// per-organization excess fits within the needed reduction, the hard
    /// trim completes and every organization ends within its cap
    /// unconditionally. A faulted peer database aborts the path with an
    /// error exactly when pruning work and a lookup were due.
    #[verifier::rlimit(100)]
    pub fn prune_frontier_outbound_orgs(
        &self,
        local_peer: &LocalPeer,
        preserve: &Vec<u64>,
        now: u64,
    ) -> (r: Result<Vec<NeighborKey>, NetError>)
        requires
            self.wf(),
        ensures
            !self.peerdb.faulted ==> r is Ok,
            r matches Err(e) ==> (self.peerdb.faulted && e == NetError::DbError
                && count_outbound_spec(self.conns@) > self.soft_num_neighbors),
            (self.peerdb.faulted && count_outbound_spec(self.conns@) > self.soft_num_neighbors
                && exists|ci: int|
                0 <= ci < self.conns@.len() && (#[trigger] self.conns@[ci]).stats.outbound
                    && !preserve@.contains(self.conns@[ci].event_id)) ==> r is Err,
            r matches Ok(ret) ==> {
                &&& distinct_keys(ret@)
                &&& outbound_sound(self.conns@, preserve@, ret@)
                &&& worst_first(now, self.conns@, preserve@, self.peerdb, ret@)
                &&& all_resolved(self.peerdb, ret@)
                &&& (count_outbound_spec(self.conns@) <= self.soft_num_neighbors ==> ret@
                    == Seq::<NeighborKey>::empty())
                &&& (count_outbound_spec(self.conns@) > self.soft_num_neighbors ==> {
                    &&& ret@.len() <= count_outbound_spec(self.conns@) - self.soft_num_neighbors
                    &&& (total_org_excess(
                        self.conns@,
                        preserve@,
                        self.peerdb,
                        self.soft_max_neighbors_per_org,
                        orgs_in(self.conns@, preserve@, self.peerdb),
                    ) <= count_outbound_spec(self.conns@) - self.soft_num_neighbors
                        ==> forall|org: u32|
                        #![trigger org_members(self.conns@, preserve@, self.peerdb, org)]
                        org_members(self.conns@, preserve@, self.peerdb, org).len()
                            - pruned_for_org(ret@, self.peerdb, org)
                            <= self.soft_max_neighbors_per_org)
                    &&& (ret@.len() == count_outbound_spec(self.conns@)
                        - self.soft_num_neighbors || forall|org: u32|
                        #![trigger org_members(self.conns@, preserve@, self.peerdb, org)]
                        org_members(self.conns@, preserve@, self.peerdb, org).len()
                            == pruned_for_org(ret@, self.peerdb, org))
                    &&& forall|org: u32|
                        #![trigger org_members(self.conns@, preserve@, self.peerdb, org)]
                        (org_members(self.conns@, preserve@, self.peerdb, org).len()
                            - pruned_for_org(ret@, self.peerdb, org)
                            <= self.soft_max_neighbors_per_org || ret@.len()
                            == count_outbound_spec(self.conns@) - self.soft_num_neighbors)
                })
            },
    {
        let ghost conns = self.conns@;
        let ghost pres = preserve@;
        let ghost db = self.peerdb;
        proof {
            lemma_count_outbound_bounds(conns);
        }
        let num_outbound = Self::count_outbound_conversations(&self.conns);
        if num_outbound <= self.soft_num_neighbors {
            return Ok(Vec::new());
        }
        let ghost needed = num_outbound as int - self.soft_num_neighbors as int;
        let cap = self.soft_max_neighbors_per_org;

        let raw = match self.org_neighbor_distribution(preserve) {
            Err(e) => {
                return Err(e);
            },
            Ok(d) => d,
        };

        // sort each organization's members, worst-to-keep first
        let mut dist: Vec<OrgBucket> = Vec::new();
        let mut t: usize = 0;
        while t < raw.len()
            invariant
                t <= raw.len(),
                dist@.len() == t,
                crate::network::conn_keys_unique(conns),
                crate::distribution::org_dist_ok(conns, pres, db, raw@),
                forall|j: int| 0 <= j < t ==> (#[trigger] dist@[j]).org == raw@[j].org,
                forall|j: int|
                    0 <= j < t ==> (#[trigger] dist@[j]).members@.to_multiset() == raw@[
                        j
                    ].members@.to_multiset(),
                forall|j: int|
                    0 <= j < t ==> (#[trigger] dist@[j]).members@.len() == raw@[j].members@.len(),
                forall|j: int|
                    0 <= j < t ==> distinct_info_keys((#[trigger] dist@[j]).members@),
                forall|j: int|
                    0 <= j < t ==> sorted_by_evict_rank(now, (#[trigger] dist@[j]).members@),
            decreases raw.len() - t,
        {
            proof {
                lemma_org_members_distinct(conns, pres, db, raw@[t as int].org);
            }
            let sorted = sort_neighbor_infos(now, &raw[t].members);
            dist.push(OrgBucket { org: raw[t].org, members: sorted });
            t = t + 1;
        }

        let mut ret: Vec<NeighborKey> = Vec::new();
        let ghost orgseq = Seq::new(dist@.len(), |j: int| dist@[j].org);
        let ghost hyp = total_org_excess(conns, pres, db, cap, orgseq) <= needed;
        proof {
            assert(orgseq =~= orgs_in(conns, pres, db));
            assert(orgseq.take(0) =~= Seq::<u32>::empty());
            assert(total_org_excess(conns, pres, db, cap, Seq::<u32>::empty()) == 0);
            assert forall|o: u32| #[trigger] pruned_for_org(ret@, db, o) == 0 by {};
            assert forall|j: int, m: NeighborInfo|
                0 <= j < dist@.len() && #[trigger] dist@[j].members@.contains(m) implies
            org_members(conns, pres, db, dist@[j].org).contains(m) by {
                vstd::seq_lib::to_multiset_contains(dist@[j].members@, m);
                vstd::seq_lib::to_multiset_contains(raw@[j].members@, m);
            };
            assert(bucket_state_ok(conns, pres, db, dist@, ret@));
            assert(buckets_sorted(now, dist@));
            assert forall|j: int, m: NeighborInfo|
                0 <= j < dist@.len() && #[trigger] org_members(conns, pres, db, dist@[j].org).contains(
                    m,
                ) implies (dist@[j].members@.contains(m) <==> !ret@.contains(m.0)) by {
                vstd::seq_lib::to_multiset_contains(dist@[j].members@, m);
                vstd::seq_lib::to_multiset_contains(raw@[j].members@, m);
            };
            assert(members_retained(conns, pres, db, dist@, ret@));
            assert(worst_first(now, conns, pres, db, ret@));
            assert(all_resolved(db, ret@));
            assert forall|org: u32|
                org_members(conns, pres, db, org).len() > 0 implies exists|j: int|
                0 <= j < orgseq.len() && orgseq[j] == org by {
                let j = choose|j: int| 0 <= j < raw@.len() && (#[trigger] raw@[j]).org == org;
                assert(orgseq[j] == org);
            };
        }

        // hard-trim phase: no organization keeps more than the per-org cap,
        // unless the global target is reached first
        let mut k: usize = 0;
        while k < dist.len()
            invariant
                k <= dist.len(),
                conn_keys_unique(conns),
                bucket_state_ok(conns, pres, db, dist@, ret@),
                buckets_sorted(now, dist@),
                members_retained(conns, pres, db, dist@, ret@),
                worst_first(now, conns, pres, db, ret@),
                all_resolved(db, ret@),
                dist@.len() == orgseq.len(),
                forall|j: int| 0 <= j < dist@.len() ==> (#[trigger] dist@[j]).org == orgseq[j],
                ret@.len() <= needed,
                needed == num_outbound as int - self.soft_num_neighbors as int,
                num_outbound == count_outbound_spec(conns),
                cap == self.soft_max_neighbors_per_org,
                forall|j: int|
                    0 <= j < k ==> ((#[trigger] dist@[j]).members@.len() <= cap || ret@.len()
                        == needed),
                forall|j: int|
                    k <= j < orgseq.len() ==> #[trigger] pruned_for_org(ret@, db, orgseq[j]) == 0,
                hyp == (total_org_excess(conns, pres, db, cap, orgseq) <= needed),
                hyp ==> ret@.len() == total_org_excess(conns, pres, db, cap, orgseq.take(k as int)),
                hyp ==> forall|j: int|
                    0 <= j < k ==> (#[trigger] dist@[j]).members@.len() <= cap,
            decreases dist.len() - k,
        {
            proof {
                assert(pruned_for_org(ret@, db, orgseq[k as int]) == 0);
                assert(dist@[k as int].members@.len() == org_members(
                    conns,
                    pres,
                    db,
                    orgseq[k as int],
                ).len());
            }
            while dist[k].members.len() as u64 > cap && num_outbound - (ret.len() as u64)
                > self.soft_num_neighbors
                invariant
                    k < dist@.len(),
                    conn_keys_unique(conns),
                    bucket_state_ok(conns, pres, db, dist@, ret@),
                    buckets_sorted(now, dist@),
                    members_retained(conns, pres, db, dist@, ret@),
                    worst_first(now, conns, pres, db, ret@),
                    all_resolved(db, ret@),
                    dist@.len() == orgseq.len(),
                    forall|j: int| 0 <= j < dist@.len() ==> (#[trigger] dist@[j]).org == orgseq[j],
                    ret@.len() <= needed,
                    needed == num_outbound as int - self.soft_num_neighbors as int,
                    num_outbound == count_outbound_spec(conns),
                    cap == self.soft_max_neighbors_per_org,
                    forall|j: int|
                        0 <= j < k ==> ((#[trigger] dist@[j]).members@.len() <= cap || ret@.len()
                            == needed),
                    forall|j: int|
                        k + 1 <= j < orgseq.len() ==> #[trigger] pruned_for_org(
                            ret@,
                            db,
                            orgseq[j],
                        ) == 0,
                    hyp == (total_org_excess(conns, pres, db, cap, orgseq) <= needed),
                    hyp ==> ret@.len() == total_org_excess(conns, pres, db, cap, orgseq.take(k as int))
                        + (org_members(conns, pres, db, orgseq[k as int]).len() - dist@[
                            k as int
                        ].members@.len()),
                    hyp ==> forall|j: int|
                        0 <= j < k ==> (#[trigger] dist@[j]).members@.len() <= cap,
                    dist@[k as int].members@.len() >= cap || dist@[k as int].members@.len()
                        == org_members(conns, pres, db, orgseq[k as int]).len(),
                decreases dist@[k as int].members@.len(),
            {
                let ghost dprev = dist@;
                let ghost rprev = ret@;
                evict_front(&mut dist, &mut ret, k, Ghost(now), Ghost(conns), Ghost(pres), Ghost(db));
                proof {
                    assert forall|j: int|
                        k + 1 <= j < orgseq.len() implies #[trigger] pruned_for_org(
                        ret@,
                        db,
                        orgseq[j],
                    ) == 0 by {
                        assert(dist@[j] == dprev[j]);
                        assert(dprev[j].org == orgseq[j]);
                        assert(pruned_for_org(rprev, db, orgseq[j]) == 0);
                        assert(dprev[j].members@.len() + pruned_for_org(rprev, db, dprev[j].org)
                            == org_members(conns, pres, db, dprev[j].org).len());
                        assert(dist@[j].members@.len() + pruned_for_org(ret@, db, dist@[j].org)
                            == org_members(conns, pres, db, dist@[j].org).len());
                    };
                }
            }
            proof {
                lemma_pruned_nonneg(ret@, db, orgseq[k as int]);
                if hyp {
                    let popped = org_members(conns, pres, db, orgseq[k as int]).len() - dist@[
                        k as int
                    ].members@.len();
                    lemma_total_excess_prefix(conns, pres, db, cap, orgseq, k + 1);
                    assert(orgseq.take(k as int + 1).drop_last() =~= orgseq.take(k as int));
                    assert(orgseq.take(k as int + 1).last() == orgseq[k as int]);
                    assert(total_org_excess(conns, pres, db, cap, orgseq.take(k as int + 1))
                        == total_org_excess(conns, pres, db, cap, orgseq.take(k as int))
                        + org_excess(conns, pres, db, cap, orgseq[k as int]));
                    if dist@[k as int].members@.len() > cap {
                        assert(ret@.len() == needed);
                        assert(popped < org_excess(conns, pres, db, cap, orgseq[k as int]));
                        assert(ret@.len() < total_org_excess(
                            conns,
                            pres,
                            db,
                            cap,
                            orgseq.take(k as int + 1),
                        ));
                        assert(false);
                    }
                    assert(popped == org_excess(conns, pres, db, cap, orgseq[k as int]));
                    assert(ret@.len() == total_org_excess(
                        conns,
                        pres,
                        db,
                        cap,
                        orgseq.take(k as int + 1),
                    ));
                }
            }
            k = k + 1;
        }

        // proportional-sampling phase: spread the remaining burden across
        // organizations, weighted by how many members each still holds
        let ghost gd_snapshot = dist@;
        proof {
            if ret@.len() != needed {
                assert(forall|j: int|
                    0 <= j < dist@.len() ==> (#[trigger] dist@[j]).members@.len() <= cap);
            }
        }
        let mut exhausted = false;
        while !exhausted && num_outbound - (ret.len() as u64) > self.soft_num_neighbors
            invariant
                conn_keys_unique(conns),
                bucket_state_ok(conns, pres, db, dist@, ret@),
                buckets_sorted(now, dist@),
                members_retained(conns, pres, db, dist@, ret@),
                worst_first(now, conns, pres, db, ret@),
                all_resolved(db, ret@),
                dist@.len() == orgseq.len(),
                forall|j: int| 0 <= j < dist@.len() ==> (#[trigger] dist@[j]).org == orgseq[j],
                ret@.len() <= needed,
                needed == num_outbound as int - self.soft_num_neighbors as int,
                num_outbound == count_outbound_spec(conns),
                cap == self.soft_max_neighbors_per_org,
                (forall|j: int|
                    0 <= j < dist@.len() ==> (#[trigger] dist@[j]).members@.len() <= cap)
                    || ret@.len() == needed,
                hyp == (total_org_excess(conns, pres, db, cap, orgseq) <= needed),
                hyp ==> forall|j: int|
                    0 <= j < dist@.len() ==> (#[trigger] dist@[j]).members@.len() <= cap,
                exhausted ==> forall|j: int|
                    0 <= j < dist@.len() ==> (#[trigger] dist@[j]).members@.len() == 0,
            decreases 2 * (needed - ret@.len()) + (if exhausted {
                0int
            } else {
                1int
            }),
        {
            let mut weights: Vec<(u32, u64)> = Vec::new();
            let mut q: usize = 0;
            while q < dist.len()
                invariant
                    q <= dist.len(),
                    forall|t2: int|
                        0 <= t2 < weights@.len() ==> (#[trigger] weights@[t2]).1 > 0 && exists|
                            j: int,
                        |
                            0 <= j < dist@.len() && (#[trigger] dist@[j]).org == weights@[t2].0
                                && dist@[j].members@.len() == weights@[t2].1,
                    forall|j: int|
                        0 <= j < q ==> ((#[trigger] dist@[j]).members@.len() == 0 || exists|
                            t2: int,
                        | 0 <= t2 < weights@.len() && (#[trigger] weights@[t2]).0 == dist@[j].org),
                decreases dist.len() - q,
            {
                let blen = dist[q].members.len();
                if blen > 0 {
                    let ghost wprev = weights@;
                    weights.push((dist[q].org, blen as u64));
                    proof {
                        assert(weights@[weights@.len() - 1] == (
                            dist@[q as int].org,
                            blen as u64,
                        ));
                        assert(forall|t2: int|
                            0 <= t2 < wprev.len() ==> weights@[t2] == wprev[t2]);
                    }
                }
                q = q + 1;
            }
            if weights.len() == 0 {
                exhausted = true;
                proof {
                    assert forall|j: int|
                        0 <= j < dist@.len() implies (#[trigger] dist@[j]).members@.len() == 0 by {
                        if dist@[j].members@.len() > 0 {
                            let t2 = choose|t2: int|
                                0 <= t2 < weights@.len() && (#[trigger] weights@[t2]).0 == dist@[
                                    j
                                ].org;
                        }
                    };
                }
            } else {
                proof {
                    assert(weight_total(weights@) > 0) by {
                        assert(weight_total(weights@) == weights@[0].1 + weight_total(
                            weights@.drop_first(),
                        ));
                        lemma_weight_total_nonneg(weights@.drop_first());
                    };
                }
                let prune_org = sample_org_by_neighbor_count(&weights);
                proof {
                    let t2 = choose|t2: int|
                        0 <= t2 < weights@.len() && weights@[t2].0 == prune_org && (
                        #[trigger] weights@[t2]).1 > 0;
                    let j = choose|j: int|
                        0 <= j < dist@.len() && (#[trigger] dist@[j]).org == weights@[t2].0
                            && dist@[j].members@.len() == weights@[t2].1;
                    assert(dist@[j].members@.len() > 0);
                }
                let idx = find_bucket(&dist, prune_org);
                proof {
                    let j = choose|j: int|
                        0 <= j < dist@.len() && (#[trigger] dist@[j]).org == prune_org && dist@[
                            j
                        ].members@.len() > 0;
                    if j != idx {
                        assert(dist@[j].org != dist@[idx as int].org);
                    }
                    assert(dist@[idx as int].members@.len() > 0);
                }
                evict_front(&mut dist, &mut ret, idx, Ghost(now), Ghost(conns), Ghost(pres), Ghost(db));
            }
        }

        // at exit the target is met or every candidate pool is drained
        proof {
            if ret@.len() < needed {
                assert(exhausted);
                assert forall|org: u32|
                    #![trigger org_members(conns, pres, db, org)]
                    org_members(conns, pres, db, org).len() == pruned_for_org(ret@, db, org) by {
                    if org_members(conns, pres, db, org).len() > 0 {
                        let j = choose|j: int| 0 <= j < orgseq.len() && orgseq[j] == org;
                        assert(dist@[j].org == org);
                        assert(dist@[j].members@.len() == 0);
                    } else {
                        lemma_pruned_nonneg(ret@, db, org);
                        if pruned_for_org(ret@, db, org) != 0 {
                            assert(forall|j: int|
                                0 <= j < dist@.len() ==> (#[trigger] dist@[j]).org != org) by {
                                assert forall|j: int|
                                    0 <= j < dist@.len() implies (#[trigger] dist@[j]).org
                                    != org by {
                                    if dist@[j].org == org {
                                        lemma_pruned_nonneg(ret@, db, org);
                                        assert(dist@[j].members@.len() + pruned_for_org(
                                            ret@,
                                            db,
                                            org,
                                        ) == 0);
                                    }
                                };
                            };
                        }
                    }
                };
            }
            if hyp {
                assert forall|org: u32|
                    #![trigger org_members(conns, pres, db, org)]
                    org_members(conns, pres, db, org).len() - pruned_for_org(ret@, db, org)
                        <= cap by {
                    if org_members(conns, pres, db, org).len() > 0 {
                        let j = choose|j: int| 0 <= j < orgseq.len() && orgseq[j] == org;
                        assert(dist@[j].org == org);
                        assert(dist@[j].members@.len() <= cap);
                    } else {
                        lemma_pruned_nonneg(ret@, db, org);
                    }
                };
            }
            assert forall|org: u32|
                #![trigger org_members(conns, pres, db, org)]
                (org_members(conns, pres, db, org).len() - pruned_for_org(ret@, db, org) <= cap
                    || ret@.len() == needed) by {
                if ret@.len() != needed {
                    if org_members(conns, pres, db, org).len() > 0 {
                        let j = choose|j: int| 0 <= j < orgseq.len() && orgseq[j] == org;
                        assert(dist@[j].org == org);
                        assert(dist@[j].members@.len() <= cap);
                    } else {
                        lemma_pruned_nonneg(ret@, db, org);
                    }
                }
            };
        }
        Ok(ret)
    }
}

} // verus!
