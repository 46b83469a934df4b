use vstd::prelude::*;
use crate::network::{conn_keys_unique, preserve_contains, PeerNetwork};
use crate::peerdb::PeerDb;
use crate::sorts::{distinct_info_keys, NeighborInfo};
use crate::types::{ConnEntry, NetError};

verus! {

/// The outbound neighbors an organization currently owns, worst-to-keep
/// first once sorted.
pub struct OrgBucket {
    pub org: u32,
    pub members: Vec<NeighborInfo>,
}

/// A connection counted toward an organization: outbound, not preserved, and
/// resolved to that organization by the peer database.
pub open spec fn is_org_member(c: ConnEntry, preserve: Seq<u64>, db: PeerDb, org: u32) -> bool {
    c.stats.outbound && !preserve.contains(c.event_id) && db.org_of(c.key) == Option::Some(org)
}

/// The neighbors an organization owns, in table order.
pub open spec fn org_members(
    conns: Seq<ConnEntry>,
    preserve: Seq<u64>,
    db: PeerDb,
    org: u32,
) -> Seq<NeighborInfo>
    decreases conns.len(),
{
    if conns.len() == 0 {
        Seq::empty()
    } else {
        org_members(conns.drop_last(), preserve, db, org) + (if is_org_member(
            conns.last(),
            preserve,
            db,
            org,
        ) {
            seq![(conns.last().key, conns.last().stats)]
        } else {
            Seq::<NeighborInfo>::empty()
        })
    }
}

/// The organizations owning at least one member, in order of first
/// appearance in the table.
pub open spec fn orgs_in(conns: Seq<ConnEntry>, preserve: Seq<u64>, db: PeerDb) -> Seq<u32>
    decreases conns.len(),
{
    if conns.len() == 0 {
        Seq::empty()
    } else {
        let rest = orgs_in(conns.drop_last(), preserve, db);
        if conns.last().stats.outbound && !preserve.contains(conns.last().event_id)
            && db.org_of(conns.last().key) is Some && !rest.contains(
            db.org_of(conns.last().key).unwrap(),
        ) {
            rest.push(db.org_of(conns.last().key).unwrap())
        } else {
            rest
        }
    }
}

/// Every member of an organization bucket is backed by a live connection.
pub proof fn lemma_org_members_elem(
    conns: Seq<ConnEntry>,
    preserve: Seq<u64>,
    db: PeerDb,
    org: u32,
    m: NeighborInfo,
)
    requires
        org_members(conns, preserve, db, org).contains(m),
    ensures
        exists|ci: int|
            0 <= ci < conns.len() && (#[trigger] conns[ci]).key == m.0 && conns[ci].stats == m.1
                && is_org_member(conns[ci], preserve, db, org),
    decreases conns.len(),
{
    if conns.len() == 0 {
    } else {
        let prefix = org_members(conns.drop_last(), preserve, db, org);
        if is_org_member(conns.last(), preserve, db, org) && m == (
        conns.last().key,
        conns.last().stats,
        ) {
            assert(conns[conns.len() - 1] == conns.last());
        } else {
            let full = org_members(conns, preserve, db, org);
            let j = choose|j: int| 0 <= j < full.len() && full[j] == m;
            assert(prefix.contains(m)) by {
                assert(j < prefix.len());
                assert(prefix[j] == m);
            };
            lemma_org_members_elem(conns.drop_last(), preserve, db, org, m);
            let ci = choose|ci: int|
                0 <= ci < conns.drop_last().len() && (#[trigger] conns.drop_last()[ci]).key == m.0
                    && conns.drop_last()[ci].stats == m.1 && is_org_member(
                    conns.drop_last()[ci],
                    preserve,
                    db,
                    org,
                );
            assert(conns[ci] == conns.drop_last()[ci]);
        }
    }
}

/// Every outbound, non-preserved connection the database assigns to an
/// organization appears among that organization's members.
pub proof fn lemma_org_members_complete(
    conns: Seq<ConnEntry>,
    preserve: Seq<u64>,
    db: PeerDb,
    org: u32,
    ci: int,
)
    requires
        0 <= ci < conns.len(),
        is_org_member(conns[ci], preserve, db, org),
    ensures
        org_members(conns, preserve, db, org).contains((conns[ci].key, conns[ci].stats)),
    decreases conns.len(),
{
    let prefix = org_members(conns.drop_last(), preserve, db, org);
    let full = org_members(conns, preserve, db, org);
    if ci == conns.len() - 1 {
        assert(conns.last() == conns[ci]);
        assert(full[prefix.len() as int] == (conns[ci].key, conns[ci].stats));
    } else {
        assert(conns.drop_last()[ci] == conns[ci]);
        lemma_org_members_complete(conns.drop_last(), preserve, db, org, ci);
        let x = choose|x: int|
            0 <= x < prefix.len() && prefix[x] == (conns[ci].key, conns[ci].stats);
        assert(full[x] == prefix[x]);
    }
}

/// Removing one connection shrinks an organization's membership by one
/// exactly when that connection counted toward the organization.
pub proof fn lemma_org_members_remove(
    conns: Seq<ConnEntry>,
    preserve: Seq<u64>,
    db: PeerDb,
    org: u32,
    i: int,
)
    requires
        0 <= i < conns.len(),
    ensures
        org_members(conns.remove(i), preserve, db, org).len() == org_members(
            conns,
            preserve,
            db,
            org,
        ).len() - (if is_org_member(conns[i], preserve, db, org) {
            1int
        } else {
            0int
        }),
    decreases conns.len(),
{
    if i == conns.len() - 1 {
        assert(conns.remove(i) =~= conns.drop_last());
    } else {
        assert(conns.remove(i).drop_last() =~= conns.drop_last().remove(i));
        assert(conns.remove(i).last() == conns.last());
        assert(conns.drop_last()[i] == conns[i]);
        lemma_org_members_remove(conns.drop_last(), preserve, db, org, i);
    }
}

/// With unique connection keys, an organization's members carry pairwise
/// distinct keys.
pub proof fn lemma_org_members_distinct(
    conns: Seq<ConnEntry>,
    preserve: Seq<u64>,
    db: PeerDb,
    org: u32,
)
    requires
        conn_keys_unique(conns),
    ensures
        distinct_info_keys(org_members(conns, preserve, db, org)),
    decreases conns.len(),
{
    if conns.len() == 0 {
    } else {
        assert(conn_keys_unique(conns.drop_last())) by {
            assert(forall|k: int|
                0 <= k < conns.drop_last().len() ==> conns.drop_last()[k] == conns[k]);
        };
        lemma_org_members_distinct(conns.drop_last(), preserve, db, org);
        let prefix = org_members(conns.drop_last(), preserve, db, org);
        let full = org_members(conns, preserve, db, org);
        if is_org_member(conns.last(), preserve, db, org) {
            assert forall|a: int| 0 <= a < prefix.len() implies prefix[a].0 != conns.last().key by {
                assert(prefix.contains(prefix[a]));
                lemma_org_members_elem(conns.drop_last(), preserve, db, org, prefix[a]);
                let ci = choose|ci: int|
                    0 <= ci < conns.drop_last().len() && (#[trigger] conns.drop_last()[ci]).key
                        == prefix[a].0 && conns.drop_last()[ci].stats == prefix[a].1
                        && is_org_member(conns.drop_last()[ci], preserve, db, org);
                assert(conns[ci] == conns.drop_last()[ci]);
                assert(conns[ci].key != conns[conns.len() - 1].key);
            };
            assert(forall|a: int| 0 <= a < prefix.len() ==> full[a] == prefix[a]);
        }
    }
}

/// What a successful classification returns: buckets with pairwise distinct
/// organization ids, each holding exactly that organization's members, with
/// no empty bucket, and a bucket for every organization that owns a member.
pub open spec fn org_dist_ok(
    conns: Seq<ConnEntry>,
    preserve: Seq<u64>,
    db: PeerDb,
    dist: Seq<OrgBucket>,
) -> bool {
    &&& forall|a: int, b: int|
        0 <= a < b < dist.len() ==> (#[trigger] dist[a]).org != (#[trigger] dist[b]).org
    &&& forall|j: int|
        0 <= j < dist.len() ==> (#[trigger] dist[j]).members@ == org_members(
            conns,
            preserve,
            db,
            dist[j].org,
        )
    &&& forall|j: int| 0 <= j < dist.len() ==> (#[trigger] dist[j]).members@.len() > 0
    &&& forall|org: u32|
        org_members(conns, preserve, db, org).len() > 0 ==> exists|j: int|
            0 <= j < dist.len() && (#[trigger] dist[j]).org == org
    &&& dist.len() == orgs_in(conns, preserve, db).len()
    &&& forall|j: int| 0 <= j < dist.len() ==> (#[trigger] dist[j]).org == orgs_in(conns, preserve, db)[j]
}

/// Decides membership of an organization id in a list.
fn org_list_contains(orgs: &Vec<u32>, o: u32) -> (r: bool)
    ensures
        r == orgs@.contains(o),
{
    let mut i: usize = 0;
    while i < orgs.len()
        invariant
            i <= orgs.len(),
            forall|j: int| 0 <= j < i ==> orgs@[j] != o,
        decreases orgs.len() - i,
    {
        if orgs[i] == o {
            return true;
        }
        i = i + 1;
    }
    false
}

impl PeerNetwork {
    /// Collects the members an organization currently owns.
    fn collect_org_members(&self, preserve: &Vec<u64>, org: u32) -> (r: Vec<NeighborInfo>)
        requires
            !self.peerdb.faulted,
        ensures
            r@ == org_members(self.conns@, preserve@, self.peerdb, org),
    {
        let mut out: Vec<NeighborInfo> = Vec::new();
        let mut i: usize = 0;
        proof {
            assert(self.conns@.take(0) =~= Seq::<ConnEntry>::empty());
        }
        while i < self.conns.len()
            invariant
                i <= self.conns.len(),
                !self.peerdb.faulted,
                out@ == org_members(self.conns@.take(i as int), preserve@, self.peerdb, org),
            decreases self.conns.len() - i,
        {
            proof {
                assert(self.conns@.take(i as int + 1).drop_last() =~= self.conns@.take(i as int));
                assert(self.conns@.take(i as int + 1).last() == self.conns@[i as int]);
            }
            let c = self.conns[i];
            let preserved = preserve_contains(preserve, c.event_id);
            if c.stats.outbound && !preserved {
                match self.peerdb.get_peer_org(&c.key) {
                    Ok(Some(o)) => {
                        if o == org {
                            out.push((c.key, c.stats));
                        }
                    },
                    _ => {},
                }
            }
            proof {
                assert(out@ =~= org_members(
                    self.conns@.take(i as int + 1),
                    preserve@,
                    self.peerdb,
                    org,
                ));
            }
            i = i + 1;
        }
        proof {
            assert(self.conns@.take(self.conns@.len() as int) =~= self.conns@);
        }
        out
    }

    /// Classifies the current outbound, non-preserved connections by the
    /// organization the peer database assigns them. A peer the database does
    /// not know contributes to no bucket; a faulted database aborts the whole
    /// outbound pruning path with an error.
    #[verifier::rlimit(50)]
    pub fn org_neighbor_distribution(&self, preserve: &Vec<u64>) -> (r: Result<
        Vec<OrgBucket>,
        NetError,
    >)
        ensures
            !self.peerdb.faulted ==> r is Ok,
            r matches Ok(dist) ==> org_dist_ok(self.conns@, preserve@, self.peerdb, dist@),
            r matches Err(e) ==> (self.peerdb.faulted && e == NetError::DbError),
            (self.peerdb.faulted && exists|ci: int|
                0 <= ci < self.conns@.len() && (#[trigger] self.conns@[ci]).stats.outbound
                    && !preserve@.contains(self.conns@[ci].event_id)) ==> r is Err,
    {
        let ghost db = self.peerdb;
        let mut orgs: Vec<u32> = Vec::new();
        let mut i: usize = 0;
        proof {
            assert(self.conns@.take(0) =~= Seq::<ConnEntry>::empty());
        }
        while i < self.conns.len()
            invariant
                i <= self.conns.len(),
                db == self.peerdb,
                orgs@.len() > 0 ==> !self.peerdb.faulted,
                self.peerdb.faulted ==> forall|ci: int|
                    0 <= ci < i ==> !((#[trigger] self.conns@[ci]).stats.outbound
                        && !preserve@.contains(self.conns@[ci].event_id)),
                orgs@ == orgs_in(self.conns@.take(i as int), preserve@, db),
                forall|a: int, b: int|
                    0 <= a < b < orgs@.len() ==> (#[trigger] orgs@[a]) != (#[trigger] orgs@[b]),
                forall|o: u32|
                    orgs@.contains(o) <==> org_members(
                        self.conns@.take(i as int),
                        preserve@,
                        db,
                        o,
                    ).len() > 0,
            decreases self.conns.len() - i,
        {
            let ghost tk0 = self.conns@.take(i as int);
            let ghost tk1 = self.conns@.take(i as int + 1);
            proof {
                assert(tk1.drop_last() =~= tk0);
                assert(tk1.last() == self.conns@[i as int]);
            }
            let c = self.conns[i];
            let preserved = preserve_contains(preserve, c.event_id);
            if c.stats.outbound && !preserved {
                match self.peerdb.get_peer_org(&c.key) {
                    Err(e) => {
                        return Err(e);
                    },
                    Ok(None) => {
                        proof {
                            assert(db.org_of(c.key) is None);
                            assert(orgs_in(tk1, preserve@, db) == orgs_in(tk0, preserve@, db));
                            assert forall|o: u32|
                                orgs@.contains(o) <==> org_members(tk1, preserve@, db, o).len()
                                    > 0 by {
                                assert(!is_org_member(c, preserve@, db, o));
                                assert(org_members(tk1, preserve@, db, o) == org_members(
                                    tk0,
                                    preserve@,
                                    db,
                                    o,
                                ) + Seq::<NeighborInfo>::empty());
                                assert(org_members(tk1, preserve@, db, o) =~= org_members(
                                    tk0,
                                    preserve@,
                                    db,
                                    o,
                                ));
                            };
                        }
                    },
                    Ok(Some(o)) => {
                        proof {
                            assert(db.org_of(c.key) == Option::Some(o));
                            assert forall|o2: u32|
                                org_members(tk1, preserve@, db, o2) == org_members(
                                    tk0,
                                    preserve@,
                                    db,
                                    o2,
                                ) + (if o2 == o {
                                    seq![(c.key, c.stats)]
                                } else {
                                    Seq::<NeighborInfo>::empty()
                                }) by {
                                if o2 == o {
                                    assert(is_org_member(c, preserve@, db, o2));
                                } else {
                                    assert(!is_org_member(c, preserve@, db, o2));
                                }
                            };
                            assert forall|o2: u32| o2 != o implies org_members(
                                tk1,
                                preserve@,
                                db,
                                o2,
                            ) =~= org_members(tk0, preserve@, db, o2) by {};
                            assert(org_members(tk1, preserve@, db, o).len() == org_members(
                                tk0,
                                preserve@,
                                db,
                                o,
                            ).len() + 1);
                        }
                        if !org_list_contains(&orgs, o) {
                            let ghost prev_orgs = orgs@;
                            orgs.push(o);
                            proof {
                                assert(db.org_of(c.key).unwrap() == o);
                                assert(!orgs_in(tk0, preserve@, db).contains(o));
                                assert(orgs_in(tk1, preserve@, db) == orgs_in(
                                    tk0,
                                    preserve@,
                                    db,
                                ).push(o));
                                assert(orgs@ =~= prev_orgs.push(o));
                                assert(orgs@[orgs@.len() - 1] == o);
                                assert(forall|k: int|
                                    0 <= k < prev_orgs.len() ==> orgs@[k] == prev_orgs[k]);
                                assert forall|o2: u32|
                                    orgs@.contains(o2) <==> org_members(
                                        tk1,
                                        preserve@,
                                        db,
                                        o2,
                                    ).len() > 0 by {
                                    if o2 == o {
                                        assert(orgs@.contains(o2));
                                    } else {
                                        assert forall|j: int|
                                            0 <= j < orgs@.len() && orgs@[j] == o2 implies
                                        prev_orgs.contains(o2) by {
                                            assert(j < prev_orgs.len());
                                            assert(prev_orgs[j] == o2);
                                        };
                                        assert(prev_orgs.contains(o2) ==> orgs@.contains(o2));
                                    }
                                };
                                assert forall|a: int, b: int|
                                    0 <= a < b < orgs@.len() implies (#[trigger] orgs@[a]) != (
                                #[trigger] orgs@[b]) by {
                                    if b == orgs@.len() - 1 {
                                        assert(!prev_orgs.contains(o));
                                        assert(prev_orgs[a] == orgs@[a]);
                                        assert(prev_orgs.contains(prev_orgs[a]));
                                    }
                                };
                            }
                        } else {
                            proof {
                                assert(db.org_of(c.key).unwrap() == o);
                                assert(orgs_in(tk0, preserve@, db).contains(o));
                                assert(orgs_in(tk1, preserve@, db) == orgs_in(tk0, preserve@, db));
                                assert forall|o2: u32|
                                    orgs@.contains(o2) <==> org_members(
                                        tk1,
                                        preserve@,
                                        db,
                                        o2,
                                    ).len() > 0 by {
                                    if o2 == o {
                                        assert(orgs@.contains(o2));
                                    }
                                };
                            }
                        }
                    },
                }
            } else {
                proof {
                    assert(orgs_in(tk1, preserve@, db) == orgs_in(tk0, preserve@, db));
                    assert forall|o: u32|
                        orgs@.contains(o) <==> org_members(tk1, preserve@, db, o).len() > 0 by {
                        assert(!is_org_member(c, preserve@, db, o));
                        assert(org_members(tk1, preserve@, db, o) == org_members(
                            tk0,
                            preserve@,
                            db,
                            o,
                        ) + Seq::<NeighborInfo>::empty());
                        assert(org_members(tk1, preserve@, db, o) =~= org_members(
                            tk0,
                            preserve@,
                            db,
                            o,
                        ));
                    };
                }
            }
            i = i + 1;
        }
        proof {
            assert(self.conns@.take(self.conns@.len() as int) =~= self.conns@);
        }
        let mut dist: Vec<OrgBucket> = Vec::new();
        let mut k: usize = 0;
        while k < orgs.len()
            invariant
                k <= orgs.len(),
                db == self.peerdb,
                dist@.len() == k,
                orgs@.len() > 0 ==> !self.peerdb.faulted,
                self.peerdb.faulted ==> forall|ci: int|
                    0 <= ci < self.conns@.len() ==> !((#[trigger] self.conns@[ci]).stats.outbound
                        && !preserve@.contains(self.conns@[ci].event_id)),
                forall|a: int, b: int|
                    0 <= a < b < orgs@.len() ==> (#[trigger] orgs@[a]) != (#[trigger] orgs@[b]),
                orgs@ == orgs_in(self.conns@, preserve@, db),
                forall|o: u32|
                    orgs@.contains(o) <==> org_members(self.conns@, preserve@, db, o).len() > 0,
                forall|j: int| 0 <= j < k ==> (#[trigger] dist@[j]).org == orgs@[j],
                forall|j: int|
                    0 <= j < k ==> (#[trigger] dist@[j]).members@ == org_members(
                        self.conns@,
                        preserve@,
                        db,
                        orgs@[j],
                    ),
            decreases orgs.len() - k,
        {
            let org = orgs[k];
            proof {
                assert(orgs@.contains(orgs@[k as int]));
            }
            let members = self.collect_org_members(preserve, org);
            dist.push(OrgBucket { org, members });
            k = k + 1;
        }
        proof {
            assert forall|j: int| 0 <= j < dist@.len() implies (#[trigger] dist@[j]).members@.len()
                > 0 by {
                assert(orgs@.contains(orgs@[j]));
            };
            assert forall|org: u32|
                org_members(self.conns@, preserve@, db, org).len() > 0 implies exists|j: int|
                0 <= j < dist@.len() && (#[trigger] dist@[j]).org == org by {
                assert(orgs@.contains(org));
                let j = choose|j: int| 0 <= j < orgs@.len() && orgs@[j] == org;
                assert(dist@[j].org == org);
            };
            assert(org_dist_ok(self.conns@, preserve@, self.peerdb, dist@));
        }
        Ok(dist)
    }
}

} // verus!
