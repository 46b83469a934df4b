use vstd::prelude::*;
use crate::distribution::{lemma_org_members_remove, org_members};
use crate::inbound::{excess_for, ip_members, lemma_ip_members_remove, removed_by_ip};
use crate::outbound::pruned_for_org;
use crate::peerdb::PeerDb;
use crate::sorts::{sort_neighbor_keys, sorted_by_key};
use crate::telemetry::{bump_count, saturating_inc, telem_get, telem_keys_unique};
use crate::types::{ConnEntry, LocalPeer, NeighborKey};

verus! {

/// The node's view of its peer frontier: the live connection table, the four
/// soft limits, the eviction telemetry, and the peer database consulted for
/// organization diversity.
pub struct PeerNetwork {
    pub conns: Vec<ConnEntry>,
    pub soft_num_neighbors: u64,
    pub soft_max_neighbors_per_org: u64,
    pub soft_num_clients: u64,
    pub soft_max_clients_per_host: u64,
    pub prune_inbound_counts: Vec<(NeighborKey, u64)>,
    pub prune_outbound_counts: Vec<(NeighborKey, u64)>,
    pub peerdb: PeerDb,
}

/// No two live connections name the same neighbor key.
pub open spec fn conn_keys_unique(s: Seq<ConnEntry>) -> bool {
    forall|a: int, b: int| 0 <= a < b < s.len() ==> (#[trigger] s[a]).key != (#[trigger] s[b]).key
}

/// The table `after` holds exactly the connections of `before` whose key is
/// not among the removed keys.
pub open spec fn conns_filtered(
    before: Seq<ConnEntry>,
    after: Seq<ConnEntry>,
    removed: Seq<NeighborKey>,
) -> bool {
    forall|c: ConnEntry|
        #![trigger after.contains(c)]
        after.contains(c) <==> (before.contains(c) && !removed.contains(c.key))
}

/// Each event id names at most one live connection slot.
pub open spec fn conn_events_unique(s: Seq<ConnEntry>) -> bool {
    forall|a: int, b: int|
        0 <= a < b < s.len() ==> (#[trigger] s[a]).event_id != (#[trigger] s[b]).event_id
}

/// Number of outbound connections in a table.
pub open spec fn count_outbound_spec(s: Seq<ConnEntry>) -> int
    decreases s.len(),
{
    if s.len() == 0 {
        0
    } else {
        (if s[0].stats.outbound {
            1int
        } else {
            0int
        }) + count_outbound_spec(s.drop_first())
    }
}

pub proof fn lemma_count_outbound_bounds(s: Seq<ConnEntry>)
    ensures
        0 <= count_outbound_spec(s) <= s.len(),
    decreases s.len(),
{
    if s.len() > 0 {
        lemma_count_outbound_bounds(s.drop_first());
    }
}

/// Removing one connection lowers the outbound count by one exactly when
/// that connection was outbound.
pub proof fn lemma_count_outbound_remove(s: Seq<ConnEntry>, i: int)
    requires
        0 <= i < s.len(),
    ensures
        count_outbound_spec(s.remove(i)) == count_outbound_spec(s) - (if s[i].stats.outbound {
            1int
        } else {
            0int
        }),
    decreases s.len(),
{
    if i == 0 {
        assert(s.remove(0) =~= s.drop_first());
    } else {
        assert(s.remove(i).drop_first() =~= s.drop_first().remove(i - 1));
        assert(s.remove(i)[0] == s[0]);
        assert(s.drop_first()[i - 1] == s[i]);
        lemma_count_outbound_remove(s.drop_first(), i - 1);
    }
}

/// The neighbor keys of the inbound connections, in table order.
pub open spec fn inbound_keys(s: Seq<ConnEntry>) -> Seq<NeighborKey>
    decreases s.len(),
{
    if s.len() == 0 {
        Seq::empty()
    } else {
        inbound_keys(s.drop_last()) + (if s.last().stats.outbound {
            Seq::<NeighborKey>::empty()
        } else {
            seq![s.last().key]
        })
    }
}

/// The neighbor keys of the outbound connections, in table order.
pub open spec fn outbound_keys(s: Seq<ConnEntry>) -> Seq<NeighborKey>
    decreases s.len(),
{
    if s.len() == 0 {
        Seq::empty()
    } else {
        outbound_keys(s.drop_last()) + (if s.last().stats.outbound {
            seq![s.last().key]
        } else {
            Seq::<NeighborKey>::empty()
        })
    }
}

/// Decides membership of an event id in the preserve set.
pub fn preserve_contains(preserve: &Vec<u64>, x: u64) -> (r: bool)
    ensures
        r == preserve@.contains(x),
{
    let mut i: usize = 0;
    while i < preserve.len()
        invariant
            i <= preserve.len(),
            forall|j: int| 0 <= j < i ==> preserve@[j] != x,
        decreases preserve.len() - i,
    {
        if preserve[i] == x {
            return true;
        }
        i = i + 1;
    }
    false
}

impl PeerNetwork {
    /// The connection table, telemetry, and peer database are in the shape
    /// every operation preserves: connection keys and event ids are unique,
    /// and each telemetry list records each key once.
    pub open spec fn wf(&self) -> bool {
        &&& conn_keys_unique(self.conns@)
        &&& conn_events_unique(self.conns@)
        &&& telem_keys_unique(self.prune_inbound_counts@)
        &&& telem_keys_unique(self.prune_outbound_counts@)
    }

    /// The soft limits and the peer database view are left as they were.
    pub open spec fn config_unchanged(&self, other: &PeerNetwork) -> bool {
        &&& self.soft_num_neighbors == other.soft_num_neighbors
        &&& self.soft_max_neighbors_per_org == other.soft_max_neighbors_per_org
        &&& self.soft_num_clients == other.soft_num_clients
        &&& self.soft_max_clients_per_host == other.soft_max_clients_per_host
        &&& self.peerdb == other.peerdb
    }

    /// Number of live connections.
    pub fn num_peers(&self) -> (r: usize)
        ensures
            r == self.conns@.len(),
    {
        self.conns.len()
    }

    /// Counts the outbound conversations in a connection table.
    pub fn count_outbound_conversations(conns: &Vec<ConnEntry>) -> (r: u64)
        ensures
            r == count_outbound_spec(conns@),
    {
        proof {
            assert(conns@.skip(0) =~= conns@);
        }
        let mut i: usize = 0;
        let mut cnt: u64 = 0;
        while i < conns.len()
            invariant
                i <= conns.len(),
                cnt <= i,
                cnt + count_outbound_spec(conns@.skip(i as int)) == count_outbound_spec(conns@),
            decreases conns.len() - i,
        {
            proof {
                assert(conns@.skip(i as int).drop_first() =~= conns@.skip(i as int + 1));
                assert(conns@.skip(i as int)[0] == conns@[i as int]);
            }
            if conns[i].stats.outbound {
                cnt = cnt + 1;
            }
            i = i + 1;
        }
        proof {
            assert(conns@.skip(conns@.len() as int) =~= Seq::<ConnEntry>::empty());
        }
        cnt
    }

    /// Closes and removes the connection carrying a neighbor key. Every other
    /// connection, the telemetry, and the configuration are untouched.
    pub fn deregister_neighbor(&mut self, key: &NeighborKey)
        requires
            old(self).wf(),
        ensures
            final(self).wf(),
            final(self).config_unchanged(old(self)),
            final(self).prune_inbound_counts == old(self).prune_inbound_counts,
            final(self).prune_outbound_counts == old(self).prune_outbound_counts,
            final(self).conns@.len() <= old(self).conns@.len(),
            forall|c: ConnEntry|
                final(self).conns@.contains(c) <==> (old(self).conns@.contains(c) && c.key
                    != *key),
            (exists|i: int|
                0 <= i < old(self).conns@.len() && (#[trigger] old(self).conns@[i]).key == *key
                    && final(self).conns@ == old(self).conns@.remove(i)) || ((forall|i: int|
                0 <= i < old(self).conns@.len() ==> (#[trigger] old(self).conns@[i]).key != *key)
                && final(self).conns@ == old(self).conns@),
    {
        let n = self.conns.len();
        let mut i: usize = 0;
        while i < n
            invariant
                i <= n,
                n == self.conns.len(),
                old(self).wf(),
                *self == *old(self),
                forall|j: int| 0 <= j < i ==> (#[trigger] self.conns@[j]).key != *key,
            decreases n - i,
        {
            if self.conns[i].key == *key {
                let ghost prev = self.conns@;
                let ghost gi = i as int;
                self.conns.remove(i);
                proof {
                    assert(self.conns@ == prev.remove(gi));
                    assert(forall|k: int| 0 <= k < gi ==> self.conns@[k] == prev[k]);
                    assert(forall|k: int|
                        gi <= k < self.conns@.len() ==> self.conns@[k] == prev[k + 1]);
                    assert forall|c: ConnEntry|
                        self.conns@.contains(c) implies (prev.contains(c) && c.key != *key) by {
                        let j = choose|j: int|
                            0 <= j < self.conns@.len() && self.conns@[j] == c;
                        if j < gi {
                            assert(prev[j] == c);
                            assert(prev[j].key != prev[gi].key);
                        } else {
                            assert(prev[j + 1] == c);
                            assert(prev[gi].key != prev[j + 1].key);
                        }
                    };
                    assert forall|c: ConnEntry|
                        (prev.contains(c) && c.key != *key) implies self.conns@.contains(c) by {
                        let j = choose|j: int| 0 <= j < prev.len() && prev[j] == c;
                        if j < gi {
                            assert(self.conns@[j] == c);
                        } else {
                            assert(j != gi);
                            assert(self.conns@[j - 1] == c);
                        }
                    };
                }
                return ;
            }
            i = i + 1;
        }
        proof {
            assert forall|c: ConnEntry| self.conns@.contains(c) implies c.key != *key by {
                let j = choose|j: int| 0 <= j < self.conns@.len() && self.conns@[j] == c;
            };
        }
    }

    /// Lists the frontier for diagnostics: the inbound and the outbound
    /// neighbor keys, each sorted ascending by the key order.
    pub fn dump_peer_table(&self) -> (r: (Vec<NeighborKey>, Vec<NeighborKey>))
        ensures
            r.0@.to_multiset() == inbound_keys(self.conns@).to_multiset(),
            r.1@.to_multiset() == outbound_keys(self.conns@).to_multiset(),
            sorted_by_key(r.0@),
            sorted_by_key(r.1@),
    {
        let mut inbound: Vec<NeighborKey> = Vec::new();
        let mut outbound: Vec<NeighborKey> = Vec::new();
        let mut i: usize = 0;
        proof {
            assert(self.conns@.take(0) =~= Seq::<ConnEntry>::empty());
        }
        while i < self.conns.len()
            invariant
                i <= self.conns.len(),
                inbound@ == inbound_keys(self.conns@.take(i as int)),
                outbound@ == outbound_keys(self.conns@.take(i as int)),
            decreases self.conns.len() - i,
        {
            proof {
                assert(self.conns@.take(i as int + 1).drop_last() =~= self.conns@.take(i as int));
                assert(self.conns@.take(i as int + 1).last() == self.conns@[i as int]);
            }
            if self.conns[i].stats.outbound {
                outbound.push(self.conns[i].key);
                proof {
                    assert(outbound@ =~= outbound_keys(self.conns@.take(i as int + 1)));
                    assert(inbound@ =~= inbound_keys(self.conns@.take(i as int + 1)));
                }
            } else {
                inbound.push(self.conns[i].key);
                proof {
                    assert(inbound@ =~= inbound_keys(self.conns@.take(i as int + 1)));
                    assert(outbound@ =~= outbound_keys(self.conns@.take(i as int + 1)));
                }
            }
            i = i + 1;
        }
        proof {
            assert(self.conns@.take(self.conns@.len() as int) =~= self.conns@);
        }
        let si = sort_neighbor_keys(&inbound);
        let so = sort_neighbor_keys(&outbound);
        (si, so)
    }

    /// One full pruning pass: relieve inbound pressure by shared IP, then
    /// outbound pressure by organization, disconnecting each selected
    /// neighbor and counting the eviction in the telemetry of its path. With
    /// both counts under their soft limits the pass disconnects nothing;
    /// above the inbound limit it leaves every IP within the per-host cap,
    /// and with a healthy peer store it meets the outbound target or runs
    /// every organization's candidates dry. Preserved connections survive
    /// every pass; a neighbor is never evicted by both paths in one pass;
    /// every disconnected neighbor is counted exactly once, in the
    /// telemetry of its own path, and nothing else is disconnected or
    /// counted. A faulted peer store degrades to zero outbound evictions:
    /// the outbound connections and their counters are left alone.
    #[verifier::rlimit(100)]
    pub fn prune_frontier(&mut self, local_peer: &LocalPeer, preserve: &Vec<u64>, now: u64)
        requires
            old(self).wf(),
        ensures
            final(self).wf(),
            final(self).config_unchanged(old(self)),
            (count_outbound_spec(old(self).conns@) <= old(self).soft_num_neighbors
                && old(self).conns@.len() - count_outbound_spec(old(self).conns@) <= old(self).soft_num_clients) ==> (final(self).conns@ == old(self).conns@ && final(self).prune_inbound_counts@ == old(self).prune_inbound_counts@ && final(self).prune_outbound_counts@ == old(self).prune_outbound_counts@),
            forall|c: ConnEntry|
                final(self).conns@.contains(c) ==> old(self).conns@.contains(c),
            forall|c: ConnEntry|
                old(self).conns@.contains(c) && preserve@.contains(c.event_id) ==> final(self).conns@.contains(c),
            forall|kk: NeighborKey|
                #![trigger telem_get(final(self).prune_inbound_counts@, kk)]
                telem_get(old(self).prune_inbound_counts@, kk) <= telem_get(
                    final(self).prune_inbound_counts@,
                    kk,
                ) <= telem_get(old(self).prune_inbound_counts@, kk) + 1,
            forall|kk: NeighborKey|
                #![trigger telem_get(final(self).prune_outbound_counts@, kk)]
                telem_get(old(self).prune_outbound_counts@, kk) <= telem_get(
                    final(self).prune_outbound_counts@,
                    kk,
                ) <= telem_get(old(self).prune_outbound_counts@, kk) + 1,
            forall|kk: NeighborKey|
                #![trigger telem_get(final(self).prune_inbound_counts@, kk), telem_get(final(self).prune_outbound_counts@, kk)]
                !(telem_get(final(self).prune_inbound_counts@, kk) > telem_get(
                    old(self).prune_inbound_counts@,
                    kk,
                ) && telem_get(final(self).prune_outbound_counts@, kk) > telem_get(
                    old(self).prune_outbound_counts@,
                    kk,
                )),
            forall|kk: NeighborKey|
                #![trigger telem_get(final(self).prune_inbound_counts@, kk)]
                telem_get(final(self).prune_inbound_counts@, kk) > telem_get(
                    old(self).prune_inbound_counts@,
                    kk,
                ) ==> ((exists|ci: int|
                    0 <= ci < old(self).conns@.len() && (#[trigger] old(self).conns@[ci]).key
                        == kk && !old(self).conns@[ci].stats.outbound && !preserve@.contains(
                        old(self).conns@[ci].event_id,
                    )) && (forall|c: ConnEntry| final(self).conns@.contains(c) ==> c.key != kk)),
            forall|kk: NeighborKey|
                #![trigger telem_get(final(self).prune_outbound_counts@, kk)]
                telem_get(final(self).prune_outbound_counts@, kk) > telem_get(
                    old(self).prune_outbound_counts@,
                    kk,
                ) ==> ((exists|ci: int|
                    0 <= ci < old(self).conns@.len() && (#[trigger] old(self).conns@[ci]).key
                        == kk && old(self).conns@[ci].stats.outbound && !preserve@.contains(
                        old(self).conns@[ci].event_id,
                    )) && (forall|c: ConnEntry| final(self).conns@.contains(c) ==> c.key != kk)),
            forall|c: ConnEntry|
                #![trigger old(self).conns@.contains(c)]
                old(self).conns@.contains(c) && !final(self).conns@.contains(c)
                    && !c.stats.outbound ==> (telem_get(final(self).prune_inbound_counts@, c.key)
                    == saturating_inc(telem_get(old(self).prune_inbound_counts@, c.key))
                    && telem_get(final(self).prune_outbound_counts@, c.key) == telem_get(
                    old(self).prune_outbound_counts@,
                    c.key,
                )),
            forall|c: ConnEntry|
                #![trigger old(self).conns@.contains(c)]
                old(self).conns@.contains(c) && !final(self).conns@.contains(c)
                    && c.stats.outbound ==> (telem_get(final(self).prune_outbound_counts@, c.key)
                    == saturating_inc(telem_get(old(self).prune_outbound_counts@, c.key))
                    && telem_get(final(self).prune_inbound_counts@, c.key) == telem_get(
                    old(self).prune_inbound_counts@,
                    c.key,
                )),
            old(self).peerdb.faulted ==> final(self).prune_outbound_counts@ == old(self).prune_outbound_counts@,
            old(self).peerdb.faulted ==> forall|c: ConnEntry|
                old(self).conns@.contains(c) && c.stats.outbound ==> final(self).conns@.contains(c),
            old(self).conns@.len() - count_outbound_spec(old(self).conns@) > old(self).soft_num_clients ==> forall|addr: u128|
                #![trigger ip_members(final(self).conns@, preserve@, addr)]
                ip_members(final(self).conns@, preserve@, addr).len() <= old(self).soft_max_clients_per_host,
            !old(self).peerdb.faulted ==> (count_outbound_spec(final(self).conns@) <= old(self).soft_num_neighbors || forall|org: u32|
                #![trigger org_members(final(self).conns@, preserve@, old(self).peerdb, org)]
                org_members(final(self).conns@, preserve@, old(self).peerdb, org).len() == 0),
    {
        let ghost conns0 = old(self).conns@;
        let ghost in0 = old(self).prune_inbound_counts@;
        let ghost out0 = old(self).prune_outbound_counts@;

        let pruned_by_ip = self.prune_frontier_inbound_ip(local_peer, preserve);
        let n_ip = pruned_by_ip.len();
        let mut i: usize = 0;
        proof {
            assert(pruned_by_ip@.take(0) =~= Seq::<NeighborKey>::empty());
        }
        while i < n_ip
            invariant
                i <= n_ip,
                n_ip == pruned_by_ip@.len(),
                self.wf(),
                self.config_unchanged(old(self)),
                self.prune_outbound_counts@ == out0,
                crate::types::distinct_keys(pruned_by_ip@),
                crate::inbound::inbound_sound(conns0, preserve@, pruned_by_ip@),
                forall|a: u128|
                    #![trigger ip_members(self.conns@, preserve@, a)]
                    ip_members(self.conns@, preserve@, a).len() == ip_members(
                        conns0,
                        preserve@,
                        a,
                    ).len() - removed_by_ip(pruned_by_ip@.take(i as int), a),
                count_outbound_spec(self.conns@) == count_outbound_spec(conns0),
                pruned_by_ip@.take(i as int).len() == 0 ==> (self.conns@ == conns0
                    && self.prune_inbound_counts@ == in0),
                conns_filtered(conns0, self.conns@, pruned_by_ip@.take(i as int)),
                forall|kk: NeighborKey|
                    #![trigger telem_get(self.prune_inbound_counts@, kk)]
                    telem_get(self.prune_inbound_counts@, kk) == (if pruned_by_ip@.take(
                        i as int,
                    ).contains(kk) {
                        (if telem_get(in0, kk) == u64::MAX {
                            u64::MAX
                        } else {
                            (telem_get(in0, kk) + 1) as u64
                        })
                    } else {
                        telem_get(in0, kk)
                    }),
            decreases n_ip - i,
        {
            let key = pruned_by_ip[i];
            let ghost headc = self.conns@;
            self.deregister_neighbor(&key);
            bump_count(&mut self.prune_inbound_counts, &key);
            proof {
                assert(pruned_by_ip@.take(i as int + 1) =~= pruned_by_ip@.take(i as int).push(
                    key,
                ));
                assert forall|kk: NeighborKey|
                    pruned_by_ip@.take(i as int + 1).contains(kk) implies (pruned_by_ip@.take(
                    i as int,
                ).contains(kk) || kk == key) by {
                    let y = choose|y: int|
                        0 <= y < pruned_by_ip@.take(i as int + 1).len() && #[trigger] pruned_by_ip@.take(
                            i as int + 1,
                        )[y] == kk;
                    if y < i {
                        assert(pruned_by_ip@.take(i as int)[y] == kk);
                    }
                };
                assert(!pruned_by_ip@.take(i as int).contains(key)) by {
                    if pruned_by_ip@.take(i as int).contains(key) {
                        let y = choose|y: int|
                            0 <= y < i && #[trigger] pruned_by_ip@.take(i as int)[y] == key;
                        assert(pruned_by_ip@[y] == pruned_by_ip@[i as int]);
                    }
                };
                assert(pruned_by_ip@.take(i as int).contains(key)
                    ==> pruned_by_ip@.take(i as int + 1).contains(key));
                assert(pruned_by_ip@.take(i as int + 1)[i as int] == key);
                assert(pruned_by_ip@.take(i as int + 1).contains(key));
                assert(conns_filtered(conns0, self.conns@, pruned_by_ip@.take(i as int + 1))) by {
                assert forall|c: ConnEntry|
                    #![trigger self.conns@.contains(c)]
                    self.conns@.contains(c) <==> (conns0.contains(c) && !pruned_by_ip@.take(
                        i as int + 1,
                    ).contains(c.key)) by {
                    if self.conns@.contains(c) {
                        assert(headc.contains(c) && c.key != key);
                        assert(conns0.contains(c));
                        assert(!pruned_by_ip@.take(i as int).contains(c.key));
                        if pruned_by_ip@.take(i as int + 1).contains(c.key) {
                            assert(pruned_by_ip@.take(i as int).contains(c.key) || c.key == key);
                            assert(false);
                        }
                    } else {
                        if conns0.contains(c) && !pruned_by_ip@.take(i as int + 1).contains(c.key) {
                            if pruned_by_ip@.take(i as int).contains(c.key) {
                                let y = choose|y: int|
                                    0 <= y < pruned_by_ip@.take(i as int).len()
                                        && #[trigger] pruned_by_ip@.take(i as int)[y] == c.key;
                                assert(pruned_by_ip@.take(i as int + 1)[y] == c.key);
                            }
                            assert(!pruned_by_ip@.take(i as int).contains(c.key));
                            assert(c.key != key);
                            assert(headc.contains(c));
                            assert(self.conns@.contains(c));
                            assert(false);
                        }
                    }
                };
                };
                assert forall|kk: NeighborKey|
                    #![trigger telem_get(self.prune_inbound_counts@, kk)]
                    telem_get(self.prune_inbound_counts@, kk) == (if pruned_by_ip@.take(
                        i as int + 1,
                    ).contains(kk) {
                        (if telem_get(in0, kk) == u64::MAX {
                            u64::MAX
                        } else {
                            (telem_get(in0, kk) + 1) as u64
                        })
                    } else {
                        telem_get(in0, kk)
                    }) by {
                    if kk != key {
                        assert(pruned_by_ip@.take(i as int + 1).contains(kk) ==> (pruned_by_ip@.take(
                            i as int,
                        ).contains(kk) || kk == key));
                        assert(pruned_by_ip@.take(i as int).contains(kk) ==> pruned_by_ip@.take(
                            i as int + 1,
                        ).contains(kk));
                    }
                };

                // which connection went: the inbound one the pruner named
                assert(pruned_by_ip@[i as int] == key);
                let ci = choose|ci: int|
                    0 <= ci < conns0.len() && (#[trigger] conns0[ci]).key == key
                        && !conns0[ci].stats.outbound && !preserve@.contains(
                        conns0[ci].event_id,
                    );
                assert(headc.contains(conns0[ci])) by {
                    assert(conns0.contains(conns0[ci]));
                };
                let ri = choose|ri: int|
                    0 <= ri < headc.len() && (#[trigger] headc[ri]).key == key && self.conns@
                        == headc.remove(ri);
                let rj = choose|rj: int| 0 <= rj < headc.len() && headc[rj] == conns0[ci];
                assert(ri == rj || headc[ri].key != headc[rj].key);
                assert(headc[ri] == conns0[ci]);
                assert(pruned_by_ip@.take(i as int + 1).drop_last() =~= pruned_by_ip@.take(
                    i as int,
                ));
                assert(pruned_by_ip@.take(i as int + 1).last() == key);
                assert forall|a: u128|
                    #![trigger ip_members(self.conns@, preserve@, a)]
                    ip_members(self.conns@, preserve@, a).len() == ip_members(
                        conns0,
                        preserve@,
                        a,
                    ).len() - removed_by_ip(pruned_by_ip@.take(i as int + 1), a) by {
                    lemma_ip_members_remove(headc, preserve@, a, ri);
                };
                lemma_count_outbound_remove(headc, ri);
            }
            i = i + 1;
        }
        proof {
            assert(pruned_by_ip@.take(n_ip as int) =~= pruned_by_ip@);
        }

        let ghost midconns = self.conns@;
        let ghost midin = self.prune_inbound_counts@;

        let pruned_by_org = match self.prune_frontier_outbound_orgs(local_peer, preserve, now) {
            Ok(v) => v,
            Err(_) => Vec::new(),
        };
        let n_org = pruned_by_org.len();
        let mut t: usize = 0;
        proof {
            assert(pruned_by_org@.take(0) =~= Seq::<NeighborKey>::empty());
            if old(self).peerdb.faulted {
                if pruned_by_org@.len() > 0 {
                    assert(exists|ci: int|
                        0 <= ci < midconns.len() && (#[trigger] midconns[ci]).key
                            == pruned_by_org@[0] && midconns[ci].stats.outbound
                            && !preserve@.contains(midconns[ci].event_id));
                    assert(false);
                }
                assert(pruned_by_org@.len() == 0);
            }
        }
        while t < n_org
            invariant
                t <= n_org,
                n_org == pruned_by_org@.len(),
                self.wf(),
                self.config_unchanged(old(self)),
                self.prune_inbound_counts@ == midin,
                crate::types::distinct_keys(pruned_by_org@),
                crate::outbound::outbound_sound(midconns, preserve@, pruned_by_org@),
                count_outbound_spec(self.conns@) == count_outbound_spec(midconns) - t,
                forall|o: u32|
                    #![trigger org_members(self.conns@, preserve@, old(self).peerdb, o)]
                    org_members(self.conns@, preserve@, old(self).peerdb, o).len() == org_members(
                        midconns,
                        preserve@,
                        old(self).peerdb,
                        o,
                    ).len() - pruned_for_org(pruned_by_org@.take(t as int), old(self).peerdb, o),
                forall|a: u128|
                    #![trigger ip_members(self.conns@, preserve@, a)]
                    ip_members(self.conns@, preserve@, a).len() == ip_members(
                        midconns,
                        preserve@,
                        a,
                    ).len(),
                pruned_by_org@.take(t as int).len() == 0 ==> (self.conns@ == midconns
                    && self.prune_outbound_counts@ == out0),
                conns_filtered(midconns, self.conns@, pruned_by_org@.take(t as int)),
                forall|kk: NeighborKey|
                    #![trigger telem_get(self.prune_outbound_counts@, kk)]
                    telem_get(self.prune_outbound_counts@, kk) == (if pruned_by_org@.take(
                        t as int,
                    ).contains(kk) {
                        (if telem_get(out0, kk) == u64::MAX {
                            u64::MAX
                        } else {
                            (telem_get(out0, kk) + 1) as u64
                        })
                    } else {
                        telem_get(out0, kk)
                    }),
            decreases n_org - t,
        {
            let key = pruned_by_org[t];
            let ghost headc = self.conns@;
            self.deregister_neighbor(&key);
            bump_count(&mut self.prune_outbound_counts, &key);
            proof {
                assert(pruned_by_org@.take(t as int + 1) =~= pruned_by_org@.take(t as int).push(
                    key,
                ));
                assert forall|kk: NeighborKey|
                    pruned_by_org@.take(t as int + 1).contains(kk) implies (pruned_by_org@.take(
                    t as int,
                ).contains(kk) || kk == key) by {
                    let y = choose|y: int|
                        0 <= y < pruned_by_org@.take(t as int + 1).len() && #[trigger] pruned_by_org@.take(
                            t as int + 1,
                        )[y] == kk;
                    if y < t {
                        assert(pruned_by_org@.take(t as int)[y] == kk);
                    }
                };
                assert(!pruned_by_org@.take(t as int).contains(key)) by {
                    if pruned_by_org@.take(t as int).contains(key) {
                        let y = choose|y: int|
                            0 <= y < t && #[trigger] pruned_by_org@.take(t as int)[y] == key;
                        assert(pruned_by_org@[y] == pruned_by_org@[t as int]);
                    }
                };
                assert(pruned_by_org@.take(t as int).contains(key)
                    ==> pruned_by_org@.take(t as int + 1).contains(key));
                assert(pruned_by_org@.take(t as int + 1)[t as int] == key);
                assert(pruned_by_org@.take(t as int + 1).contains(key));
                assert(conns_filtered(midconns, self.conns@, pruned_by_org@.take(t as int + 1))) by {
                assert forall|c: ConnEntry|
                    #![trigger self.conns@.contains(c)]
                    self.conns@.contains(c) <==> (midconns.contains(c) && !pruned_by_org@.take(
                        t as int + 1,
                    ).contains(c.key)) by {
                    if self.conns@.contains(c) {
                        assert(headc.contains(c) && c.key != key);
                        assert(midconns.contains(c));
                        assert(!pruned_by_org@.take(t as int).contains(c.key));
                        if pruned_by_org@.take(t as int + 1).contains(c.key) {
                            assert(pruned_by_org@.take(t as int).contains(c.key) || c.key == key);
                            assert(false);
                        }
                    } else {
                        if midconns.contains(c) && !pruned_by_org@.take(t as int + 1).contains(c.key) {
                            if pruned_by_org@.take(t as int).contains(c.key) {
                                let y = choose|y: int|
                                    0 <= y < pruned_by_org@.take(t as int).len()
                                        && #[trigger] pruned_by_org@.take(t as int)[y] == c.key;
                                assert(pruned_by_org@.take(t as int + 1)[y] == c.key);
                            }
                            assert(!pruned_by_org@.take(t as int).contains(c.key));
                            assert(c.key != key);
                            assert(headc.contains(c));
                            assert(self.conns@.contains(c));
                            assert(false);
                        }
                    }
                };
                };
                assert forall|kk: NeighborKey|
                    #![trigger telem_get(self.prune_outbound_counts@, kk)]
                    telem_get(self.prune_outbound_counts@, kk) == (if pruned_by_org@.take(
                        t as int + 1,
                    ).contains(kk) {
                        (if telem_get(out0, kk) == u64::MAX {
                            u64::MAX
                        } else {
                            (telem_get(out0, kk) + 1) as u64
                        })
                    } else {
                        telem_get(out0, kk)
                    }) by {
                    if kk != key {
                        assert(pruned_by_org@.take(t as int + 1).contains(kk) ==> (pruned_by_org@.take(
                            t as int,
                        ).contains(kk) || kk == key));
                        assert(pruned_by_org@.take(t as int).contains(kk) ==> pruned_by_org@.take(
                            t as int + 1,
                        ).contains(kk));
                    }
                };

                // which connection went: the outbound one the pruner named
                assert(pruned_by_org@[t as int] == key);
                let ci = choose|ci: int|
                    0 <= ci < midconns.len() && (#[trigger] midconns[ci]).key == key
                        && midconns[ci].stats.outbound && !preserve@.contains(
                        midconns[ci].event_id,
                    );
                assert(headc.contains(midconns[ci])) by {
                    assert(midconns.contains(midconns[ci]));
                };
                let ri = choose|ri: int|
                    0 <= ri < headc.len() && (#[trigger] headc[ri]).key == key && self.conns@
                        == headc.remove(ri);
                let rj = choose|rj: int| 0 <= rj < headc.len() && headc[rj] == midconns[ci];
                assert(ri == rj || headc[ri].key != headc[rj].key);
                assert(headc[ri] == midconns[ci]);
                assert(pruned_by_org@.take(t as int + 1).drop_last() =~= pruned_by_org@.take(
                    t as int,
                ));
                assert(pruned_by_org@.take(t as int + 1).last() == key);
                assert forall|o: u32|
                    #![trigger org_members(self.conns@, preserve@, old(self).peerdb, o)]
                    org_members(self.conns@, preserve@, old(self).peerdb, o).len() == org_members(
                        midconns,
                        preserve@,
                        old(self).peerdb,
                        o,
                    ).len() - pruned_for_org(
                        pruned_by_org@.take(t as int + 1),
                        old(self).peerdb,
                        o,
                    ) by {
                    lemma_org_members_remove(headc, preserve@, old(self).peerdb, o, ri);
                };
                assert forall|a: u128|
                    #![trigger ip_members(self.conns@, preserve@, a)]
                    ip_members(self.conns@, preserve@, a).len() == ip_members(
                        midconns,
                        preserve@,
                        a,
                    ).len() by {
                    lemma_ip_members_remove(headc, preserve@, a, ri);
                };
                lemma_count_outbound_remove(headc, ri);
            }
            t = t + 1;
        }
        proof {
            assert(pruned_by_org@.take(n_org as int) =~= pruned_by_org@);

            // preserved connections survive both phases
            assert forall|c: ConnEntry|
                conns0.contains(c) && preserve@.contains(c.event_id) implies self.conns@.contains(
                c,
            ) by {
                let cj = choose|cj: int| 0 <= cj < conns0.len() && conns0[cj] == c;
                if pruned_by_ip@.contains(c.key) {
                    let y = choose|y: int|
                        0 <= y < pruned_by_ip@.len() && #[trigger] pruned_by_ip@[y] == c.key;
                    let ci = choose|ci: int|
                        0 <= ci < conns0.len() && (#[trigger] conns0[ci]).key == pruned_by_ip@[y]
                            && !conns0[ci].stats.outbound && !preserve@.contains(
                            conns0[ci].event_id,
                        );
                    assert(ci == cj || conns0[ci].key != conns0[cj].key);
                }
                assert(midconns.contains(c));
                if pruned_by_org@.contains(c.key) {
                    let y = choose|y: int|
                        0 <= y < pruned_by_org@.len() && #[trigger] pruned_by_org@[y] == c.key;
                    let ci = choose|ci: int|
                        0 <= ci < midconns.len() && (#[trigger] midconns[ci]).key
                            == pruned_by_org@[y] && midconns[ci].stats.outbound
                            && !preserve@.contains(midconns[ci].event_id);
                    let cm = choose|cm: int| 0 <= cm < midconns.len() && midconns[cm] == c;
                    assert(ci == cm || midconns[ci].key != midconns[cm].key);
                }
            };

            // no key is pruned by both paths in one pass
            assert forall|kk: NeighborKey|
                pruned_by_ip@.contains(kk) implies !pruned_by_org@.contains(kk) by {
                if pruned_by_org@.contains(kk) {
                    let y = choose|y: int|
                        0 <= y < pruned_by_org@.len() && #[trigger] pruned_by_org@[y] == kk;
                    let ci = choose|ci: int|
                        0 <= ci < midconns.len() && (#[trigger] midconns[ci]).key == kk
                            && midconns[ci].stats.outbound && !preserve@.contains(
                            midconns[ci].event_id,
                        );
                    assert(midconns.contains(midconns[ci]));
                    assert(conns0.contains(midconns[ci]) && !pruned_by_ip@.contains(
                        midconns[ci].key,
                    ));
                }
            };

            // a bumped inbound counter names a removed inbound connection
            assert forall|kk: NeighborKey|
                telem_get(self.prune_inbound_counts@, kk) > telem_get(in0, kk) implies (
            pruned_by_ip@.contains(kk) && (forall|c: ConnEntry|
                self.conns@.contains(c) ==> c.key != kk)) by {
                assert(pruned_by_ip@.contains(kk));
                assert forall|c: ConnEntry| self.conns@.contains(c) implies c.key != kk by {
                    assert(midconns.contains(c));
                    assert(conns0.contains(c) && !pruned_by_ip@.contains(c.key));
                };
            };
            assert forall|kk: NeighborKey|
                telem_get(self.prune_outbound_counts@, kk) > telem_get(out0, kk) implies (
            pruned_by_org@.contains(kk) && (forall|c: ConnEntry|
                self.conns@.contains(c) ==> c.key != kk)) by {
                assert(pruned_by_org@.contains(kk));
                assert forall|c: ConnEntry| self.conns@.contains(c) implies c.key != kk by {
                    assert(midconns.contains(c) && !pruned_by_org@.contains(c.key));
                };
            };

            // an outbound-pruned key names an outbound connection of the
            // table as it stood before the pass
            assert forall|kk: NeighborKey|
                pruned_by_org@.contains(kk) implies exists|ci: int|
                0 <= ci < conns0.len() && (#[trigger] conns0[ci]).key == kk
                    && conns0[ci].stats.outbound && !preserve@.contains(conns0[ci].event_id) by {
                let y = choose|y: int|
                    0 <= y < pruned_by_org@.len() && #[trigger] pruned_by_org@[y] == kk;
                let ci = choose|ci: int|
                    0 <= ci < midconns.len() && (#[trigger] midconns[ci]).key == kk
                        && midconns[ci].stats.outbound && !preserve@.contains(
                        midconns[ci].event_id,
                    );
                assert(midconns.contains(midconns[ci]));
                assert(conns0.contains(midconns[ci]));
                let cz = choose|cz: int| 0 <= cz < conns0.len() && conns0[cz] == midconns[ci];
            };

            // a key pruned by IP names an inbound connection of the table
            assert forall|kk: NeighborKey|
                pruned_by_ip@.contains(kk) implies exists|ci: int|
                0 <= ci < conns0.len() && (#[trigger] conns0[ci]).key == kk
                    && !conns0[ci].stats.outbound && !preserve@.contains(
                    conns0[ci].event_id,
                ) by {
                let y = choose|y: int|
                    0 <= y < pruned_by_ip@.len() && #[trigger] pruned_by_ip@[y] == kk;
            };

            // a faulted store left the outbound side untouched
            if old(self).peerdb.faulted {
                assert(pruned_by_org@.len() == 0);
                assert(pruned_by_org@.take(n_org as int).len() == 0);
                assert(self.conns@ == midconns);
                assert(self.prune_outbound_counts@ == out0);
                assert forall|c: ConnEntry|
                    old(self).conns@.contains(c) && c.stats.outbound implies self.conns@.contains(
                    c,
                ) by {
                    if pruned_by_ip@.contains(c.key) {
                        let y = choose|y: int|
                            0 <= y < pruned_by_ip@.len() && #[trigger] pruned_by_ip@[y] == c.key;
                        let ci = choose|ci: int|
                            0 <= ci < conns0.len() && (#[trigger] conns0[ci]).key
                                == pruned_by_ip@[y] && !conns0[ci].stats.outbound
                                && !preserve@.contains(conns0[ci].event_id);
                        let cj = choose|cj: int| 0 <= cj < conns0.len() && conns0[cj] == c;
                        assert(ci == cj || conns0[ci].key != conns0[cj].key);
                    }
                    assert(midconns.contains(c));
                };
            }

            // every eviction is counted once, in its own path
            assert forall|c: ConnEntry|
                #![trigger old(self).conns@.contains(c)]
                old(self).conns@.contains(c) && !self.conns@.contains(c) && !c.stats.outbound
                implies (telem_get(self.prune_inbound_counts@, c.key) == saturating_inc(
                telem_get(in0, c.key),
            ) && telem_get(self.prune_outbound_counts@, c.key) == telem_get(out0, c.key)) by {
                if !pruned_by_ip@.contains(c.key) {
                    assert(midconns.contains(c));
                    assert(pruned_by_org@.contains(c.key));
                    let cw = choose|cw: int|
                        0 <= cw < midconns.len() && (#[trigger] midconns[cw]).key == c.key
                            && midconns[cw].stats.outbound && !preserve@.contains(
                            midconns[cw].event_id,
                        );
                    assert(midconns.contains(midconns[cw]));
                    assert(conns0.contains(midconns[cw]));
                    let z1 = choose|z1: int| 0 <= z1 < conns0.len() && conns0[z1] == midconns[cw];
                    let z2 = choose|z2: int| 0 <= z2 < conns0.len() && conns0[z2] == c;
                    assert(z1 == z2 || conns0[z1].key != conns0[z2].key);
                    assert(false);
                }
                assert(!pruned_by_org@.contains(c.key));
            };
            assert forall|c: ConnEntry|
                #![trigger old(self).conns@.contains(c)]
                old(self).conns@.contains(c) && !self.conns@.contains(c) && c.stats.outbound
                implies (telem_get(self.prune_outbound_counts@, c.key) == saturating_inc(
                telem_get(out0, c.key),
            ) && telem_get(self.prune_inbound_counts@, c.key) == telem_get(in0, c.key)) by {
                if pruned_by_ip@.contains(c.key) {
                    let y = choose|y: int|
                        0 <= y < pruned_by_ip@.len() && #[trigger] pruned_by_ip@[y] == c.key;
                    let ci = choose|ci: int|
                        0 <= ci < conns0.len() && (#[trigger] conns0[ci]).key == pruned_by_ip@[y]
                            && !conns0[ci].stats.outbound && !preserve@.contains(
                            conns0[ci].event_id,
                        );
                    let cj = choose|cj: int| 0 <= cj < conns0.len() && conns0[cj] == c;
                    assert(ci == cj || conns0[ci].key != conns0[cj].key);
                    assert(false);
                }
                assert(midconns.contains(c));
                assert(pruned_by_org@.contains(c.key));
            };

            // inbound pressure is relieved down to the per-host cap
            if old(self).conns@.len() - count_outbound_spec(conns0) > old(self).soft_num_clients {
                assert forall|addr: u128|
                    #![trigger ip_members(self.conns@, preserve@, addr)]
                    ip_members(self.conns@, preserve@, addr).len() <= old(self).soft_max_clients_per_host by {
                    assert(ip_members(midconns, preserve@, addr).len() == ip_members(
                        conns0,
                        preserve@,
                        addr,
                    ).len() - removed_by_ip(pruned_by_ip@, addr));
                    assert(removed_by_ip(pruned_by_ip@, addr) == excess_for(
                        conns0,
                        preserve@,
                        old(self).soft_max_clients_per_host,
                        addr,
                    ));
                };
            }

            // the outbound target is met unless candidates ran out
            if !old(self).peerdb.faulted {
                if count_outbound_spec(midconns) <= old(self).soft_num_neighbors {
                    assert(pruned_by_org@.len() == 0);
                    assert(pruned_by_org@.take(n_org as int).len() == 0);
                    assert(self.conns@ == midconns);
                    assert(count_outbound_spec(self.conns@) <= old(self).soft_num_neighbors);
                } else {
                    if pruned_by_org@.len() == count_outbound_spec(midconns) - old(self).soft_num_neighbors {
                        assert(count_outbound_spec(self.conns@) == count_outbound_spec(midconns)
                            - n_org);
                        assert(count_outbound_spec(self.conns@) <= old(self).soft_num_neighbors);
                    } else {
                        assert forall|org: u32|
                            #![trigger org_members(self.conns@, preserve@, old(self).peerdb, org)]
                            org_members(self.conns@, preserve@, old(self).peerdb, org).len()
                                == 0 by {
                            assert(org_members(midconns, preserve@, old(self).peerdb, org).len()
                                == pruned_for_org(pruned_by_org@, old(self).peerdb, org));
                        };
                    }
                }
            }
        }
    }
}

} // verus!
