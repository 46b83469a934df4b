use vstd::prelude::*;
use crate::network::{
    conn_keys_unique, count_outbound_spec, preserve_contains, PeerNetwork,
    lemma_count_outbound_bounds,
};
use crate::sorts::{distinct_info_keys, sort_by_first_contact, NeighborInfo};
use crate::types::{distinct_keys, ConnEntry, LocalPeer, NeighborKey};

verus! {

/// A connection counted against an IP address: inbound, not preserved, and
/// its address bytes equal to that IP. Ports are ignored on purpose, so
/// several connections from one host on different ports count together.
pub open spec fn is_ip_member(c: ConnEntry, preserve: Seq<u64>, addr: u128) -> bool {
    !c.stats.outbound && !preserve.contains(c.event_id) && c.key.addrbytes == addr
}

/// The inbound connections a single IP address currently holds, in table
/// order.
pub open spec fn ip_members(conns: Seq<ConnEntry>, preserve: Seq<u64>, addr: u128) -> Seq<
    NeighborInfo,
>
    decreases conns.len(),
{
    if conns.len() == 0 {
        Seq::empty()
    } else {
        ip_members(conns.drop_last(), preserve, addr) + (if is_ip_member(
            conns.last(),
            preserve,
            addr,
        ) {
            seq![(conns.last().key, conns.last().stats)]
        } else {
            Seq::<NeighborInfo>::empty()
        })
    }
}

/// How many of a pruner's returned keys belong to one IP address.
pub open spec fn removed_by_ip(r: Seq<NeighborKey>, addr: u128) -> int
    decreases r.len(),
{
    if r.len() == 0 {
        0
    } else {
        removed_by_ip(r.drop_last(), addr) + (if r.last().addrbytes == addr {
            1int
        } else {
            0int
        })
    }
}

/// The number of connections an IP holds beyond the per-host cap.
pub open spec fn excess_for(conns: Seq<ConnEntry>, preserve: Seq<u64>, cap: u64, addr: u128) -> int {
    if ip_members(conns, preserve, addr).len() > cap {
        ip_members(conns, preserve, addr).len() - cap
    } else {
        0
    }
}

/// Every returned key names a live inbound connection outside the preserve
/// set.
pub open spec fn inbound_sound(conns: Seq<ConnEntry>, preserve: Seq<u64>, r: Seq<NeighborKey>) -> bool {
    forall|idx: int|
        #![trigger r[idx]]
        0 <= idx < r.len() ==> exists|ci: int|
            0 <= ci < conns.len() && (#[trigger] conns[ci]).key == r[idx]
                && !conns[ci].stats.outbound && !preserve.contains(conns[ci].event_id)
}

/// Among the inbound, non-preserved connections of one IP, every connection
/// kept is no newer than any connection shed: the newest excess connections
/// go first.
pub open spec fn newest_shed_first(
    conns: Seq<ConnEntry>,
    preserve: Seq<u64>,
    r: Seq<NeighborKey>,
) -> bool {
    forall|ci: int, cj: int|
        #![trigger conns[ci], conns[cj]]
        0 <= ci < conns.len() && 0 <= cj < conns.len() && !conns[ci].stats.outbound
            && !preserve.contains(conns[ci].event_id) && !conns[cj].stats.outbound
            && !preserve.contains(conns[cj].event_id) && conns[ci].key.addrbytes
            == conns[cj].key.addrbytes && r.contains(conns[ci].key) && !r.contains(conns[cj].key)
            ==> conns[cj].stats.first_contact_time <= conns[ci].stats.first_contact_time
}

/// Every inbound, non-preserved connection of an IP appears among that IP's
/// members.
pub proof fn lemma_ip_members_complete(
    conns: Seq<ConnEntry>,
    preserve: Seq<u64>,
    addr: u128,
    ci: int,
)
    requires
        0 <= ci < conns.len(),
        is_ip_member(conns[ci], preserve, addr),
    ensures
        ip_members(conns, preserve, addr).contains((conns[ci].key, conns[ci].stats)),
    decreases conns.len(),
{
    let prefix = ip_members(conns.drop_last(), preserve, addr);
    let full = ip_members(conns, preserve, addr);
    if ci == conns.len() - 1 {
        assert(conns.last() == conns[ci]);
        assert(full[prefix.len() as int] == (conns[ci].key, conns[ci].stats));
    } else {
        assert(conns.drop_last()[ci] == conns[ci]);
        lemma_ip_members_complete(conns.drop_last(), preserve, addr, ci);
        let x = choose|x: int|
            0 <= x < prefix.len() && prefix[x] == (conns[ci].key, conns[ci].stats);
        assert(full[x] == prefix[x]);
    }
}

/// Every member of an IP bucket is backed by a live connection.
pub proof fn lemma_ip_members_elem(
    conns: Seq<ConnEntry>,
    preserve: Seq<u64>,
    addr: u128,
    m: NeighborInfo,
)
    requires
        ip_members(conns, preserve, addr).contains(m),
    ensures
        exists|ci: int|
            0 <= ci < conns.len() && (#[trigger] conns[ci]).key == m.0 && conns[ci].stats == m.1
                && is_ip_member(conns[ci], preserve, addr),
    decreases conns.len(),
{
    if conns.len() == 0 {
    } else {
        let prefix = ip_members(conns.drop_last(), preserve, addr);
        if is_ip_member(conns.last(), preserve, addr) && m == (
        conns.last().key,
        conns.last().stats,
        ) {
            assert(conns[conns.len() - 1] == conns.last());
        } else {
            let full = ip_members(conns, preserve, addr);
            let j = choose|j: int| 0 <= j < full.len() && full[j] == m;
            assert(prefix.contains(m)) by {
                assert(j < prefix.len());
                assert(prefix[j] == m);
            };
            lemma_ip_members_elem(conns.drop_last(), preserve, addr, m);
            let ci = choose|ci: int|
                0 <= ci < conns.drop_last().len() && (#[trigger] conns.drop_last()[ci]).key == m.0
                    && conns.drop_last()[ci].stats == m.1 && is_ip_member(
                    conns.drop_last()[ci],
                    preserve,
                    addr,
                );
            assert(conns[ci] == conns.drop_last()[ci]);
        }
    }
}

/// With unique connection keys, an IP bucket's members carry pairwise
/// distinct keys.
pub proof fn lemma_ip_members_distinct(conns: Seq<ConnEntry>, preserve: Seq<u64>, addr: u128)
    requires
        conn_keys_unique(conns),
    ensures
        distinct_info_keys(ip_members(conns, preserve, addr)),
    decreases conns.len(),
{
    if conns.len() == 0 {
    } else {
        assert(conn_keys_unique(conns.drop_last())) by {
            assert(forall|k: int|
                0 <= k < conns.drop_last().len() ==> conns.drop_last()[k] == conns[k]);
        };
        lemma_ip_members_distinct(conns.drop_last(), preserve, addr);
        let prefix = ip_members(conns.drop_last(), preserve, addr);
        let full = ip_members(conns, preserve, addr);
        if is_ip_member(conns.last(), preserve, addr) {
            assert forall|a: int| 0 <= a < prefix.len() implies prefix[a].0 != conns.last().key by {
                assert(prefix.contains(prefix[a]));
                lemma_ip_members_elem(conns.drop_last(), preserve, addr, prefix[a]);
                let ci = choose|ci: int|
                    0 <= ci < conns.drop_last().len() && (#[trigger] conns.drop_last()[ci]).key
                        == prefix[a].0 && conns.drop_last()[ci].stats == prefix[a].1
                        && is_ip_member(conns.drop_last()[ci], preserve, addr);
                assert(conns[ci] == conns.drop_last()[ci]);
                assert(conns[ci].key != conns[conns.len() - 1].key);
            };
            assert(forall|a: int| 0 <= a < prefix.len() ==> full[a] == prefix[a]);
        }
    }
}

/// Removing one connection shrinks an IP's membership by one exactly when
/// that connection counted against the IP.
pub proof fn lemma_ip_members_remove(conns: Seq<ConnEntry>, preserve: Seq<u64>, addr: u128, i: int)
    requires
        0 <= i < conns.len(),
    ensures
        ip_members(conns.remove(i), preserve, addr).len() == ip_members(
            conns,
            preserve,
            addr,
        ).len() - (if is_ip_member(conns[i], preserve, addr) {
            1int
        } else {
            0int
        }),
    decreases conns.len(),
{
    if i == conns.len() - 1 {
        assert(conns.remove(i) =~= conns.drop_last());
    } else {
        assert(conns.remove(i).drop_last() =~= conns.drop_last().remove(i));
        assert(conns.remove(i).last() == conns.last());
        assert(conns.drop_last()[i] == conns[i]);
        lemma_ip_members_remove(conns.drop_last(), preserve, addr, i);
    }
}

proof fn lemma_removed_zero(r: Seq<NeighborKey>, addr: u128)
    requires
        removed_by_ip(r, addr) == 0,
    ensures
        forall|j: int| 0 <= j < r.len() ==> (#[trigger] r[j]).addrbytes != addr,
    decreases r.len(),
{
    if r.len() > 0 {
        lemma_removed_nonneg(r.drop_last(), addr);
        lemma_removed_zero(r.drop_last(), addr);
        assert(forall|j: int| 0 <= j < r.len() - 1 ==> r[j] == r.drop_last()[j]);
        assert(r[r.len() - 1] == r.last());
    }
}

proof fn lemma_removed_nonneg(r: Seq<NeighborKey>, addr: u128)
    ensures
        removed_by_ip(r, addr) >= 0,
    decreases r.len(),
{
    if r.len() > 0 {
        lemma_removed_nonneg(r.drop_last(), addr);
    }
}

/// Decides membership of an address in a list.
fn ip_list_contains(ips: &Vec<u128>, a: u128) -> (r: bool)
    ensures
        r == ips@.contains(a),
{
    let mut i: usize = 0;
    while i < ips.len()
        invariant
            i <= ips.len(),
            forall|j: int| 0 <= j < i ==> ips@[j] != a,
        decreases ips.len() - i,
    {
        if ips[i] == a {
            return true;
        }
        i = i + 1;
    }
    false
}

impl PeerNetwork {
    /// Collects the inbound connections one IP address currently holds.
    fn collect_ip_members(&self, preserve: &Vec<u64>, addr: u128) -> (r: Vec<NeighborInfo>)
        ensures
            r@ == ip_members(self.conns@, preserve@, addr),
    {
        let mut out: Vec<NeighborInfo> = Vec::new();
        let mut i: usize = 0;
        proof {
            assert(self.conns@.take(0) =~= Seq::<ConnEntry>::empty());
        }
        while i < self.conns.len()
            invariant
                i <= self.conns.len(),
                out@ == ip_members(self.conns@.take(i as int), preserve@, addr),
            decreases self.conns.len() - i,
        {
            proof {
                assert(self.conns@.take(i as int + 1).drop_last() =~= self.conns@.take(i as int));
                assert(self.conns@.take(i as int + 1).last() == self.conns@[i as int]);
            }
            let c = self.conns[i];
            let preserved = preserve_contains(preserve, c.event_id);
            if !c.stats.outbound && !preserved && c.key.addrbytes == addr {
                out.push((c.key, c.stats));
            }
            proof {
                assert(out@ =~= ip_members(self.conns@.take(i as int + 1), preserve@, addr));
            }
            i = i + 1;
        }
        proof {
            assert(self.conns@.take(self.conns@.len() as int) =~= self.conns@);
        }
        out
    }

    /// Prunes inbound peers that share an IP address: within each IP group,
    /// sorted oldest first, every connection beyond the per-host cap (the
    /// newest excess connections) is marked for removal. Longer-lived
    /// connections from a saturated host are kept; fresh churn is shed. A
    /// preserved connection is never returned, no key is returned twice, and
    /// below the inbound soft limit nothing is returned at all.
    #[verifier::rlimit(80)]
    pub fn prune_frontier_inbound_ip(&self, local_peer: &LocalPeer, preserve: &Vec<u64>) -> (r: Vec<
        NeighborKey,
    >)
        requires
            self.wf(),
        ensures
            distinct_keys(r@),
            inbound_sound(self.conns@, preserve@, r@),
            newest_shed_first(self.conns@, preserve@, r@),
            self.conns@.len() - count_outbound_spec(self.conns@) <= self.soft_num_clients
                ==> r@ == Seq::<NeighborKey>::empty(),
            self.conns@.len() - count_outbound_spec(self.conns@) > self.soft_num_clients
                ==> forall|addr: u128|
                removed_by_ip(r@, addr) == excess_for(
                    self.conns@,
                    preserve@,
                    self.soft_max_clients_per_host,
                    addr,
                ),
    {
        let total = self.conns.len() as u64;
        let outb = Self::count_outbound_conversations(&self.conns);
        proof {
            lemma_count_outbound_bounds(self.conns@);
        }
        let num_inbound = total - outb;
        if num_inbound <= self.soft_num_clients {
            return Vec::new();
        }

        let cap = self.soft_max_clients_per_host;

        // first pass: the distinct IP addresses holding inbound connections
        let mut ips: Vec<u128> = Vec::new();
        let mut i: usize = 0;
        proof {
            assert(self.conns@.take(0) =~= Seq::<ConnEntry>::empty());
        }
        while i < self.conns.len()
            invariant
                i <= self.conns.len(),
                forall|a: int, b: int|
                    0 <= a < b < ips@.len() ==> (#[trigger] ips@[a]) != (#[trigger] ips@[b]),
                forall|a: u128|
                    ips@.contains(a) <==> ip_members(
                        self.conns@.take(i as int),
                        preserve@,
                        a,
                    ).len() > 0,
            decreases self.conns.len() - i,
        {
            let ghost tk0 = self.conns@.take(i as int);
            let ghost tk1 = self.conns@.take(i as int + 1);
            proof {
                assert(tk1.drop_last() =~= tk0);
                assert(tk1.last() == self.conns@[i as int]);
            }
            let c = self.conns[i];
            let preserved = preserve_contains(preserve, c.event_id);
            if !c.stats.outbound && !preserved {
                let a0 = c.key.addrbytes;
                proof {
                    assert forall|a: u128|
                        ip_members(tk1, preserve@, a) == ip_members(tk0, preserve@, a) + (if a
                            == a0 {
                            seq![(c.key, c.stats)]
                        } else {
                            Seq::<NeighborInfo>::empty()
                        }) by {
                        if a == a0 {
                            assert(is_ip_member(c, preserve@, a));
                        } else {
                            assert(!is_ip_member(c, preserve@, a));
                        }
                    };
                    assert forall|a: u128| a != a0 implies ip_members(tk1, preserve@, a)
                        =~= ip_members(tk0, preserve@, a) by {};
                    assert(ip_members(tk1, preserve@, a0).len() == ip_members(
                        tk0,
                        preserve@,
                        a0,
                    ).len() + 1);
                }
                if !ip_list_contains(&ips, a0) {
                    let ghost prev_ips = ips@;
                    ips.push(a0);
                    proof {
                        assert(ips@[ips@.len() - 1] == a0);
                        assert(forall|k: int| 0 <= k < prev_ips.len() ==> ips@[k] == prev_ips[k]);
                        assert forall|a: u128|
                            ips@.contains(a) <==> ip_members(tk1, preserve@, a).len() > 0 by {
                            if a == a0 {
                                assert(ips@.contains(a));
                            } else {
                                assert forall|j: int|
                                    0 <= j < ips@.len() && ips@[j] == a implies prev_ips.contains(
                                    a,
                                ) by {
                                    assert(j < prev_ips.len());
                                    assert(prev_ips[j] == a);
                                };
                                assert(prev_ips.contains(a) ==> ips@.contains(a));
                            }
                        };
                        assert forall|a: int, b: int|
                            0 <= a < b < ips@.len() implies (#[trigger] ips@[a]) != (
                        #[trigger] ips@[b]) by {
                            if b == ips@.len() - 1 {
                                assert(!prev_ips.contains(a0));
                                assert(prev_ips[a] == ips@[a]);
                                assert(prev_ips.contains(prev_ips[a]));
                            }
                        };
                    }
                } else {
                    proof {
                        assert forall|a: u128|
                            ips@.contains(a) <==> ip_members(tk1, preserve@, a).len() > 0 by {
                            if a == a0 {
                                assert(ips@.contains(a));
                            }
                        };
                    }
                }
            } else {
                proof {
                    assert forall|a: u128|
                        ips@.contains(a) <==> ip_members(tk1, preserve@, a).len() > 0 by {
                        assert(!is_ip_member(c, preserve@, a));
                        assert(ip_members(tk1, preserve@, a) == ip_members(tk0, preserve@, a)
                            + Seq::<NeighborInfo>::empty());
                        assert(ip_members(tk1, preserve@, a) =~= ip_members(tk0, preserve@, a));
                    };
                }
            }
            i = i + 1;
        }
        proof {
            assert(self.conns@.take(self.conns@.len() as int) =~= self.conns@);
        }

        // second pass: within each group, oldest first, shed everything
        // beyond the cap
        let mut to_remove: Vec<NeighborKey> = Vec::new();
        let mut k: usize = 0;
        while k < ips.len()
            invariant
                k <= ips.len(),
                self.wf(),
                forall|a: int, b: int|
                    0 <= a < b < ips@.len() ==> (#[trigger] ips@[a]) != (#[trigger] ips@[b]),
                forall|a: u128|
                    ips@.contains(a) <==> ip_members(self.conns@, preserve@, a).len() > 0,
                distinct_keys(to_remove@),
                inbound_sound(self.conns@, preserve@, to_remove@),
                newest_shed_first(self.conns@, preserve@, to_remove@),
                forall|a: u128|
                    ips@.take(k as int).contains(a) ==> removed_by_ip(to_remove@, a) == excess_for(
                        self.conns@,
                        preserve@,
                        cap,
                        a,
                    ),
                forall|a: u128|
                    !ips@.take(k as int).contains(a) ==> removed_by_ip(to_remove@, a) == 0,
            decreases ips.len() - k,
        {
            let addr = ips[k];
            proof {
                assert(ips@.contains(ips@[k as int]));
                assert forall|j: int| 0 <= j < k implies ips@[j] != addr by {};
                assert(!ips@.take(k as int).contains(addr)) by {
                    if ips@.take(k as int).contains(addr) {
                        let j = choose|j: int|
                            0 <= j < k && ips@.take(k as int)[j] == addr;
                        assert(ips@[j] == addr);
                    }
                };
            }
            let members = self.collect_ip_members(preserve, addr);
            proof {
                lemma_ip_members_distinct(self.conns@, preserve@, addr);
            }
            let sorted = sort_by_first_contact(&members);
            proof {
                assert forall|j: int|
                    0 <= j < sorted@.len() implies (#[trigger] sorted@[j]).0.addrbytes == addr
                        && exists|ci: int|
                        0 <= ci < self.conns@.len() && (#[trigger] self.conns@[ci]).key
                            == sorted@[j].0 && !self.conns@[ci].stats.outbound
                            && !preserve@.contains(self.conns@[ci].event_id) by {
                    vstd::seq_lib::to_multiset_contains(sorted@, sorted@[j]);
                    vstd::seq_lib::to_multiset_contains(members@, sorted@[j]);
                    lemma_ip_members_elem(self.conns@, preserve@, addr, sorted@[j]);
                };
            }
            let ghost ret0 = to_remove@;
            let mlen = sorted.len();
            if (mlen as u64) > cap {
                let start = cap as usize;
                let mut j: usize = start;
                while j < mlen
                    invariant
                        start <= j <= mlen,
                        mlen == sorted@.len(),
                        start == cap,
                        (mlen as u64) > cap,
                        distinct_info_keys(sorted@),
                        forall|x: int|
                            0 <= x < sorted@.len() ==> (#[trigger] sorted@[x]).0.addrbytes == addr
                                && exists|ci: int|
                                0 <= ci < self.conns@.len() && (#[trigger] self.conns@[ci]).key
                                    == sorted@[x].0 && !self.conns@[ci].stats.outbound
                                    && !preserve@.contains(self.conns@[ci].event_id),
                        to_remove@.len() == ret0.len() + (j - start),
                        forall|x: int| 0 <= x < ret0.len() ==> to_remove@[x] == ret0[x],
                        forall|x: int|
                            ret0.len() <= x < to_remove@.len() ==> to_remove@[x] == sorted@[
                                x - ret0.len() + start
                            ].0,
                        distinct_keys(to_remove@),
                        removed_by_ip(ret0, addr) == 0,
                        removed_by_ip(to_remove@, addr) == j - start,
                        forall|a: u128|
                            a != addr ==> removed_by_ip(to_remove@, a) == removed_by_ip(ret0, a),
                        inbound_sound(self.conns@, preserve@, to_remove@),
                    decreases mlen - j,
                {
                    let kk = sorted[j].0;
                    let ghost prev_ret = to_remove@;
                    to_remove.push(kk);
                    proof {
                        assert(to_remove@.drop_last() =~= prev_ret);
                        assert(to_remove@.last() == kk);
                        assert forall|a: u128| a != addr implies removed_by_ip(to_remove@, a)
                            == removed_by_ip(prev_ret, a) by {};
                        lemma_removed_zero(ret0, addr);
                        assert(inbound_sound(self.conns@, preserve@, to_remove@)) by {
                            assert forall|idx: int|
                                #![trigger to_remove@[idx]]
                                0 <= idx < to_remove@.len() implies exists|ci: int|
                                0 <= ci < self.conns@.len() && (#[trigger] self.conns@[ci]).key
                                    == to_remove@[idx] && !self.conns@[ci].stats.outbound
                                    && !preserve@.contains(self.conns@[ci].event_id) by {
                                if idx < prev_ret.len() {
                                    assert(to_remove@[idx] == prev_ret[idx]);
                                } else {
                                    assert(to_remove@[idx] == kk);
                                    assert(sorted@[j as int].0 == kk);
                                }
                            };
                        };
                        assert forall|x: int| 0 <= x < prev_ret.len() implies prev_ret[x] != kk by {
                            if x < ret0.len() {
                                assert(prev_ret[x] == ret0[x]);
                                assert(ret0[x].addrbytes != addr);
                            } else {
                                assert(prev_ret[x] == sorted@[x - ret0.len() + start].0);
                                assert(x - ret0.len() + start < j);
                            }
                        };
                    }
                    j = j + 1;
                }
                proof {
                    assert forall|ci: int, cj: int|
                        #![trigger self.conns@[ci], self.conns@[cj]]
                        0 <= ci < self.conns@.len() && 0 <= cj < self.conns@.len()
                            && !self.conns@[ci].stats.outbound && !preserve@.contains(
                            self.conns@[ci].event_id,
                        ) && !self.conns@[cj].stats.outbound && !preserve@.contains(
                            self.conns@[cj].event_id,
                        ) && self.conns@[ci].key.addrbytes == self.conns@[cj].key.addrbytes
                            && to_remove@.contains(self.conns@[ci].key) && !to_remove@.contains(
                            self.conns@[cj].key,
                        ) implies self.conns@[cj].stats.first_contact_time
                        <= self.conns@[ci].stats.first_contact_time by {
                        let key_i = self.conns@[ci].key;
                        let key_j = self.conns@[cj].key;
                        let y = choose|y: int|
                            0 <= y < to_remove@.len() && to_remove@[y] == key_i;
                        if key_i.addrbytes == addr {
                            lemma_removed_zero(ret0, addr);
                            assert(y >= ret0.len()) by {
                                if y < ret0.len() {
                                    assert(to_remove@[y] == ret0[y]);
                                    assert(ret0[y].addrbytes != addr);
                                }
                            };
                            let yp = y - ret0.len() + start;
                            assert(to_remove@[y] == sorted@[yp].0);
                            lemma_ip_members_complete(self.conns@, preserve@, addr, ci);
                            vstd::seq_lib::to_multiset_contains(
                                members@,
                                (self.conns@[ci].key, self.conns@[ci].stats),
                            );
                            vstd::seq_lib::to_multiset_contains(
                                sorted@,
                                (self.conns@[ci].key, self.conns@[ci].stats),
                            );
                            let p = choose|p: int|
                                0 <= p < sorted@.len() && sorted@[p] == (
                                self.conns@[ci].key,
                                self.conns@[ci].stats,
                                );
                            assert(p == yp);
                            lemma_ip_members_complete(self.conns@, preserve@, addr, cj);
                            vstd::seq_lib::to_multiset_contains(
                                members@,
                                (self.conns@[cj].key, self.conns@[cj].stats),
                            );
                            vstd::seq_lib::to_multiset_contains(
                                sorted@,
                                (self.conns@[cj].key, self.conns@[cj].stats),
                            );
                            let q = choose|q: int|
                                0 <= q < sorted@.len() && sorted@[q] == (
                                self.conns@[cj].key,
                                self.conns@[cj].stats,
                                );
                            assert(q < start) by {
                                if q >= start {
                                    let z = q - start + ret0.len();
                                    assert(to_remove@[z] == sorted@[q].0);
                                    assert(to_remove@.contains(key_j));
                                }
                            };
                            assert(sorted@[q].1.first_contact_time
                                <= sorted@[p].1.first_contact_time);
                        } else {
                            assert(y < ret0.len()) by {
                                if y >= ret0.len() {
                                    assert(to_remove@[y] == sorted@[y - ret0.len() + start].0);
                                    assert(sorted@[y - ret0.len() + start].0.addrbytes == addr);
                                }
                            };
                            assert(ret0[y] == key_i);
                            assert(ret0.contains(key_i));
                            assert(!ret0.contains(key_j)) by {
                                if ret0.contains(key_j) {
                                    let z = choose|z: int|
                                        0 <= z < ret0.len() && #[trigger] ret0[z] == key_j;
                                    assert(to_remove@[z] == key_j);
                                    assert(to_remove@.contains(key_j));
                                }
                            };
                        }
                    };
                    assert(newest_shed_first(self.conns@, preserve@, to_remove@));
                }
            }
            proof {
                if (mlen as u64) > cap {
                    assert(removed_by_ip(to_remove@, addr) == mlen - cap);
                    assert(excess_for(self.conns@, preserve@, cap, addr) == mlen - cap);
                } else {
                    assert(removed_by_ip(to_remove@, addr) == 0);
                    assert(excess_for(self.conns@, preserve@, cap, addr) == 0);
                }
                assert(ips@.take(k as int + 1).drop_last() =~= ips@.take(k as int));
                assert(ips@.take(k as int + 1).last() == addr);
                assert forall|a: u128| ips@.take(k as int + 1).contains(a) implies (ips@.take(
                    k as int,
                ).contains(a) || a == addr) by {
                    let j = choose|j: int|
                        0 <= j < ips@.take(k as int + 1).len() && #[trigger] ips@.take(
                            k as int + 1,
                        )[j] == a;
                    if j < k {
                        assert(ips@.take(k as int)[j] == a);
                    }
                };
                assert(forall|a: u128|
                    ips@.take(k as int).contains(a) ==> ips@.take(k as int + 1).contains(a));
                assert(ips@.take(k as int + 1).contains(addr));
                assert forall|a: u128| ips@.take(k as int + 1).contains(a) implies removed_by_ip(
                    to_remove@,
                    a,
                ) == excess_for(self.conns@, preserve@, cap, a) by {
                    if a != addr {
                        assert(ips@.take(k as int).contains(a));
                        assert(removed_by_ip(to_remove@, a) == removed_by_ip(ret0, a));
                    }
                };
                assert forall|a: u128| !ips@.take(k as int + 1).contains(a) implies removed_by_ip(
                    to_remove@,
                    a,
                ) == 0 by {
                    assert(!ips@.take(k as int).contains(a));
                    assert(a != addr);
                    assert(removed_by_ip(to_remove@, a) == removed_by_ip(ret0, a));
                };
            }
            k = k + 1;
        }
        proof {
            assert(ips@.take(ips@.len() as int) =~= ips@);
            assert forall|addr: u128|
                removed_by_ip(to_remove@, addr) == excess_for(
                    self.conns@,
                    preserve@,
                    cap,
                    addr,
                ) by {
                if !ips@.contains(addr) {
                    assert(ip_members(self.conns@, preserve@, addr).len() == 0);
                }
            };
        }
        to_remove
    }
}

} // verus!
