use frontier_prune::network::PeerNetwork;
use frontier_prune::peerdb::{PeerDb, PeerRecord};
use frontier_prune::sampler::{pick_weighted, sample_org_by_neighbor_count};
use frontier_prune::telemetry::get_count;
use frontier_prune::types::{ConnEntry, LocalPeer, NeighborKey, NetError, NeighborStats};
use frontier_prune::uptime::{compare_neighbor_uptime_health, uptime_bucket_exec, RankOrdering};

fn key(addr: u128, port: u16) -> NeighborKey {
    NeighborKey { network_id: 1, addrbytes: addr, port }
}

fn conn(event_id: u64, addr: u128, port: u16, outbound: bool, fct: u64, health: u64) -> ConnEntry {
    ConnEntry {
        event_id,
        key: key(addr, port),
        stats: NeighborStats { outbound, first_contact_time: fct, health_score: health },
    }
}

fn local() -> LocalPeer {
    LocalPeer { network_id: 1, port: 4000 }
}

fn network(conns: Vec<ConnEntry>, records: Vec<PeerRecord>, faulted: bool) -> PeerNetwork {
    PeerNetwork {
        conns,
        soft_num_neighbors: 10,
        soft_max_neighbors_per_org: 3,
        soft_num_clients: 10,
        soft_max_clients_per_host: 2,
        prune_inbound_counts: Vec::new(),
        prune_outbound_counts: Vec::new(),
        peerdb: PeerDb { faulted, records },
    }
}

#[test]
fn uptime_bucket_values() {
    assert_eq!(uptime_bucket_exec(0), 0);
    assert_eq!(uptime_bucket_exec(1), 0);
    assert_eq!(uptime_bucket_exec(2), 1);
    assert_eq!(uptime_bucket_exec(3), 2);
    assert_eq!(uptime_bucket_exec(4), 2);
    assert_eq!(uptime_bucket_exec(5), 2);
    assert_eq!(uptime_bucket_exec(6), 3);
    assert_eq!(uptime_bucket_exec(11), 3);
    assert_eq!(uptime_bucket_exec(12), 4);
    assert_eq!(uptime_bucket_exec(1 << 20), 20);
}

#[test]
fn comparator_orders_by_bucket_then_health() {
    let now = 1000;
    let young = NeighborStats { outbound: true, first_contact_time: 999, health_score: 90 };
    let old_ = NeighborStats { outbound: true, first_contact_time: 0, health_score: 10 };
    assert_eq!(compare_neighbor_uptime_health(now, &young, &old_), RankOrdering::Less);
    assert_eq!(compare_neighbor_uptime_health(now, &old_, &young), RankOrdering::Greater);
    let sick = NeighborStats { outbound: true, first_contact_time: 0, health_score: 5 };
    assert_eq!(compare_neighbor_uptime_health(now, &sick, &old_), RankOrdering::Less);
    assert_eq!(compare_neighbor_uptime_health(now, &old_, &old_), RankOrdering::Equal);
}

#[test]
fn pick_weighted_walks_intervals_and_skips_zero() {
    let w = vec![(1u32, 2u64), (2, 0), (3, 3)];
    assert_eq!(pick_weighted(&w, 0), 1);
    assert_eq!(pick_weighted(&w, 1), 1);
    assert_eq!(pick_weighted(&w, 2), 3);
    assert_eq!(pick_weighted(&w, 3), 3);
    assert_eq!(pick_weighted(&w, 4), 3);
}

#[test]
fn sampler_single_entry_always_wins() {
    let w = vec![(7u32, 5u64)];
    for _ in 0..100 {
        assert_eq!(sample_org_by_neighbor_count(&w), 7);
    }
}

#[test]
fn weighted_sampler_distribution() {
    let w = vec![(1u32, 1u64), (2, 3)];
    let n = 100_000;
    let mut b_hits = 0u64;
    for _ in 0..n {
        if sample_org_by_neighbor_count(&w) == 2 {
            b_hits += 1;
        }
    }
    let ratio = b_hits as f64 / n as f64;
    assert!(ratio > 0.70 && ratio < 0.80, "ratio was {}", ratio);
}

#[test]
fn inbound_pruner_sheds_newest_beyond_host_cap() {
    // one IP, contact times 100..400, cap 2: exactly the two newest go
    let conns = vec![
        conn(1, 0xAA, 1, false, 100, 0),
        conn(2, 0xAA, 2, false, 200, 0),
        conn(3, 0xAA, 3, false, 300, 0),
        conn(4, 0xAA, 4, false, 400, 0),
    ];
    let mut net = network(conns, Vec::new(), false);
    net.soft_num_clients = 2;
    let removed = net.prune_frontier_inbound_ip(&local(), &Vec::new());
    let mut ports: Vec<u16> = removed.iter().map(|k| k.port).collect();
    ports.sort();
    assert_eq!(ports, vec![3, 4]);
}

#[test]
fn inbound_pruner_noop_below_soft_limit() {
    let conns = vec![
        conn(1, 0xAA, 1, false, 100, 0),
        conn(2, 0xAA, 2, false, 200, 0),
        conn(3, 0xAA, 3, false, 300, 0),
    ];
    let net = network(conns, Vec::new(), false);
    // three inbound connections, soft limit ten: nothing to relieve
    let removed = net.prune_frontier_inbound_ip(&local(), &Vec::new());
    assert!(removed.is_empty());
}

fn org_overload() -> (Vec<ConnEntry>, Vec<PeerRecord>) {
    // five organizations, four outbound connections each
    let mut conns = Vec::new();
    let mut records = Vec::new();
    let mut ev = 1u64;
    for org in 1u32..=5 {
        for m in 0u16..4 {
            let addr = (org as u128) * 0x100 + m as u128;
            conns.push(conn(ev, addr, 100 + m, true, 50 * ev, ev % 7));
            records.push(PeerRecord { key: key(addr, 100 + m), org });
            ev += 1;
        }
    }
    (conns, records)
}

#[test]
fn outbound_pruner_converges_to_target_and_org_caps() {
    let (conns, records) = org_overload();
    let mut net = network(conns, records.clone(), false);
    net.soft_num_neighbors = 10;
    net.soft_max_neighbors_per_org = 3;
    let removed = net
        .prune_frontier_outbound_orgs(&local(), &Vec::new(), 10_000)
        .unwrap();
    // 20 outbound against a target of 10: exactly 10 go
    assert_eq!(removed.len(), 10);
    // no key goes twice
    let mut uniq = removed.clone();
    uniq.sort_by_key(|k| (k.addrbytes, k.port));
    uniq.dedup();
    assert_eq!(uniq.len(), 10);
    // hard trim brings every organization to three; sampling only shrinks,
    // so no organization keeps more than three
    for org in 1u32..=5 {
        let pruned_here = removed
            .iter()
            .filter(|k| records.iter().any(|r| r.key == **k && r.org == org))
            .count();
        assert!(4 - pruned_here <= 3, "org {} kept too many", org);
        assert!(pruned_here >= 1);
    }
}

#[test]
fn outbound_pruner_noop_below_soft_limit() {
    let (conns, records) = org_overload();
    let mut net = network(conns, records, false);
    net.soft_num_neighbors = 30;
    let removed = net
        .prune_frontier_outbound_orgs(&local(), &Vec::new(), 10_000)
        .unwrap();
    assert!(removed.is_empty());
}

#[test]
fn outbound_pruner_propagates_database_error() {
    let (conns, records) = org_overload();
    let mut net = network(conns, records, true);
    net.soft_num_neighbors = 10;
    let r = net.prune_frontier_outbound_orgs(&local(), &Vec::new(), 10_000);
    assert_eq!(r, Err(NetError::DbError));
}

#[test]
fn distribution_reports_database_error() {
    let (conns, records) = org_overload();
    let net = network(conns, records, true);
    assert!(net.org_neighbor_distribution(&Vec::new()).is_err());
}

#[test]
fn preserve_set_is_never_evicted() {
    let (mut conns, records) = org_overload();
    // inbound overload from one host on top
    conns.push(conn(100, 0xEE, 1, false, 100, 0));
    conns.push(conn(101, 0xEE, 2, false, 200, 0));
    conns.push(conn(102, 0xEE, 3, false, 300, 0));
    conns.push(conn(103, 0xEE, 4, false, 400, 0));
    let mut net = network(conns, records, false);
    net.soft_num_clients = 2;
    // preserve the newest inbound connection and one outbound candidate
    let preserve = vec![103u64, 1u64];
    let mut netc = net;
    netc.prune_frontier(&local(), &preserve, 10_000);
    assert!(netc.conns.iter().any(|c| c.event_id == 103));
    assert!(netc.conns.iter().any(|c| c.event_id == 1));
}

#[test]
fn prune_frontier_noop_below_thresholds() {
    let conns = vec![
        conn(1, 0xAA, 1, false, 100, 0),
        conn(2, 0xBB, 2, true, 200, 0),
    ];
    let records = vec![PeerRecord { key: key(0xBB, 2), org: 1 }];
    let mut net = network(conns.clone(), records, false);
    net.prune_frontier(&local(), &Vec::new(), 10_000);
    assert_eq!(net.conns, conns);
    assert!(net.prune_inbound_counts.is_empty());
    assert!(net.prune_outbound_counts.is_empty());
}

#[test]
fn no_double_eviction_across_paths() {
    let (mut conns, records) = org_overload();
    conns.push(conn(100, 0xEE, 1, false, 100, 0));
    conns.push(conn(101, 0xEE, 2, false, 200, 0));
    conns.push(conn(102, 0xEE, 3, false, 300, 0));
    let mut net = network(conns, records, false);
    net.soft_num_clients = 1;
    net.prune_frontier(&local(), &Vec::new(), 10_000);
    // a key counted by one path is never counted by the other in one pass
    for (k, n) in net.prune_inbound_counts.iter() {
        assert!(*n >= 1);
        assert_eq!(get_count(&net.prune_outbound_counts, k), 0);
    }
    for (k, n) in net.prune_outbound_counts.iter() {
        assert!(*n >= 1);
        assert_eq!(get_count(&net.prune_inbound_counts, k), 0);
    }
}

#[test]
fn telemetry_increments_by_one_per_pass() {
    let extra = vec![
        conn(100, 0xEE, 1, false, 100, 0),
        conn(101, 0xEE, 2, false, 200, 0),
        conn(102, 0xEE, 3, false, 300, 0),
    ];
    let mut net = network(extra.clone(), Vec::new(), false);
    net.soft_num_clients = 1;
    net.prune_frontier(&local(), &Vec::new(), 10_000);
    let victim = key(0xEE, 3);
    assert_eq!(get_count(&net.prune_inbound_counts, &victim), 1);
    // the same neighbor reconnects and is pruned again: strictly one more
    net.conns = extra;
    net.prune_frontier(&local(), &Vec::new(), 10_000);
    assert_eq!(get_count(&net.prune_inbound_counts, &victim), 2);
}

#[test]
fn dump_peer_table_sorts_and_partitions() {
    let conns = vec![
        conn(1, 0xCC, 1, false, 100, 0),
        conn(2, 0xAA, 2, true, 200, 0),
        conn(3, 0xBB, 3, false, 300, 0),
        conn(4, 0x11, 4, true, 400, 0),
    ];
    let net = network(conns, Vec::new(), false);
    let (inbound, outbound) = net.dump_peer_table();
    let in_addrs: Vec<u128> = inbound.iter().map(|k| k.addrbytes).collect();
    let out_addrs: Vec<u128> = outbound.iter().map(|k| k.addrbytes).collect();
    assert_eq!(in_addrs, vec![0xBB, 0xCC]);
    assert_eq!(out_addrs, vec![0x11, 0xAA]);
}

#[test]
fn frontier_size_reports_store_state() {
    let db = PeerDb { faulted: false, records: vec![PeerRecord { key: key(1, 1), org: 9 }] };
    assert_eq!(db.get_frontier_size(), Ok(1));
    let bad = PeerDb { faulted: true, records: Vec::new() };
    assert_eq!(bad.get_frontier_size(), Err(NetError::DbError));
    assert_eq!(db.get_peer_org(&key(1, 1)), Ok(Some(9)));
    assert_eq!(db.get_peer_org(&key(2, 1)), Ok(None));
}

#[test]
fn prune_frontier_empty_table_is_noop() {
    let mut net = network(Vec::new(), Vec::new(), false);
    net.prune_frontier(&local(), &Vec::new(), 10_000);
    assert!(net.conns.is_empty());
    assert!(net.prune_inbound_counts.is_empty());
    assert!(net.prune_outbound_counts.is_empty());
}

#[test]
fn outbound_hard_trim_evicts_worst_ranked_first() {
    // one organization holding four outbound connections, one over target:
    // the newest, least healthy connection goes
    let now = 10_000u64;
    let conns = vec![
        conn(1, 0x10, 1, true, 100, 50),
        conn(2, 0x11, 2, true, 120, 60),
        conn(3, 0x12, 3, true, 9_990, 1),
        conn(4, 0x13, 4, true, 140, 70),
    ];
    let records = vec![
        PeerRecord { key: key(0x10, 1), org: 1 },
        PeerRecord { key: key(0x11, 2), org: 1 },
        PeerRecord { key: key(0x12, 3), org: 1 },
        PeerRecord { key: key(0x13, 4), org: 1 },
    ];
    let mut net = network(conns, records, false);
    net.soft_num_neighbors = 3;
    net.soft_max_neighbors_per_org = 3;
    let removed = net
        .prune_frontier_outbound_orgs(&local(), &Vec::new(), now)
        .unwrap();
    // the connection established at 9990 has the smallest uptime bucket
    assert_eq!(removed, vec![key(0x12, 3)]);
}

#[test]
fn faulted_store_leaves_outbound_side_untouched() {
    // outbound overload and inbound overload at once, but the store is down:
    // only the inbound path does its work
    let (mut conns, records) = org_overload();
    conns.push(conn(100, 0xEE, 1, false, 100, 0));
    conns.push(conn(101, 0xEE, 2, false, 200, 0));
    conns.push(conn(102, 0xEE, 3, false, 300, 0));
    let mut net = network(conns, records, true);
    net.soft_num_clients = 1;
    net.prune_frontier(&local(), &Vec::new(), 10_000);
    // all twenty outbound connections survive; outbound telemetry is empty
    assert_eq!(net.conns.iter().filter(|c| c.stats.outbound).count(), 20);
    assert!(net.prune_outbound_counts.is_empty());
    // the inbound path still shed the newest client beyond the host cap
    assert!(!net.prune_inbound_counts.is_empty());
}
