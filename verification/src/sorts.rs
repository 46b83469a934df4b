use vstd::prelude::*;
use vstd::seq_lib::group_to_multiset_ensures;
use crate::types::{key_le, key_le_exec, NeighborKey, NeighborStats};
use crate::uptime::{evict_rank, evict_rank_exec};

verus! {

/// A neighbor together with the statistics it is ranked by.
pub type NeighborInfo = (NeighborKey, NeighborStats);

/// Ascending evict-first order: the connection at index 0 is the best
/// eviction candidate.
pub open spec fn sorted_by_evict_rank(now: u64, s: Seq<NeighborInfo>) -> bool {
    forall|a: int, b: int|
        0 <= a < b < s.len() ==> evict_rank(now, #[trigger] s[a].1) <= evict_rank(
            now,
            #[trigger] s[b].1,
        )
}

/// Ascending order by first-contact time: oldest connection first.
pub open spec fn sorted_by_contact_time(s: Seq<NeighborInfo>) -> bool {
    forall|a: int, b: int|
        0 <= a < b < s.len() ==> (#[trigger] s[a]).1.first_contact_time
            <= (#[trigger] s[b]).1.first_contact_time
}

/// Ascending order by the total order on neighbor keys.
pub open spec fn sorted_by_key(s: Seq<NeighborKey>) -> bool {
    forall|a: int, b: int| 0 <= a < b < s.len() ==> key_le(#[trigger] s[a], #[trigger] s[b])
}

/// No two entries name the same neighbor key.
pub open spec fn distinct_info_keys(s: Seq<NeighborInfo>) -> bool {
    forall|a: int, b: int| 0 <= a < b < s.len() ==> (#[trigger] s[a]).0 != (#[trigger] s[b]).0
}

fn evict_insertion_point(now: u64, out: &Vec<NeighborInfo>, rx: u128) -> (i: usize)
    ensures
        i <= out.len(),
        forall|j: int| 0 <= j < i ==> evict_rank(now, #[trigger] out@[j].1) <= rx,
        i < out.len() ==> evict_rank(now, out@[i as int].1) > rx,
{
    let mut i: usize = 0;
    while i < out.len()
        invariant
            i <= out.len(),
            forall|j: int| 0 <= j < i ==> evict_rank(now, #[trigger] out@[j].1) <= rx,
        decreases out.len() - i,
    {
        let ri = evict_rank_exec(now, &out[i].1);
        if ri > rx {
            return i;
        }
        i = i + 1;
    }
    i
}

/// Sorts a neighbor list ascending by uptime bucket and health: the returned
/// list is a permutation of the input whose front holds the worst-to-keep
/// connections.
pub fn sort_neighbor_infos(now: u64, v: &Vec<NeighborInfo>) -> (r: Vec<NeighborInfo>)
    ensures
        r@.to_multiset() == v@.to_multiset(),
        sorted_by_evict_rank(now, r@),
        r@.len() == v@.len(),
        distinct_info_keys(v@) ==> distinct_info_keys(r@),
{
    broadcast use group_to_multiset_ensures;

    let mut out: Vec<NeighborInfo> = Vec::new();
    let mut idx: usize = 0;
    proof {
        assert(v@.take(0) =~= Seq::<NeighborInfo>::empty());
        assert(out@.to_multiset() =~= v@.take(0).to_multiset());
    }
    while idx < v.len()
        invariant
            idx <= v.len(),
            out@.len() == idx,
            out@.to_multiset() == v@.take(idx as int).to_multiset(),
            sorted_by_evict_rank(now, out@),
            distinct_info_keys(v@) ==> distinct_info_keys(out@),
        decreases v.len() - idx,
    {
        let x = v[idx];
        let rx = evict_rank_exec(now, &x.1);
        let i = evict_insertion_point(now, &out, rx);
        let ghost prev = out@;
        out.insert(i, x);
        proof {
            assert(out@ == prev.insert(i as int, x));
            assert(v@.take(idx as int + 1) =~= v@.take(idx as int).push(x));
            vstd::seq_lib::to_multiset_insert(prev, i as int, x);
            vstd::seq_lib::to_multiset_build(v@.take(idx as int), x);
            assert(out@.to_multiset() == v@.take(idx as int + 1).to_multiset());
            assert forall|a: int, b: int| 0 <= a < b < out@.len() implies evict_rank(
                now,
                #[trigger] out@[a].1,
            ) <= evict_rank(now, #[trigger] out@[b].1) by {
                assert(forall|k: int| 0 <= k < i ==> out@[k] == prev[k]);
                assert(out@[i as int] == x);
                assert(forall|k: int| i < k < out@.len() ==> out@[k] == prev[k - 1]);
            };
            if distinct_info_keys(v@) {
                assert forall|c: int| 0 <= c < prev.len() implies prev[c].0 != x.0 by {
                    vstd::seq_lib::to_multiset_contains(prev, prev[c]);
                    vstd::seq_lib::to_multiset_contains(v@.take(idx as int), prev[c]);
                    let j = choose|j: int|
                        0 <= j < v@.take(idx as int).len() && v@.take(idx as int)[j] == prev[c];
                    assert(v@[j] == prev[c]);
                    assert(v@[j].0 != v@[idx as int].0);
                };
                assert forall|a: int, b: int| 0 <= a < b < out@.len() implies (#[trigger] out@[a]).0
                    != (#[trigger] out@[b]).0 by {
                    assert(forall|k: int| 0 <= k < i ==> out@[k] == prev[k]);
                    assert(out@[i as int] == x);
                    assert(forall|k: int| i < k < out@.len() ==> out@[k] == prev[k - 1]);
                };
            }
        }
        idx = idx + 1;
    }
    proof {
        assert(v@.take(v@.len() as int) =~= v@);
    }
    out
}

fn contact_insertion_point(out: &Vec<NeighborInfo>, t: u64) -> (i: usize)
    ensures
        i <= out.len(),
        forall|j: int| 0 <= j < i ==> (#[trigger] out@[j]).1.first_contact_time <= t,
        i < out.len() ==> out@[i as int].1.first_contact_time > t,
{
    let mut i: usize = 0;
    while i < out.len()
        invariant
            i <= out.len(),
            forall|j: int| 0 <= j < i ==> (#[trigger] out@[j]).1.first_contact_time <= t,
        decreases out.len() - i,
    {
        if out[i].1.first_contact_time > t {
            return i;
        }
        i = i + 1;
    }
    i
}

/// Sorts a neighbor list ascending by first-contact time (oldest first): the
/// returned list is a permutation of the input.
pub fn sort_by_first_contact(v: &Vec<NeighborInfo>) -> (r: Vec<NeighborInfo>)
    ensures
        r@.to_multiset() == v@.to_multiset(),
        sorted_by_contact_time(r@),
        r@.len() == v@.len(),
        distinct_info_keys(v@) ==> distinct_info_keys(r@),
{
    broadcast use group_to_multiset_ensures;

    let mut out: Vec<NeighborInfo> = Vec::new();
    let mut idx: usize = 0;
    proof {
        assert(v@.take(0) =~= Seq::<NeighborInfo>::empty());
        assert(out@.to_multiset() =~= v@.take(0).to_multiset());
    }
    while idx < v.len()
        invariant
            idx <= v.len(),
            out@.len() == idx,
            out@.to_multiset() == v@.take(idx as int).to_multiset(),
            sorted_by_contact_time(out@),
            distinct_info_keys(v@) ==> distinct_info_keys(out@),
        decreases v.len() - idx,
    {
        let x = v[idx];
        let i = contact_insertion_point(&out, x.1.first_contact_time);
        let ghost prev = out@;
        out.insert(i, x);
        proof {
            assert(out@ == prev.insert(i as int, x));
            assert(v@.take(idx as int + 1) =~= v@.take(idx as int).push(x));
            vstd::seq_lib::to_multiset_insert(prev, i as int, x);
            vstd::seq_lib::to_multiset_build(v@.take(idx as int), x);
            assert(out@.to_multiset() == v@.take(idx as int + 1).to_multiset());
            assert forall|a: int, b: int| 0 <= a < b < out@.len() implies (#[trigger] out@[a]).1.first_contact_time
                <= (#[trigger] out@[b]).1.first_contact_time by {
                assert(forall|k: int| 0 <= k < i ==> out@[k] == prev[k]);
                assert(out@[i as int] == x);
                assert(forall|k: int| i < k < out@.len() ==> out@[k] == prev[k - 1]);
            };
            if distinct_info_keys(v@) {
                assert forall|c: int| 0 <= c < prev.len() implies prev[c].0 != x.0 by {
                    vstd::seq_lib::to_multiset_contains(prev, prev[c]);
                    vstd::seq_lib::to_multiset_contains(v@.take(idx as int), prev[c]);
                    let j = choose|j: int|
                        0 <= j < v@.take(idx as int).len() && v@.take(idx as int)[j] == prev[c];
                    assert(v@[j] == prev[c]);
                    assert(v@[j].0 != v@[idx as int].0);
                };
                assert forall|a: int, b: int| 0 <= a < b < out@.len() implies (#[trigger] out@[a]).0
                    != (#[trigger] out@[b]).0 by {
                    assert(forall|k: int| 0 <= k < i ==> out@[k] == prev[k]);
                    assert(out@[i as int] == x);
                    assert(forall|k: int| i < k < out@.len() ==> out@[k] == prev[k - 1]);
                };
            }
        }
        idx = idx + 1;
    }
    proof {
        assert(v@.take(v@.len() as int) =~= v@);
    }
    out
}

fn key_insertion_point(out: &Vec<NeighborKey>, x: &NeighborKey) -> (i: usize)
    ensures
        i <= out.len(),
        forall|j: int| 0 <= j < i ==> key_le(#[trigger] out@[j], *x),
        i < out.len() ==> !key_le(out@[i as int], *x),
{
    let mut i: usize = 0;
    while i < out.len()
        invariant
            i <= out.len(),
            forall|j: int| 0 <= j < i ==> key_le(#[trigger] out@[j], *x),
        decreases out.len() - i,
    {
        if !key_le_exec(&out[i], x) {
            return i;
        }
        i = i + 1;
    }
    i
}

/// Sorts a list of neighbor keys ascending by the total key order: the
/// returned list is a permutation of the input.
pub fn sort_neighbor_keys(v: &Vec<NeighborKey>) -> (r: Vec<NeighborKey>)
    ensures
        r@.to_multiset() == v@.to_multiset(),
        sorted_by_key(r@),
        r@.len() == v@.len(),
{
    broadcast use group_to_multiset_ensures;

    let mut out: Vec<NeighborKey> = Vec::new();
    let mut idx: usize = 0;
    proof {
        assert(v@.take(0) =~= Seq::<NeighborKey>::empty());
        assert(out@.to_multiset() =~= v@.take(0).to_multiset());
    }
    while idx < v.len()
        invariant
            idx <= v.len(),
            out@.len() == idx,
            out@.to_multiset() == v@.take(idx as int).to_multiset(),
            sorted_by_key(out@),
        decreases v.len() - idx,
    {
        let x = v[idx];
        let i = key_insertion_point(&out, &x);
        let ghost prev = out@;
        out.insert(i, x);
        proof {
            assert(out@ == prev.insert(i as int, x));
            assert(v@.take(idx as int + 1) =~= v@.take(idx as int).push(x));
            vstd::seq_lib::to_multiset_insert(prev, i as int, x);
            vstd::seq_lib::to_multiset_build(v@.take(idx as int), x);
            assert(out@.to_multiset() == v@.take(idx as int + 1).to_multiset());
            assert forall|a: int, b: int| 0 <= a < b < out@.len() implies key_le(
                #[trigger] out@[a],
                #[trigger] out@[b],
            ) by {
                assert(forall|k: int| 0 <= k < i ==> out@[k] == prev[k]);
                assert(out@[i as int] == x);
                assert(forall|k: int| i < k < out@.len() ==> out@[k] == prev[k - 1]);
            };
        }
        idx = idx + 1;
    }
    proof {
        assert(v@.take(v@.len() as int) =~= v@);
    }
    out
}

} // verus!
