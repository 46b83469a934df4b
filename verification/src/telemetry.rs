use vstd::prelude::*;
use vstd::pervasive::VecAdditionalExecFns;
use crate::types::NeighborKey;

verus! {

/// The count a telemetry list records for a key; zero when the key is absent.
pub open spec fn telem_get(m: Seq<(NeighborKey, u64)>, key: NeighborKey) -> u64
    decreases m.len(),
{
    if m.len() == 0 {
        0
    } else if m[0].0 == key {
        m[0].1
    } else {
        telem_get(m.drop_first(), key)
    }
}

/// A counter's next value: one more, saturating at the integer's ceiling.
pub open spec fn saturating_inc(c: u64) -> u64 {
    if c == u64::MAX {
        u64::MAX
    } else {
        (c + 1) as u64
    }
}

/// Each key appears at most once in the list.
pub open spec fn telem_keys_unique(m: Seq<(NeighborKey, u64)>) -> bool {
    forall|a: int, b: int| 0 <= a < b < m.len() ==> (#[trigger] m[a]).0 != (#[trigger] m[b]).0
}

proof fn lemma_telem_get_at(m: Seq<(NeighborKey, u64)>, i: int)
    requires
        telem_keys_unique(m),
        0 <= i < m.len(),
    ensures
        telem_get(m, m[i].0) == m[i].1,
    decreases m.len(),
{
    if i == 0 {
    } else {
        assert(m[0].0 != m[i].0);
        lemma_telem_get_at(m.drop_first(), i - 1);
    }
}

proof fn lemma_telem_get_update_other(m: Seq<(NeighborKey, u64)>, i: int, p: (NeighborKey, u64), k: NeighborKey)
    requires
        0 <= i < m.len(),
        m[i].0 == p.0,
        k != p.0,
    ensures
        telem_get(m.update(i, p), k) == telem_get(m, k),
    decreases m.len(),
{
    if i == 0 {
        assert(m.update(0, p).drop_first() =~= m.drop_first());
    } else {
        assert(m.update(i, p).drop_first() =~= m.drop_first().update(i - 1, p));
        lemma_telem_get_update_other(m.drop_first(), i - 1, p, k);
    }
}

/// Increments the eviction counter of a key, inserting it at one when
/// absent. The counter saturates at the integer's ceiling; every other key's
/// counter is untouched, so counters only ever grow.
pub fn bump_count(m: &mut Vec<(NeighborKey, u64)>, key: &NeighborKey)
    requires
        telem_keys_unique(old(m)@),
    ensures
        telem_keys_unique(final(m)@),
        telem_get(final(m)@, *key) == (if telem_get(old(m)@, *key) == u64::MAX {
            u64::MAX
        } else {
            (telem_get(old(m)@, *key) + 1) as u64
        }),
        forall|k: NeighborKey|
            k != *key ==> telem_get(final(m)@, k) == telem_get(old(m)@, k),
{
    proof {
        assert(m@.skip(0) =~= m@);
    }
    let mut i: usize = 0;
    while i < m.len()
        invariant
            i <= m.len(),
            m@ == old(m)@,
            telem_keys_unique(m@),
            forall|j: int| 0 <= j < i ==> (#[trigger] m@[j]).0 != *key,
        decreases m.len() - i,
    {
        if m[i].0 == *key {
            let c = m[i].1;
            let c2: u64 = if c == u64::MAX {
                u64::MAX
            } else {
                c + 1
            };
            let ghost prev = m@;
            let ghost gi = i as int;
            m.set(i, (*key, c2));
            proof {
                assert(m@ == prev.update(gi, (*key, c2)));
                lemma_telem_get_at(prev, gi);
                lemma_telem_get_at(m@, gi);
                assert forall|k: NeighborKey| k != *key implies telem_get(m@, k) == telem_get(
                    prev,
                    k,
                ) by {
                    lemma_telem_get_update_other(prev, gi, (*key, c2), k);
                };
            }
            return ;
        }
        i = i + 1;
    }
    let ghost prev = m@;
    m.push((*key, 1));
    proof {
        assert(forall|j: int| 0 <= j < prev.len() ==> (#[trigger] prev[j]).0 != *key);
        lemma_telem_get_absent(prev, *key);
        lemma_telem_get_push(prev, (*key, 1), *key);
        assert(telem_get(m@, *key) == 1);
        assert forall|k: NeighborKey| k != *key implies telem_get(m@, k) == telem_get(
            prev,
            k,
        ) by {
            lemma_telem_get_push(prev, (*key, 1), k);
        };
        assert forall|a: int, b: int| 0 <= a < b < m@.len() implies (#[trigger] m@[a]).0 != (
        #[trigger] m@[b]).0 by {
            if b == m@.len() - 1 {
                assert(prev[a].0 != *key);
            }
        };
    }
}

proof fn lemma_telem_get_absent(m: Seq<(NeighborKey, u64)>, key: NeighborKey)
    requires
        forall|j: int| 0 <= j < m.len() ==> (#[trigger] m[j]).0 != key,
    ensures
        telem_get(m, key) == 0,
    decreases m.len(),
{
    if m.len() > 0 {
        assert(forall|j: int|
            0 <= j < m.drop_first().len() ==> (#[trigger] m.drop_first()[j]).0 != key);
        lemma_telem_get_absent(m.drop_first(), key);
    }
}

proof fn lemma_telem_get_push(m: Seq<(NeighborKey, u64)>, p: (NeighborKey, u64), k: NeighborKey)
    ensures
        k != p.0 ==> telem_get(m.push(p), k) == telem_get(m, k),
        (k == p.0 && (forall|j: int| 0 <= j < m.len() ==> (#[trigger] m[j]).0 != k))
            ==> telem_get(m.push(p), k) == p.1,
    decreases m.len(),
{
    if m.len() == 0 {
        assert(m.push(p)[0] == p);
        assert(m.push(p).drop_first() =~= Seq::<(NeighborKey, u64)>::empty());
        if k != p.0 {
            assert(telem_get(m.push(p), k) == telem_get(m.push(p).drop_first(), k));
            assert(telem_get(m.push(p).drop_first(), k) == 0);
            assert(telem_get(m, k) == 0);
        }
    } else {
        assert(m.push(p).drop_first() =~= m.drop_first().push(p));
        assert(m.push(p)[0] == m[0]);
        lemma_telem_get_push(m.drop_first(), p, k);
        if forall|j: int| 0 <= j < m.len() ==> (#[trigger] m[j]).0 != k {
            assert(forall|j: int|
                0 <= j < m.drop_first().len() ==> (#[trigger] m.drop_first()[j]).0 != k);
        }
    }
}

/// Reads the counter a telemetry list holds for a key.
pub fn get_count(m: &Vec<(NeighborKey, u64)>, key: &NeighborKey) -> (r: u64)
    ensures
        r == telem_get(m@, *key),
{
    proof {
        assert(m@.skip(0) =~= m@);
    }
    let mut i: usize = 0;
    while i < m.len()
        invariant
            i <= m.len(),
            telem_get(m@.skip(i as int), *key) == telem_get(m@, *key),
        decreases m.len() - i,
    {
        proof {
            assert(m@.skip(i as int).drop_first() =~= m@.skip(i as int + 1));
            assert(m@.skip(i as int)[0] == m@[i as int]);
        }
        if m[i].0 == *key {
            return m[i].1;
        }
        i = i + 1;
    }
    proof {
        assert(m@.skip(m@.len() as int) =~= Seq::<(NeighborKey, u64)>::empty());
    }
    0
}

} // verus!
