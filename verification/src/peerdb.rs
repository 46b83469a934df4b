use vstd::prelude::*;
use crate::types::{NeighborKey, NetError};

verus! {

/// One row of the peer database: a peer's key and the organization owning it.
#[derive(Clone, Copy, PartialEq, Eq, Structural, Debug)]
pub struct PeerRecord {
    pub key: NeighborKey,
    pub org: u32,
}

/// The pruning engine's view of the peer database. A peer absent from the
/// records resolves to no organization and is excluded from
/// organization-based classification. The `faulted` flag stands for a storage
/// layer that cannot currently be read: every query then returns an error,
/// and the outbound pruning path gives up for the round.
pub struct PeerDb {
    pub faulted: bool,
    pub records: Vec<PeerRecord>,
}

/// The organization of the first record carrying the key, if any.
pub open spec fn lookup_org_spec(records: Seq<PeerRecord>, key: NeighborKey) -> Option<u32>
    decreases records.len(),
{
    if records.len() == 0 {
        Option::None
    } else if records[0].key == key {
        Option::Some(records[0].org)
    } else {
        lookup_org_spec(records.drop_first(), key)
    }
}

impl PeerDb {
    /// The organization the database assigns to a key, if any.
    pub open spec fn org_of(&self, key: NeighborKey) -> Option<u32> {
        lookup_org_spec(self.records@, key)
    }

    /// Resolves a peer's organization. A missing peer is not an error; a
    /// faulted store is.
    pub fn get_peer_org(&self, key: &NeighborKey) -> (r: Result<Option<u32>, NetError>)
        ensures
            self.faulted ==> r == Result::<Option<u32>, NetError>::Err(NetError::DbError),
            !self.faulted ==> r == Result::<Option<u32>, NetError>::Ok(self.org_of(*key)),
    {
        if self.faulted {
            return Err(NetError::DbError);
        }
        proof {
            assert(self.records@.skip(0) =~= self.records@);
        }
        let mut i: usize = 0;
        while i < self.records.len()
            invariant
                i <= self.records.len(),
                !self.faulted,
                lookup_org_spec(self.records@.skip(i as int), *key) == self.org_of(*key),
            decreases self.records.len() - i,
        {
            proof {
                assert(self.records@.skip(i as int).drop_first() =~= self.records@.skip(
                    i as int + 1,
                ));
                assert(self.records@.skip(i as int)[0] == self.records@[i as int]);
            }
            if self.records[i].key == *key {
                return Ok(Some(self.records[i].org));
            }
            i = i + 1;
        }
        proof {
            assert(self.records@.skip(self.records@.len() as int) =~= Seq::<PeerRecord>::empty());
        }
        Ok(None)
    }

    /// Total number of peers the database knows, or an error when the store
    /// cannot be read.
    pub fn get_frontier_size(&self) -> (r: Result<u64, NetError>)
        ensures
            self.faulted ==> r == Result::<u64, NetError>::Err(NetError::DbError),
            !self.faulted ==> r == Result::<u64, NetError>::Ok(self.records@.len() as u64),
    {
        if self.faulted {
            Err(NetError::DbError)
        } else {
            Ok(self.records.len() as u64)
        }
    }
}

} // verus!
