use vstd::prelude::*;
use crate::reputation::ReputationTable;

verus! {

/// Reputation-weighted node selection state: a reputation table and the
/// amount of random turbulence added to each weight when choosing a node.
pub struct QiConsensus {
    reputation: ReputationTable,
    turbulence: u8,
}

impl QiConsensus {
    pub closed spec fn spec_reputation(&self) -> ReputationTable {
        self.reputation
    }

    pub closed spec fn spec_turbulence(&self) -> u8 {
        self.turbulence
    }

    /// A consensus with an empty reputation table.
    pub fn new(turbulence: u8) -> (c: Self)
        ensures
            c.spec_turbulence() == turbulence,
            c.spec_reputation().entry_seq() == Seq::<crate::reputation::ReputationEntry>::empty(),
            c.spec_reputation().wf(),
    {
        Self { reputation: ReputationTable::new(), turbulence }
    }

    /// A consensus over an existing reputation table.
    pub fn with_reputation(reputation: ReputationTable, turbulence: u8) -> (c: Self)
        ensures
            c.spec_turbulence() == turbulence,
            c.spec_reputation() == reputation,
    {
        Self { reputation, turbulence }
    }

    /// The turbulence bound.
    pub fn turbulence(&self) -> (t: u8)
        ensures
            t == self.spec_turbulence(),
    {
        self.turbulence
    }

    /// The reputation table, for updates.
    pub fn reputation_mut(&mut self) -> (r: &mut ReputationTable)
        ensures
            *r == old(self).spec_reputation(),
            final(self).spec_reputation() == *final(r),
            final(self).spec_turbulence() == old(self).spec_turbulence(),
    {
        &mut self.reputation
    }

    /// The reputation table.
    pub fn reputation(&self) -> (r: &ReputationTable)
        ensures
            *r == self.spec_reputation(),
    {
        &self.reputation
    }
}

} // verus!
