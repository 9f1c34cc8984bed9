use vstd::prelude::*;
use crate::root_map::RootMap;
use crate::types::{BeaconBlock, BeaconState, Error, Hash256};

verus! {

/// One more than the largest slot: the bound that the first block of a walk must stay under.
pub open spec fn slot_bound() -> nat {
    0x1_0000_0000_0000_0000
}

/// Walks from `cur` towards the genesis block and stops at the first block whose slot is at
/// most `slot`. Every block on the way must be stored and have a slot below `limit` and
/// below that of the block visited before it.
pub open spec fn walk(blocks: Map<Hash256, BeaconBlock>, cur: Hash256, slot: u64, limit: nat) -> Result<Hash256, Error>
    decreases limit,
{
    if !blocks.contains_key(cur) {
        Err(Error::MissingBeaconBlock(cur))
    } else if blocks[cur].slot >= limit {
        Err(Error::InvalidBeaconBlock(cur))
    } else if blocks[cur].slot <= slot {
        Ok(cur)
    } else {
        walk(blocks, blocks[cur].parent_root, slot, blocks[cur].slot as nat)
    }
}

/// The ancestor of `root` (or `root` itself) with the greatest slot that is at most `slot`.
pub open spec fn ancestor_at(blocks: Map<Hash256, BeaconBlock>, root: Hash256, slot: u64) -> Result<Hash256, Error> {
    walk(blocks, root, slot, slot_bound())
}

/// The blocks known to the node, by root.
pub struct BlockStore {
    blocks: RootMap<BeaconBlock>,
}

impl View for BlockStore {
    type V = Map<Hash256, BeaconBlock>;

    closed spec fn view(&self) -> Map<Hash256, BeaconBlock> {
        self.blocks@
    }
}

impl BlockStore {
    pub closed spec fn well_formed(&self) -> bool {
        self.blocks.well_formed()
    }

    pub fn new() -> (r: BlockStore)
        ensures
            r.well_formed(),
            r@ == Map::<Hash256, BeaconBlock>::empty(),
    {
        BlockStore { blocks: RootMap::new() }
    }

    /// Stores `block` under `root`, replacing any block stored there before.
    pub fn put(&mut self, root: Hash256, block: BeaconBlock)
        requires
            old(self).well_formed(),
        ensures
            final(self).well_formed(),
            final(self)@ == old(self)@.insert(root, block),
    {
        self.blocks.insert(root, block);
    }

    /// The block stored under `root`, if any.
    pub fn get(&self, root: &Hash256) -> (r: Option<BeaconBlock>)
        requires
            self.well_formed(),
        ensures
            r == (if self@.contains_key(*root) {
                Some(self@[*root])
            } else {
                None::<BeaconBlock>
            }),
    {
        match self.blocks.get(root) {
            Some(b) => Some(*b),
            None => None,
        }
    }

    /// The ancestor of `root` (or `root` itself) with the greatest slot that is at most `slot`,
    /// with its slot. Fails on the first block of the walk that is missing, or whose slot is
    /// not below that of the block before it.
    pub fn block_at_slot(&self, root: &Hash256, slot: u64) -> (r: Result<(Hash256, u64), Error>)
        requires
            self.well_formed(),
        ensures
            match r {
                Ok((a, s)) => ancestor_at(self@, *root, slot) == Ok::<Hash256, Error>(a)
                    && self@.contains_key(a) && self@[a].slot == s,
                Err(e) => ancestor_at(self@, *root, slot) == Err::<Hash256, Error>(e),
            },
    {
        let mut cur: Hash256 = *root;
        let mut limit: u128 = 0x1_0000_0000_0000_0000;
        loop
            invariant
                self.well_formed(),
                walk(self@, cur, slot, limit as nat) == ancestor_at(self@, *root, slot),
            decreases limit,
        {
            match self.get(&cur) {
                None => {
                    return Err(Error::MissingBeaconBlock(cur));
                },
                Some(b) => {
                    if b.slot as u128 >= limit {
                        return Err(Error::InvalidBeaconBlock(cur));
                    }
                    if b.slot <= slot {
                        return Ok((cur, b.slot));
                    }
                    limit = b.slot as u128;
                    cur = b.parent_root;
                },
            }
        }
    }
}

/// The states known to the node, by root.
pub struct StateStore {
    states: RootMap<BeaconState>,
}

impl View for StateStore {
    type V = Map<Hash256, BeaconState>;

    closed spec fn view(&self) -> Map<Hash256, BeaconState> {
        self.states@
    }
}

impl StateStore {
    pub closed spec fn well_formed(&self) -> bool {
        self.states.well_formed()
    }

    pub fn new() -> (r: StateStore)
        ensures
            r.well_formed(),
            r@ == Map::<Hash256, BeaconState>::empty(),
    {
        StateStore { states: RootMap::new() }
    }

    /// Stores `state` under `root`, replacing any state stored there before.
    pub fn put(&mut self, root: Hash256, state: BeaconState)
        requires
            old(self).well_formed(),
        ensures
            final(self).well_formed(),
            final(self)@ == old(self)@.insert(root, state),
    {
        self.states.insert(root, state);
    }

    /// The state stored under `root`, if any.
    pub fn get(&self, root: &Hash256) -> (r: Option<&BeaconState>)
        requires
            self.well_formed(),
        ensures
            match r {
                Some(s) => self@.contains_key(*root) && *s == self@[*root],
                None => !self@.contains_key(*root),
            },
    {
        self.states.get(root)
    }
}

} // verus!
