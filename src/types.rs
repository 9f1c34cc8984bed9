use vstd::prelude::*;

verus! {

/// Number of slots in one epoch.
pub const EPOCH_LENGTH: u64 = 64;

/// Largest balance (in gwei) that counts towards a validator's vote weight.
pub const MAX_DEPOSIT_AMOUNT: u64 = 32_000_000_000;

/// Balance (in gwei) that makes up one unit of vote weight.
pub const FORK_CHOICE_BALANCE_INCREMENT: u64 = 1_000_000_000;

/// Largest number of validators a well-formed state may hold.
pub const VALIDATOR_REGISTRY_LIMIT: u64 = 1_099_511_627_776;

/// A 256-bit block or state root, held as four big-endian 64-bit words.
#[derive(Clone, Copy, Debug, PartialEq, Eq, Structural, Hash)]
pub struct Hash256 {
    pub w0: u64,
    pub w1: u64,
    pub w2: u64,
    pub w3: u64,
}

impl Hash256 {
    /// The all-zero root.
    pub fn zero() -> (r: Hash256)
        ensures
            r == (Hash256 { w0: 0, w1: 0, w2: 0, w3: 0 }),
    {
        Hash256 { w0: 0, w1: 0, w2: 0, w3: 0 }
    }

    /// The root whose last eight bytes hold `n` in big-endian order and whose other bytes are zero.
    pub fn from_low_u64_be(n: u64) -> (r: Hash256)
        ensures
            r == (Hash256 { w0: 0, w1: 0, w2: 0, w3: n }),
    {
        Hash256 { w0: 0, w1: 0, w2: 0, w3: n }
    }
}

/// Root order: lexicographic on the four words, which is the order of the roots' bytes.
pub open spec fn root_lt(a: Hash256, b: Hash256) -> bool {
    a.w0 < b.w0 || (a.w0 == b.w0 && (a.w1 < b.w1 || (a.w1 == b.w1 && (a.w2 < b.w2 || (a.w2 == b.w2
        && a.w3 < b.w3)))))
}

impl Hash256 {
    /// Whether `self` comes strictly before `other` in root order.
    pub fn precedes(&self, other: &Hash256) -> (r: bool)
        ensures
            r == root_lt(*self, *other),
    {
        if self.w0 != other.w0 {
            self.w0 < other.w0
        } else if self.w1 != other.w1 {
            self.w1 < other.w1
        } else if self.w2 != other.w2 {
            self.w2 < other.w2
        } else {
            self.w3 < other.w3
        }
    }
}

/// The part of a beacon block that fork choice reads.
#[derive(Clone, Copy, Debug, PartialEq, Eq, Structural)]
pub struct BeaconBlock {
    pub parent_root: Hash256,
    pub state_root: Hash256,
    pub slot: u64,
}

/// A validator's activity window, in epochs: active from `activation_epoch` up to, not
/// including, `exit_epoch`.
#[derive(Clone, Copy, Debug, PartialEq, Eq, Structural)]
pub struct Validator {
    pub activation_epoch: u64,
    pub exit_epoch: u64,
}

impl Validator {
    pub open spec fn spec_is_active_at(self, epoch: u64) -> bool {
        self.activation_epoch <= epoch && epoch < self.exit_epoch
    }

    /// Whether the validator is active in `epoch`.
    pub fn is_active_at(&self, epoch: u64) -> (r: bool)
        ensures
            r == self.spec_is_active_at(epoch),
    {
        self.activation_epoch <= epoch && epoch < self.exit_epoch
    }
}

/// The part of a beacon state that fork choice reads: the validators and their balances,
/// one balance per validator.
#[derive(Clone, Debug)]
pub struct BeaconState {
    pub validator_registry: Vec<Validator>,
    pub validator_balances: Vec<u64>,
}

impl BeaconState {
    /// A state is well formed when each validator has a balance (the balance of validator `i`
    /// is entry `i`) and the registry is within its limit.
    pub open spec fn well_formed(&self) -> bool {
        &&& self.validator_registry@.len() <= self.validator_balances@.len()
        &&& self.validator_registry@.len() <= VALIDATOR_REGISTRY_LIMIT
    }
}

/// Vote weight of a balance: `min(balance, MAX_DEPOSIT_AMOUNT) / FORK_CHOICE_BALANCE_INCREMENT`.
pub open spec fn weight_of(balance: u64) -> nat {
    (if balance < MAX_DEPOSIT_AMOUNT {
        balance
    } else {
        MAX_DEPOSIT_AMOUNT
    }) as nat / FORK_CHOICE_BALANCE_INCREMENT as nat
}

/// Computes `weight_of(balance)`.
pub fn weight(balance: u64) -> (r: u64)
    ensures
        r as nat == weight_of(balance),
        r <= 32,
{
    let capped: u64 = if balance < MAX_DEPOSIT_AMOUNT {
        balance
    } else {
        MAX_DEPOSIT_AMOUNT
    };
    capped / FORK_CHOICE_BALANCE_INCREMENT
}

/// Epoch that holds `slot`.
pub open spec fn epoch_of(slot: u64) -> u64 {
    slot / EPOCH_LENGTH
}

/// What fork choice can fail with.
#[derive(Clone, Copy, Debug, PartialEq, Eq, Structural)]
pub enum Error {
    /// The state with this root is not in the state store.
    MissingBeaconState(Hash256),
    /// The state with this root is not well formed.
    InvalidBeaconState(Hash256),
    /// The block with this root is not in the block store.
    MissingBeaconBlock(Hash256),
    /// The block with this root does not have a slot below that of its child.
    InvalidBeaconBlock(Hash256),
    /// The descent from the justified root took more steps than there are known blocks,
    /// so the child index holds a cycle.
    GraphTooDeep,
}

/// Outcome of a fork-choice run that produced something.
#[derive(Clone, Copy, Debug, PartialEq, Eq, Structural)]
pub enum Outcome {
    Something,
}

} // verus!
