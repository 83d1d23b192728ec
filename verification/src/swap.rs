//! The swap record and the rule that says when it has expired.

use vstd::prelude::*;

verus! {

/// Height and time of the block in which a call runs: the deadline clock.
#[derive(Clone, Copy, Debug, PartialEq, Eq, Structural)]
pub struct BlockInfo {
    /// Block height.
    pub height: u64,
    /// Block time, in nanoseconds since the Unix epoch.
    pub time: u64,
}

/// The deadline of a swap: from it on the recipient can no longer claim and
/// the source can take the funds back.
#[derive(Clone, Copy, Debug, PartialEq, Eq, Structural)]
pub enum Expiration {
    /// Reached by every block whose height is at least this one.
    AtHeight(u64),
    /// Reached by every block whose time, in nanoseconds since the Unix epoch,
    /// is at least this one.
    AtTime(u64),
    /// Reached by no block.
    Never,
}

impl Expiration {
    /// Whether `block` is at or past this deadline.
    pub open spec fn reached(self, block: BlockInfo) -> bool {
        match self {
            Expiration::AtHeight(height) => block.height >= height,
            Expiration::AtTime(time) => block.time >= time,
            Expiration::Never => false,
        }
    }

    /// Whether the deadline has passed at `block`. The deadline itself counts
    /// as passed.
    pub fn is_expired(&self, block: &BlockInfo) -> (expired: bool)
        ensures
            expired == self.reached(*block),
    {
        match self {
            Expiration::AtHeight(height) => block.height >= *height,
            Expiration::AtTime(time) => block.time >= *time,
            Expiration::Never => false,
        }
    }
}

/// An amount of one native currency.
#[derive(Clone, Debug, PartialEq, Eq)]
pub struct Coin {
    pub denom: String,
    pub amount: u128,
}

/// An amount of one token, with the address of the contract that keeps it.
#[derive(Clone, Debug, PartialEq, Eq)]
pub struct Cw20Coin {
    pub address: String,
    pub amount: u128,
}

/// The value that a swap locks: native coins or an amount of one token.
#[derive(Clone, Debug, PartialEq, Eq)]
pub enum Balance {
    Native(Vec<Coin>),
    Cw20(Cw20Coin),
}

/// One swap: funds of `source`, locked for `recipient` under a hash.
#[derive(Clone, Debug, PartialEq, Eq)]
pub struct AtomicSwap {
    /// The SHA-256 digest of the preimage that unlocks the funds.
    pub hash: Vec<u8>,
    /// The account that can claim the funds with the preimage, before the deadline.
    pub recipient: String,
    /// The account that gets the funds back from the deadline on.
    pub source: String,
    /// The deadline.
    pub expires: Expiration,
    /// The locked funds, in native coins or in one token.
    pub balance: Balance,
}

impl AtomicSwap {
    /// Whether the swap has expired at `block`: false on every block before
    /// the deadline, true on the deadline and on every block after it.
    pub fn is_expired(&self, block: &BlockInfo) -> (expired: bool)
        ensures
            expired == self.expires.reached(*block),
    {
        self.expires.is_expired(block)
    }
}

/// Expiry never reverts: a swap that has expired at one block has expired at
/// every block that is no lower and no earlier.
pub proof fn lemma_expired_stays_expired(expires: Expiration, earlier: BlockInfo, later: BlockInfo)
    requires
        earlier.height <= later.height,
        earlier.time <= later.time,
        expires.reached(earlier),
    ensures
        expires.reached(later),
{
}

} // verus!
