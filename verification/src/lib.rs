//! Registry of atomic swaps (hash time-locked contracts): the swap record and
//! its expiry rule, the keyed store that holds the records, and the paginated
//! listing of the identifiers in it.

pub mod listing;
pub mod order;
pub mod storage;
pub mod store;
pub mod swap;

pub use store::{all_swap_ids, get, remove, save, storage_key, storage_prefix, StorageError, NAMESPACE};
pub use swap::{AtomicSwap, Balance, BlockInfo, Coin, Cw20Coin, Expiration};
