//! Light-client bridge for a proof-of-work chain: header ingestion, fork choice
//! by cumulative difficulty, pruning under two retention horizons, confirmation
//! queries, and the decisions of the relay that feeds it.

pub mod chain;
pub mod fetch;
pub mod header;
pub mod json;
pub mod relay;

pub use header::{hash_eq, Digest, Header, HeaderInfo, Root};
pub use chain::{AccountId, InitError, Module, SubmitError, EPOCH_LENGTH};
pub use json::{chars_eq, find_member, Json, JsonNumber};
pub use fetch::{block_number_of, fetch_block, hex_to_bytes, FetchError};
pub use relay::{admit_unsigned, relay_step, validate_unsigned, RelayAction, RelayEvent, RelayPhase, RelayState, SubmissionValidity, UNSIGNED_LONGEVITY};
