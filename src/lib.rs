//! Bookkeeping for work agreements ("intents") between a client and a
//! freelancer: a registry of intents, an index of each account's intents, and
//! the authorised lifecycle transitions between statuses.

mod account_index;
mod contract;
mod intent;
mod registry;
mod status;

pub use account_index::AccountIndex;
pub use contract::{CallContext, ContractError, EscrowIntentContract};
pub use intent::EscrowIntent;
pub use registry::IntentRegistry;
pub use status::IntentStatus;
