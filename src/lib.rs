pub mod handlers;
pub mod helpers;
pub mod maps;
pub mod order;
pub mod store;
pub mod types;

pub use handlers::{
    accept_new_votes, get_proposal_head, on_attestation, on_block, on_block_with_state, on_tick, tick_interval,
    update_head, update_safe_target,
};
pub use helpers::{get_fork_choice_head, get_latest_justified};
pub use maps::{RootMap, VoteMap};
pub use store::{get_forkchoice_store, Store};
pub use types::{
    root_cmp, Block, Checkpoint, Interval, Root, SignedVote, Slot, State, ValidatorIndex,
    INTERVALS_PER_SLOT, SECONDS_PER_INTERVAL, SECONDS_PER_SLOT, ZERO_HASH,
};
