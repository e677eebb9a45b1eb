use fork_choice::{
    accept_new_votes, get_fork_choice_head, get_proposal_head, get_forkchoice_store, get_latest_justified,
    on_attestation, on_block, on_block_with_state, on_tick, root_cmp, tick_interval,
    update_head, update_safe_target, Block, Checkpoint, RootMap, SignedVote, State, Store,
    VoteMap, ZERO_HASH,
};

const ANCHOR: [u8; 32] = [1u8; 32];
const A: [u8; 32] = [0xAAu8; 32];
const B: [u8; 32] = [0xBBu8; 32];

fn zero_checkpoint() -> Checkpoint {
    Checkpoint { slot: 0, root: ZERO_HASH }
}

fn genesis() -> Store {
    let state = State { latest_justified: zero_checkpoint(), latest_finalized: zero_checkpoint() };
    let block = Block { slot: 0, parent_root: ZERO_HASH, state_root: ANCHOR };
    Store::new(state, block, ANCHOR)
}

fn with_siblings() -> Store {
    let mut store = genesis();
    on_block(&mut store, A, Block { slot: 1, parent_root: ANCHOR, state_root: A });
    on_block(&mut store, B, Block { slot: 1, parent_root: ANCHOR, state_root: B });
    store
}

fn vote(validator_id: u64, slot: u64, root: [u8; 32]) -> SignedVote {
    SignedVote { validator_id, message: Checkpoint { slot, root } }
}

#[test]
fn genesis_scenario() {
    let store = genesis();
    assert_eq!(store.head, ANCHOR);
    assert_eq!(store.safe_target, ANCHOR);
    assert_eq!(store.time, 0);
    assert_eq!(store.blocks.len(), 1);
    assert_eq!(store.states.len(), 1);
    assert_eq!(store.latest_known_votes.len(), 0);
    assert_eq!(store.latest_new_votes.len(), 0);
}

#[test]
fn anchor_time_counts_intervals() {
    let state = State { latest_justified: zero_checkpoint(), latest_finalized: zero_checkpoint() };
    let block = Block { slot: 5, parent_root: ZERO_HASH, state_root: ANCHOR };
    let store = get_forkchoice_store(state, block);
    assert_eq!(store.time, 20);
}

#[test]
fn single_child_becomes_head() {
    let mut store = genesis();
    on_block(&mut store, [2u8; 32], Block { slot: 1, parent_root: ANCHOR, state_root: [2u8; 32] });
    assert_eq!(store.head, [2u8; 32]);
}

#[test]
fn votes_decide_between_siblings() {
    let mut store = with_siblings();
    on_attestation(&mut store, vote(1, 1, A), false, 12, 0);
    on_attestation(&mut store, vote(2, 1, A), false, 12, 0);
    assert_eq!(store.latest_new_votes.len(), 2);
    accept_new_votes(&mut store);
    assert_eq!(store.head, A);
}

#[test]
fn tie_goes_to_greater_root() {
    let mut store = with_siblings();
    on_attestation(&mut store, vote(1, 1, A), false, 12, 0);
    on_attestation(&mut store, vote(2, 1, B), false, 12, 0);
    accept_new_votes(&mut store);
    assert_eq!(store.head, B);
}

#[test]
fn tie_on_weight_goes_to_higher_slot() {
    let mut store = genesis();
    on_block(&mut store, A, Block { slot: 2, parent_root: ANCHOR, state_root: A });
    on_block(&mut store, B, Block { slot: 1, parent_root: ANCHOR, state_root: B });
    assert_eq!(store.head, A);
}

#[test]
fn safe_target_needs_two_thirds() {
    let mut store = with_siblings();
    on_attestation(&mut store, vote(1, 1, A), false, 12, 0);
    update_safe_target(&mut store);
    assert_eq!(store.safe_target, ANCHOR);
    on_attestation(&mut store, vote(2, 1, A), false, 12, 0);
    update_safe_target(&mut store);
    assert_eq!(store.safe_target, A);
}

#[test]
fn tick_phases_run_their_actions() {
    let mut store = with_siblings();
    on_attestation(&mut store, vote(1, 0, A), false, 0, 0);
    on_attestation(&mut store, vote(2, 0, A), false, 0, 0);
    assert_eq!(store.time, 0);
    tick_interval(&mut store, true);
    assert_eq!(store.time, 1);
    assert_eq!(store.safe_target, ANCHOR);
    tick_interval(&mut store, false);
    assert_eq!(store.safe_target, A);
    assert_eq!(store.latest_new_votes.len(), 2);
    on_tick(&mut store, 12, true, 0);
    assert_eq!(store.time, 4);
    assert_eq!(store.latest_new_votes.len(), 0);
    assert_eq!(store.latest_known_votes.len(), 2);
    assert_eq!(store.head, A);
}

#[test]
fn proposal_signal_only_reaches_last_interval() {
    let mut store = with_siblings();
    on_attestation(&mut store, vote(1, 0, A), false, 0, 0);
    on_tick(&mut store, 15, true, 0);
    assert_eq!(store.time, 5);
    assert_eq!(store.latest_new_votes.len(), 1);
    assert_eq!(store.head, B);
}

#[test]
fn second_tick_to_same_time_is_no_op() {
    let mut store = with_siblings();
    on_attestation(&mut store, vote(1, 0, A), false, 0, 0);
    on_tick(&mut store, 100, false, 10);
    assert_eq!(store.time, 30);
    let safe = store.safe_target;
    let head = store.head;
    on_tick(&mut store, 100, false, 10);
    assert_eq!(store.time, 30);
    assert_eq!(store.safe_target, safe);
    assert_eq!(store.head, head);
    assert_eq!(store.latest_new_votes.len(), 1);
}

#[test]
fn tick_before_genesis_does_nothing() {
    let mut store = genesis();
    on_tick(&mut store, 5, true, 100);
    assert_eq!(store.time, 0);
}

#[test]
fn duplicate_block_is_ignored() {
    let mut store = with_siblings();
    on_block(&mut store, A, Block { slot: 1, parent_root: ANCHOR, state_root: A });
    let head = store.head;
    on_block(&mut store, A, Block { slot: 7, parent_root: B, state_root: B });
    assert_eq!(store.blocks.len(), 3);
    assert_eq!(store.head, head);
    let i = store.blocks.index_of(&A).unwrap();
    assert_eq!(store.blocks.entries[i].1.slot, 1);
}

#[test]
fn drain_moves_every_new_vote() {
    let mut store = with_siblings();
    on_attestation(&mut store, vote(1, 1, A), true, 0, 0);
    on_attestation(&mut store, vote(2, 1, B), false, 12, 0);
    on_attestation(&mut store, vote(3, 1, A), false, 12, 0);
    accept_new_votes(&mut store);
    assert_eq!(store.latest_new_votes.len(), 0);
    assert_eq!(store.latest_known_votes.len(), 3);
    assert_eq!(store.latest_known_votes.get(2), Some(Checkpoint { slot: 1, root: B }));
    assert_eq!(store.latest_known_votes.get(3), Some(Checkpoint { slot: 1, root: A }));
    assert_eq!(store.latest_known_votes.get(1), Some(Checkpoint { slot: 1, root: A }));
}

#[test]
fn drain_overwrites_known_vote() {
    let mut store = with_siblings();
    on_attestation(&mut store, vote(1, 2, A), true, 0, 0);
    on_attestation(&mut store, vote(1, 1, B), false, 12, 0);
    accept_new_votes(&mut store);
    assert_eq!(store.latest_known_votes.get(1), Some(Checkpoint { slot: 1, root: B }));
}

#[test]
fn future_gossip_vote_is_ignored() {
    let mut store = with_siblings();
    on_attestation(&mut store, vote(1, 2, A), false, 23, 0);
    assert_eq!(store.latest_new_votes.len(), 0);
    on_attestation(&mut store, vote(1, 2, A), false, 24, 0);
    assert_eq!(store.latest_new_votes.get(1), Some(Checkpoint { slot: 2, root: A }));
}

#[test]
fn stale_votes_are_ignored() {
    let mut store = with_siblings();
    on_attestation(&mut store, vote(1, 3, A), true, 0, 0);
    on_attestation(&mut store, vote(1, 2, B), true, 0, 0);
    assert_eq!(store.latest_known_votes.get(1), Some(Checkpoint { slot: 3, root: A }));
    on_attestation(&mut store, vote(2, 3, A), false, 120, 0);
    on_attestation(&mut store, vote(2, 3, B), false, 120, 0);
    assert_eq!(store.latest_new_votes.get(2), Some(Checkpoint { slot: 3, root: A }));
}

#[test]
fn on_chain_vote_drops_older_gossip() {
    let mut store = with_siblings();
    on_attestation(&mut store, vote(1, 1, A), false, 12, 0);
    on_attestation(&mut store, vote(1, 2, B), true, 0, 0);
    assert_eq!(store.latest_new_votes.len(), 0);
    assert_eq!(store.latest_known_votes.get(1), Some(Checkpoint { slot: 2, root: B }));
}

#[test]
fn on_chain_vote_keeps_newer_gossip() {
    let mut store = with_siblings();
    on_attestation(&mut store, vote(1, 5, A), false, 120, 0);
    on_attestation(&mut store, vote(1, 2, B), true, 0, 0);
    assert_eq!(store.latest_new_votes.get(1), Some(Checkpoint { slot: 5, root: A }));
    assert_eq!(store.latest_known_votes.get(1), Some(Checkpoint { slot: 2, root: B }));
}

#[test]
fn injected_state_moves_justification() {
    let mut store = with_siblings();
    let post = State {
        latest_justified: Checkpoint { slot: 1, root: A },
        latest_finalized: Checkpoint { slot: 0, root: ANCHOR },
    };
    let c = [0xCCu8; 32];
    on_block_with_state(&mut store, c, Block { slot: 2, parent_root: A, state_root: c }, post);
    assert_eq!(store.latest_justified, Checkpoint { slot: 1, root: A });
    assert_eq!(store.head, c);
    assert_eq!(store.latest_finalized, Checkpoint { slot: 0, root: ANCHOR });
}

#[test]
fn head_descends_from_justified_root() {
    let mut store = with_siblings();
    let c = [0xCCu8; 32];
    let post = State {
        latest_justified: Checkpoint { slot: 1, root: A },
        latest_finalized: zero_checkpoint(),
    };
    on_block_with_state(&mut store, c, Block { slot: 2, parent_root: A, state_root: c }, post);
    on_attestation(&mut store, vote(1, 1, B), true, 0, 0);
    on_attestation(&mut store, vote(2, 1, B), true, 0, 0);
    update_head(&mut store);
    assert_eq!(store.head, c);
}

#[test]
fn find_head_counts_ancestor_votes() {
    let mut blocks = RootMap::new();
    let g = [1u8; 32];
    let x = [2u8; 32];
    let x1 = [3u8; 32];
    let y = [9u8; 32];
    blocks.insert_new(g, Block { slot: 0, parent_root: ZERO_HASH, state_root: g });
    blocks.insert_new(x, Block { slot: 1, parent_root: g, state_root: x });
    blocks.insert_new(x1, Block { slot: 2, parent_root: x, state_root: x1 });
    blocks.insert_new(y, Block { slot: 1, parent_root: g, state_root: y });
    let mut votes = VoteMap::new();
    votes.insert(1, Checkpoint { slot: 2, root: x1 });
    votes.insert(2, Checkpoint { slot: 2, root: x1 });
    votes.insert(3, Checkpoint { slot: 1, root: y });
    votes.insert(4, Checkpoint { slot: 1, root: [7u8; 32] });
    assert_eq!(get_fork_choice_head(&blocks, g, &votes, 0), x1);
    assert_eq!(get_fork_choice_head(&blocks, ZERO_HASH, &votes, 0), x1);
    assert_eq!(get_fork_choice_head(&blocks, x, &votes, 0), x1);
    assert_eq!(get_fork_choice_head(&blocks, y, &votes, 0), y);
    assert_eq!(get_fork_choice_head(&blocks, g, &votes, 3), g);
    assert_eq!(get_fork_choice_head(&blocks, g, &votes, 2), x1);
    assert_eq!(get_fork_choice_head(&blocks, g, &VoteMap::new(), 0), y);
}

#[test]
fn zero_start_picks_lowest_block() {
    let mut blocks = RootMap::new();
    blocks.insert_new([5u8; 32], Block { slot: 3, parent_root: ZERO_HASH, state_root: [5u8; 32] });
    blocks.insert_new([4u8; 32], Block { slot: 3, parent_root: ZERO_HASH, state_root: [4u8; 32] });
    blocks.insert_new([8u8; 32], Block { slot: 4, parent_root: ZERO_HASH, state_root: [8u8; 32] });
    assert_eq!(get_fork_choice_head(&blocks, ZERO_HASH, &VoteMap::new(), 0), [4u8; 32]);
}

#[test]
fn latest_justified_takes_highest_slot() {
    let mut states = RootMap::new();
    assert_eq!(get_latest_justified(&states), None);
    let st = |slot: u64, root: [u8; 32]| State {
        latest_justified: Checkpoint { slot, root },
        latest_finalized: zero_checkpoint(),
    };
    states.insert_new([1u8; 32], st(3, [1u8; 32]));
    states.insert_new([2u8; 32], st(5, [2u8; 32]));
    states.insert_new([3u8; 32], st(5, [6u8; 32]));
    states.insert_new([4u8; 32], st(4, [9u8; 32]));
    assert_eq!(get_latest_justified(&states), Some(Checkpoint { slot: 5, root: [6u8; 32] }));
}

#[test]
fn roots_compare_lexicographically() {
    let mut a = [0u8; 32];
    let mut b = [0u8; 32];
    assert_eq!(root_cmp(&a, &b), 0);
    a[3] = 1;
    b[3] = 1;
    b[31] = 1;
    assert_eq!(root_cmp(&a, &b), -1);
    a[2] = 1;
    assert_eq!(root_cmp(&a, &b), 1);
}

#[test]
fn proposal_head_accepts_pending_votes() {
    let mut store = with_siblings();
    on_attestation(&mut store, vote(1, 0, A), false, 0, 0);
    assert_eq!(store.head, B);
    let head = get_proposal_head(&mut store, 2, 0);
    assert_eq!(head, A);
    assert_eq!(store.head, A);
    assert_eq!(store.time, 8);
    assert_eq!(store.latest_new_votes.len(), 0);
}

#[test]
fn intervals_one_and_three_do_nothing() {
    let mut store = with_siblings();
    on_attestation(&mut store, vote(1, 0, A), false, 0, 0);
    on_attestation(&mut store, vote(2, 0, A), false, 0, 0);
    tick_interval(&mut store, true);
    tick_interval(&mut store, true);
    assert_eq!(store.safe_target, A);
    tick_interval(&mut store, true);
    assert_eq!(store.time, 3);
    assert_eq!(store.latest_new_votes.len(), 2);
    assert_eq!(store.head, B);
}
