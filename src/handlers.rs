use vstd::prelude::*;
use crate::helpers::{
    fork_choice_head, get_fork_choice_head, get_latest_justified, latest_justified_of,
};
use crate::maps::{has_key, keys_unique, lemma_map_of_len, lemma_map_of_push, map_of, VoteMap};
use crate::store::{usable_start, Store};
use crate::types::{
    Block, Checkpoint, Root, SignedVote, State, ValidatorIndex, INTERVALS_PER_SLOT,
    SECONDS_PER_INTERVAL, SECONDS_PER_SLOT,
};

verus! {

/// The head, justified and finalized fields agree with the blocks, states and known votes.
pub open spec fn derived_current(s: Store) -> bool {
    &&& s.latest_justified == latest_justified_of(s.states@)
    &&& s.head == fork_choice_head(
        s.blocks@,
        s.latest_justified.root,
        s.latest_known_votes.entries@,
        0,
    )
    &&& s.latest_finalized == s.states@[s.head].latest_finalized
}

/// `post` is `pre` with head, latest justified and latest finalized recomputed.
pub open spec fn head_updated(pre: Store, post: Store) -> bool {
    let lj = latest_justified_of(pre.states@);
    let head = fork_choice_head(pre.blocks@, lj.root, pre.latest_known_votes.entries@, 0);
    post == (Store {
        latest_justified: lj,
        head: head,
        latest_finalized: pre.states@[head].latest_finalized,
        ..pre
    })
}

/// Support a block needs to be a safe target: ceil(2n/3) for n = max(1, number of states).
pub open spec fn safe_target_min_score(num_states: nat) -> nat {
    let n = if num_states == 0 {
        1
    } else {
        num_states
    };
    ((2 * n + 2) / 3) as nat
}

/// `post` is `pre` with the safe target recomputed from the new votes.
pub open spec fn safe_target_updated(pre: Store, post: Store) -> bool {
    post == (Store {
        safe_target: fork_choice_head(
            pre.blocks@,
            pre.latest_justified.root,
            pre.latest_new_votes.entries@,
            safe_target_min_score(pre.states@.len()),
        ),
        ..pre
    })
}

/// `post` has every new vote of `pre` moved into the known votes, over any earlier entry,
/// an empty new pool, and its head fields recomputed.
pub open spec fn votes_accepted(pre: Store, post: Store) -> bool {
    &&& post.latest_known_votes@ == pre.latest_known_votes@.union_prefer_right(
        pre.latest_new_votes@,
    )
    &&& post.latest_new_votes@ == Map::<ValidatorIndex, Checkpoint>::empty()
    &&& derived_current(post)
    &&& post.time == pre.time
    &&& post.safe_target == pre.safe_target
    &&& post.blocks == pre.blocks
    &&& post.states == pre.states
}

/// One interval step: time advances; then at phase 0 with a proposal the new votes are
/// accepted, at phase 2 the safe target is recomputed, and otherwise nothing happens.
pub open spec fn tick_post(pre: Store, has_proposal: bool, post: Store) -> bool {
    let ticked = Store { time: (pre.time + 1) as u64, ..pre };
    let phase = (pre.time + 1) % (INTERVALS_PER_SLOT as int);
    if phase == 0 && has_proposal {
        votes_accepted(ticked, post)
    } else if phase == 2 {
        safe_target_updated(ticked, post)
    } else {
        post == ticked
    }
}

/// One interval step toward `target`, with the proposal signal if it enters `target`.
pub open spec fn tick_toward(pre: Store, post: Store, target: u64, has_proposal: bool) -> bool {
    tick_post(pre, has_proposal && post.time == target, post)
}

/// `post` is reached from `pre` by one `tick_post` step per interval, the proposal signal
/// passed only to the step that enters interval `target`.
pub open spec fn ticked(pre: Store, post: Store, target: u64, has_proposal: bool) -> bool
    decreases post.time - pre.time,
{
    if post.time <= pre.time {
        post == pre
    } else {
        exists|mid: Store|
            mid.time + 1 == post.time && ticked(pre, mid, target, has_proposal) && #[trigger] tick_toward(
                mid,
                post,
                target,
                has_proposal,
            )
    }
}

/// Whole intervals elapsed from `genesis_time` to `time` (none before genesis).
pub open spec fn elapsed_intervals(time: u64, genesis_time: u64) -> u64 {
    if time >= genesis_time {
        ((time - genesis_time) / (SECONDS_PER_INTERVAL as int)) as u64
    } else {
        0
    }
}

/// After catching up: a store at or past the elapsed intervals is left as it was, and one
/// behind them ends exactly at them.
pub open spec fn caught_up(pre: Store, time: u64, genesis_time: u64, post: Store) -> bool {
    &&& pre.time >= elapsed_intervals(time, genesis_time) ==> post == pre
    &&& pre.time < elapsed_intervals(time, genesis_time) ==> post.time == elapsed_intervals(
        time,
        genesis_time,
    )
}

/// Whole slots elapsed from `genesis_time` to `time` (none before genesis).
pub open spec fn current_slot(time: u64, genesis_time: u64) -> u64 {
    if time >= genesis_time {
        ((time - genesis_time) / (SECONDS_PER_SLOT as int)) as u64
    } else {
        0
    }
}

/// The known pool after a vote `c` of validator `v`: an on-chain vote replaces a missing or
/// older one; gossip leaves the pool alone.
pub open spec fn known_after(
    known: Map<ValidatorIndex, Checkpoint>,
    v: ValidatorIndex,
    c: Checkpoint,
    is_from_block: bool,
) -> Map<ValidatorIndex, Checkpoint> {
    if is_from_block && (!known.contains_key(v) || known[v].slot < c.slot) {
        known.insert(v, c)
    } else {
        known
    }
}

/// The new pool after a vote `c` of validator `v`: an on-chain vote drops an older gossiped
/// one; a gossiped vote not from a future slot replaces a missing or older one.
pub open spec fn new_after(
    new: Map<ValidatorIndex, Checkpoint>,
    v: ValidatorIndex,
    c: Checkpoint,
    is_from_block: bool,
    slot_now: u64,
) -> Map<ValidatorIndex, Checkpoint> {
    if is_from_block {
        if new.contains_key(v) && new[v].slot < c.slot {
            new.remove(v)
        } else {
            new
        }
    } else if c.slot > slot_now {
        new
    } else if !new.contains_key(v) || new[v].slot < c.slot {
        new.insert(v, c)
    } else {
        new
    }
}

/// What `on_block` leaves: nothing changes for a known root; otherwise the block and its
/// post-state are added and the head fields recomputed.
pub open spec fn on_block_post(
    pre: Store,
    root: Root,
    block: Block,
    post_state: State,
    post: Store,
) -> bool {
    if pre.blocks@.contains_key(root) {
        post == pre
    } else {
        &&& post.blocks@ == pre.blocks@.insert(root, block)
        &&& post.states@ == pre.states@.insert(root, post_state)
        &&& derived_current(post)
        &&& post.time == pre.time
        &&& post.safe_target == pre.safe_target
        &&& post.latest_known_votes == pre.latest_known_votes
        &&& post.latest_new_votes == pre.latest_new_votes
    }
}

/// Recomputes the latest justified checkpoint, the head under the known votes, and the
/// finalized checkpoint of the head's state.
pub fn update_head(store: &mut Store)
    requires
        old(store).wf(),
    ensures
        final(store).wf(),
        head_updated(*old(store), *final(store)),
        derived_current(*final(store)),
        final(store).blocks@.contains_key(final(store).head),
        final(store).states@.contains_key(final(store).head),
{
    proof {
        lemma_map_of_len(store.states.entries@);
        lemma_map_of_len(store.blocks.entries@);
        assert(store.states@.contains_key(store.anchor()));
    }
    let lj = get_latest_justified(&store.states);
    let lj = lj.unwrap();
    store.latest_justified = lj;
    let head = get_fork_choice_head(
        &store.blocks,
        store.latest_justified.root,
        &store.latest_known_votes,
        0,
    );
    store.head = head;
    let i = store.states.index_of(&head).unwrap();
    store.latest_finalized = store.states.entries[i].1.latest_finalized;
}

/// Recomputes the safe target: the head under the new votes, counting only blocks with at
/// least two thirds of the states' number in support.
pub fn update_safe_target(store: &mut Store)
    requires
        old(store).wf(),
    ensures
        final(store).wf(),
        safe_target_updated(*old(store), *final(store)),
{
    proof {
        lemma_map_of_len(store.blocks.entries@);
    }
    let num_states = store.states.len();
    let n: usize = if num_states == 0 {
        1
    } else {
        num_states
    };
    let min_target_score: usize = n - n / 3;
    assert(min_target_score == (2 * n + 2) / 3) by (nonlinear_arith)
        requires
            min_target_score == n - n / 3,
            n >= 1,
    ;
    store.safe_target = get_fork_choice_head(
        &store.blocks,
        store.latest_justified.root,
        &store.latest_new_votes,
        min_target_score,
    );
}

/// Moves every new vote into the known votes, over any entry held there, empties the new
/// pool, and recomputes the head.
pub fn accept_new_votes(store: &mut Store)
    requires
        old(store).wf(),
    ensures
        final(store).wf(),
        votes_accepted(*old(store), *final(store)),
        final(store).latest_new_votes@.len() == 0,
        forall|v: ValidatorIndex| #[trigger]
            old(store).latest_new_votes@.contains_key(v)
                ==> final(store).latest_known_votes@.contains_key(v)
                && final(store).latest_known_votes@[v] == old(store).latest_new_votes@[v],
{
    let mut pending = VoteMap::new();
    std::mem::swap(&mut pending, &mut store.latest_new_votes);
    let ghost es = pending.entries@;
    let mut i: usize = 0;
    while i < pending.entries.len()
        invariant
            pending.entries@ == es,
            keys_unique(es),
            0 <= i <= es.len(),
            store.latest_known_votes.wf(),
            store.latest_known_votes@ == old(store).latest_known_votes@.union_prefer_right(
                map_of(es.take(i as int)),
            ),
            store.time == old(store).time,
            store.head == old(store).head,
            store.safe_target == old(store).safe_target,
            store.latest_justified == old(store).latest_justified,
            store.latest_finalized == old(store).latest_finalized,
            store.blocks == old(store).blocks,
            store.states == old(store).states,
            store.latest_new_votes@ == Map::<ValidatorIndex, Checkpoint>::empty(),
            store.latest_new_votes.wf(),
        decreases es.len() - i,
    {
        let k = pending.entries[i].0;
        let v = pending.entries[i].1;
        proof {
            let t = es.take(i as int);
            assert(es.take(i as int + 1) =~= t.push((k, v)));
            assert(!has_key(t, k)) by {
                if has_key(t, k) {
                    let j = choose|j: int| 0 <= j < t.len() && #[trigger] t[j].0 == k;
                    assert(es[j].0 == es[i as int].0);
                }
            }
            lemma_map_of_push(t, k, v);
            assert(old(store).latest_known_votes@.union_prefer_right(map_of(t)).insert(k, v)
                =~= old(store).latest_known_votes@.union_prefer_right(map_of(t.push((k, v)))));
        }
        store.latest_known_votes.insert(k, v);
        i = i + 1;
    }
    proof {
        assert(es.take(es.len() as int) =~= es);
    }
    update_head(store);
}

/// Advances the store by one interval and performs that interval's action.
pub fn tick_interval(store: &mut Store, has_proposal: bool)
    requires
        old(store).wf(),
        old(store).time < u64::MAX,
    ensures
        final(store).wf(),
        tick_post(*old(store), has_proposal, *final(store)),
{
    store.time = store.time + 1;
    let current_interval = store.time % INTERVALS_PER_SLOT;
    if current_interval == 0 && has_proposal {
        accept_new_votes(store);
    } else if current_interval == 2 {
        update_safe_target(store);
    }
}

/// Advances store time to the number of whole intervals elapsed since genesis, one interval
/// at a time; the proposal signal reaches only the last interval entered.
pub fn on_tick(store: &mut Store, time: u64, has_proposal: bool, genesis_time: u64)
    requires
        old(store).wf(),
    ensures
        final(store).wf(),
        caught_up(*old(store), time, genesis_time, *final(store)),
        ticked(*old(store), *final(store), elapsed_intervals(time, genesis_time), has_proposal),
        final(store).blocks == old(store).blocks,
        final(store).states == old(store).states,
{
    let tick_interval_time = time.saturating_sub(genesis_time) / SECONDS_PER_INTERVAL;
    assert(tick_interval_time == elapsed_intervals(time, genesis_time));
    if store.time >= tick_interval_time {
        return;
    }
    while store.time < tick_interval_time
        invariant
            store.wf(),
            old(store).time <= store.time <= tick_interval_time,
            tick_interval_time < u64::MAX,
            store.blocks == old(store).blocks,
            store.states == old(store).states,
            store.time == old(store).time ==> *store == *old(store),
            ticked(*old(store), *store, tick_interval_time, has_proposal),
        decreases tick_interval_time - store.time,
    {
        let ghost before = *store;
        let next_has_proposal = has_proposal && store.time + 1 == tick_interval_time;
        tick_interval(store, next_has_proposal);
        proof {
            let post = *store;
            assert(tick_toward(before, post, tick_interval_time, has_proposal));
            assert(ticked(*old(store), post, tick_interval_time, has_proposal));
        }
    }
}

/// Files a vote in one of the two pools: an on-chain vote updates the known pool and drops
/// an older gossiped one; a gossiped vote for a slot not yet reached updates the new pool.
pub fn on_attestation(
    store: &mut Store,
    attestation: SignedVote,
    is_from_block: bool,
    current_time: u64,
    genesis_time: u64,
)
    requires
        old(store).wf(),
    ensures
        final(store).wf(),
        final(store).latest_known_votes@ == known_after(
            old(store).latest_known_votes@,
            attestation.validator_id,
            attestation.message,
            is_from_block,
        ),
        final(store).latest_new_votes@ == new_after(
            old(store).latest_new_votes@,
            attestation.validator_id,
            attestation.message,
            is_from_block,
            current_slot(current_time, genesis_time),
        ),
        final(store).time == old(store).time,
        final(store).head == old(store).head,
        final(store).safe_target == old(store).safe_target,
        final(store).latest_justified == old(store).latest_justified,
        final(store).latest_finalized == old(store).latest_finalized,
        final(store).blocks == old(store).blocks,
        final(store).states == old(store).states,
{
    let validator_id = attestation.validator_id;
    let vote = attestation.message;
    if is_from_block {
        let newer_than_known = match store.latest_known_votes.get(validator_id) {
            Some(v) => v.slot < vote.slot,
            None => true,
        };
        if newer_than_known {
            store.latest_known_votes.insert(validator_id, vote);
        }
        if let Some(existing) = store.latest_new_votes.get(validator_id) {
            if existing.slot < vote.slot {
                store.latest_new_votes.remove(validator_id);
            }
        }
    } else {
        let slot_now = current_time.saturating_sub(genesis_time) / SECONDS_PER_SLOT;
        assert(slot_now == current_slot(current_time, genesis_time));
        if vote.slot > slot_now {
            return;
        }
        let newer_than_new = match store.latest_new_votes.get(validator_id) {
            Some(v) => v.slot < vote.slot,
            None => true,
        };
        if newer_than_new {
            store.latest_new_votes.insert(validator_id, vote);
        }
    }
}

/// Admits a block with a post-state computed by the caller's state transition, then
/// recomputes the head. A root already admitted leaves the store unchanged.
pub fn on_block_with_state(store: &mut Store, block_root: Root, block: Block, post_state: State)
    requires
        old(store).wf(),
        !old(store).blocks@.contains_key(block_root) ==> {
            &&& old(store).blocks@.contains_key(block.parent_root)
            &&& old(store).blocks@[block.parent_root].slot < block.slot
            &&& block_root != old(store).anchor_parent()
            &&& usable_start(
                old(store).blocks@.insert(block_root, block),
                post_state.latest_justified.root,
            )
        },
    ensures
        final(store).wf(),
        final(store).anchor() == old(store).anchor(),
        on_block_post(*old(store), block_root, block, post_state, *final(store)),
        final(store).blocks@.contains_key(block_root),
{
    if store.blocks.contains_key(&block_root) {
        return;
    }
    proof {
        let b0 = old(store).blocks@;
        let b1 = b0.insert(block_root, block);
        assert(store.anchor() != block_root);
        assert forall|r: Root| #[trigger] b1.contains_key(r) && b1.contains_key(b1[r].parent_root)
            implies b1[b1[r].parent_root].slot < b1[r].slot by {
            if r != block_root {
                assert(b0.contains_key(r));
                if b1[r].parent_root == block_root && r != store.anchor() {
                    assert(b0.contains_key(b0[r].parent_root));
                }
            }
        }
    }
    store.blocks.insert_new(block_root, block);
    store.states.insert_new(block_root, post_state);
    proof {
        assert(store.blocks.entries@[0] == old(store).blocks.entries@[0]);
        assert(store.blocks@.dom() =~= store.states@.dom());
    }
    update_head(store);
}

/// Admits a block whose post-state is its parent's state unchanged, then recomputes the head.
/// A root already admitted leaves the store unchanged.
pub fn on_block(store: &mut Store, block_root: Root, block: Block)
    requires
        old(store).wf(),
        !old(store).blocks@.contains_key(block_root) ==> {
            &&& old(store).blocks@.contains_key(block.parent_root)
            &&& old(store).blocks@[block.parent_root].slot < block.slot
            &&& block_root != old(store).anchor_parent()
        },
    ensures
        final(store).wf(),
        final(store).anchor() == old(store).anchor(),
        on_block_post(
            *old(store),
            block_root,
            block,
            old(store).states@[block.parent_root],
            *final(store),
        ),
        final(store).blocks@.contains_key(block_root),
{
    if store.blocks.contains_key(&block_root) {
        return;
    }
    let i = store.states.index_of(&block.parent_root).unwrap();
    let parent_state = store.states.entries[i].1;
    on_block_with_state(store, block_root, block, parent_state);
}

/// Brings the store to the start of `slot` as its proposer, accepts all pending votes, and
/// returns the head to build on.
pub fn get_proposal_head(store: &mut Store, slot: u64, genesis_time: u64) -> (r: Root)
    requires
        old(store).wf(),
        genesis_time + slot * SECONDS_PER_SLOT <= u64::MAX,
    ensures
        final(store).wf(),
        r == final(store).head,
        final(store).latest_new_votes@.len() == 0,
        derived_current(*final(store)),
        final(store).time == if old(store).time < slot * INTERVALS_PER_SLOT {
            slot * INTERVALS_PER_SLOT
        } else {
            old(store).time as int
        },
        final(store).blocks == old(store).blocks,
        final(store).states == old(store).states,
{
    let slot_time = genesis_time + slot * SECONDS_PER_SLOT;
    assert(elapsed_intervals(slot_time, genesis_time) == slot * INTERVALS_PER_SLOT) by {
        assert((slot * 12) / 3 == slot * 4) by (nonlinear_arith);
    }
    on_tick(store, slot_time, true, genesis_time);
    accept_new_votes(store);
    store.head
}

/// Admitting the same root twice is the same as admitting it once.
pub proof fn lemma_on_block_idempotent(
    s0: Store,
    s1: Store,
    s2: Store,
    root: Root,
    block: Block,
    state1: State,
    state2: State,
)
    requires
        on_block_post(s0, root, block, state1, s1),
        on_block_post(s1, root, block, state2, s2),
    ensures
        s2 == s1,
{
}

/// Ticking twice to the same time without a proposal: the second tick changes nothing, and
/// a store that was not ahead sits at the elapsed intervals.
pub proof fn lemma_on_tick_catch_up(s0: Store, s1: Store, s2: Store, time: u64, genesis_time: u64)
    requires
        caught_up(s0, time, genesis_time, s1),
        caught_up(s1, time, genesis_time, s2),
    ensures
        s2 == s1,
        s0.time <= elapsed_intervals(time, genesis_time) ==> s1.time == elapsed_intervals(
            time,
            genesis_time,
        ),
{
}

/// An on-chain vote never lowers the slot held for a validator in the known pool.
pub proof fn lemma_known_slot_monotone(
    known: Map<ValidatorIndex, Checkpoint>,
    v: ValidatorIndex,
    c: Checkpoint,
    is_from_block: bool,
    u: ValidatorIndex,
)
    requires
        known.contains_key(u),
    ensures
        known_after(known, v, c, is_from_block).contains_key(u),
        known_after(known, v, c, is_from_block)[u].slot >= known[u].slot,
{
}

/// Every validator held in both pools has a strictly newer gossiped vote than its on-chain one.
pub open spec fn pools_ordered(
    known: Map<ValidatorIndex, Checkpoint>,
    new: Map<ValidatorIndex, Checkpoint>,
) -> bool {
    forall|v: ValidatorIndex|
        #[trigger] known.contains_key(v) && new.contains_key(v) ==> new[v].slot > known[v].slot
}

/// The votes after which the pools can fall out of order: an on-chain vote that is taken into
/// the known pool while a gossiped vote of the same slot stays, and a gossiped vote that is
/// taken into the new pool while no newer than the known one.
pub open spec fn unorders_pools(
    known: Map<ValidatorIndex, Checkpoint>,
    new: Map<ValidatorIndex, Checkpoint>,
    v: ValidatorIndex,
    c: Checkpoint,
    is_from_block: bool,
    slot_now: u64,
) -> bool {
    if is_from_block {
        &&& new.contains_key(v)
        &&& new[v].slot == c.slot
        &&& !known.contains_key(v) || known[v].slot < c.slot
    } else {
        &&& c.slot <= slot_now
        &&& !new.contains_key(v) || new[v].slot < c.slot
        &&& known.contains_key(v)
        &&& known[v].slot >= c.slot
    }
}

/// Filing a vote keeps the pools in order, but for the votes that `unorders_pools` names.
pub proof fn lemma_pools_stay_ordered(
    known: Map<ValidatorIndex, Checkpoint>,
    new: Map<ValidatorIndex, Checkpoint>,
    v: ValidatorIndex,
    c: Checkpoint,
    is_from_block: bool,
    slot_now: u64,
)
    requires
        pools_ordered(known, new),
        !unorders_pools(known, new, v, c, is_from_block, slot_now),
    ensures
        pools_ordered(
            known_after(known, v, c, is_from_block),
            new_after(new, v, c, is_from_block, slot_now),
        ),
{
    let k2 = known_after(known, v, c, is_from_block);
    let n2 = new_after(new, v, c, is_from_block, slot_now);
    assert forall|u: ValidatorIndex| #[trigger] k2.contains_key(u) && n2.contains_key(u) implies n2[u].slot
        > k2[u].slot by {
        if u != v {
            assert(known.contains_key(u) && new.contains_key(u));
        }
    }
}

} // verus!
