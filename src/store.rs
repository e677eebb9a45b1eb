use vstd::prelude::*;
use crate::helpers::slots_increase;
use crate::maps::{RootMap, VoteMap};
use crate::types::{Block, Checkpoint, Interval, Root, State, INTERVALS_PER_SLOT, ZERO_HASH};

verus! {

/// The fork-choice state: logical time, derived roots and checkpoints, the block tree with
/// the post-state of each block, and the two vote pools.
#[derive(Debug)]
pub struct Store {
    pub time: Interval,
    pub head: Root,
    pub safe_target: Root,
    pub latest_justified: Checkpoint,
    pub latest_finalized: Checkpoint,
    pub blocks: RootMap<Block>,
    pub states: RootMap<State>,
    /// Votes already included on chain.
    pub latest_known_votes: VoteMap,
    /// Votes seen over gossip and not yet accepted.
    pub latest_new_votes: VoteMap,
}

/// A checkpoint root that a descent may start from: the zero root or a known block.
pub open spec fn usable_start(blocks: Map<Root, Block>, root: Root) -> bool {
    root == ZERO_HASH || blocks.contains_key(root)
}

impl Store {
    /// The block the store was created from.
    pub open spec fn anchor(&self) -> Root {
        self.blocks.entries@[0].0
    }

    /// The parent root named by the anchor block, which is never admitted.
    pub open spec fn anchor_parent(&self) -> Root {
        self.blocks@[self.anchor()].parent_root
    }

    /// Every admitted block other than the anchor has its parent admitted.
    pub open spec fn parents_known(&self) -> bool {
        forall|r: Root|
            #[trigger] self.blocks@.contains_key(r) && r != self.anchor() ==> self.blocks@.contains_key(
                self.blocks@[r].parent_root,
            )
    }

    pub open spec fn wf(&self) -> bool {
        &&& self.blocks.wf()
        &&& self.states.wf()
        &&& self.latest_known_votes.wf()
        &&& self.latest_new_votes.wf()
        &&& self.blocks.entries@.len() > 0
        &&& self.blocks@.dom() == self.states@.dom()
        &&& self.parents_known()
        &&& slots_increase(self.blocks@)
        &&& forall|r: Root|
            #[trigger] self.states@.contains_key(r) ==> usable_start(
                self.blocks@,
                self.states@[r].latest_justified.root,
            )
        &&& usable_start(self.blocks@, self.latest_justified.root)
        &&& self.blocks@.contains_key(self.head)
        &&& self.blocks@.contains_key(self.safe_target)
    }

    /// A store holding the anchor block alone, with its state; time starts at the anchor's slot.
    pub fn new(anchor_state: State, anchor_block: Block, anchor_root: Root) -> (r: Store)
        requires
            anchor_block.slot <= u64::MAX / INTERVALS_PER_SLOT,
            anchor_block.parent_root != anchor_root,
            usable_start(map![anchor_root => anchor_block], anchor_state.latest_justified.root),
        ensures
            r.wf(),
            r.time == anchor_block.slot * INTERVALS_PER_SLOT,
            r.head == anchor_root,
            r.safe_target == anchor_root,
            r.latest_justified == anchor_state.latest_justified,
            r.latest_finalized == anchor_state.latest_finalized,
            r.anchor() == anchor_root,
            r.blocks@ == map![anchor_root => anchor_block],
            r.states@ == map![anchor_root => anchor_state],
            r.latest_known_votes@ == Map::<u64, Checkpoint>::empty(),
            r.latest_new_votes@ == Map::<u64, Checkpoint>::empty(),
    {
        let mut blocks = RootMap::new();
        blocks.insert_new(anchor_root, anchor_block);
        let mut states = RootMap::new();
        states.insert_new(anchor_root, anchor_state);
        let r = Store {
            time: anchor_block.slot * INTERVALS_PER_SLOT,
            head: anchor_root,
            safe_target: anchor_root,
            latest_justified: anchor_state.latest_justified,
            latest_finalized: anchor_state.latest_finalized,
            blocks,
            states,
            latest_known_votes: VoteMap::new(),
            latest_new_votes: VoteMap::new(),
        };
        proof {
            assert(r.blocks@ =~= map![anchor_root => anchor_block]);
            assert(r.states@ =~= map![anchor_root => anchor_state]);
            assert(r.blocks@.dom() =~= r.states@.dom());
        }
        r
    }
}

/// A store built from the anchor, keyed by the anchor block's state root.
pub fn get_forkchoice_store(anchor_state: State, anchor_block: Block) -> (r: Store)
    requires
        anchor_block.slot <= u64::MAX / INTERVALS_PER_SLOT,
        anchor_block.parent_root != anchor_block.state_root,
        usable_start(
            map![anchor_block.state_root => anchor_block],
            anchor_state.latest_justified.root,
        ),
    ensures
        r.wf(),
        r.time == anchor_block.slot * INTERVALS_PER_SLOT,
        r.head == anchor_block.state_root,
        r.safe_target == anchor_block.state_root,
        r.latest_justified == anchor_state.latest_justified,
        r.latest_finalized == anchor_state.latest_finalized,
        r.anchor() == anchor_block.state_root,
        r.blocks@ == map![anchor_block.state_root => anchor_block],
        r.states@ == map![anchor_block.state_root => anchor_state],
        r.latest_known_votes@ == Map::<u64, Checkpoint>::empty(),
        r.latest_new_votes@ == Map::<u64, Checkpoint>::empty(),
{
    Store::new(anchor_state, anchor_block, anchor_block.state_root)
}

/// In a well-formed store, every admitted block but the anchor has its parent admitted.
pub proof fn lemma_parent_admitted(store: Store, r: Root)
    requires
        store.wf(),
        store.blocks@.contains_key(r),
        r != store.anchor(),
    ensures
        store.blocks@.contains_key(store.blocks@[r].parent_root),
{
}

} // verus!
