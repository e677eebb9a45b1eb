use vstd::prelude::*;
use crate::maps::{has_key, lemma_map_of_all, lemma_map_of_len, RootMap, VoteMap};
use crate::order::{key_greater, key_gt, lemma_key_gt_asymmetric, lemma_key_gt_transitive};
use crate::types::{is_zero_root, root_cmp, Block, Checkpoint, Root, State, ValidatorIndex, ZERO_HASH};

verus! {

/// Every block whose parent is known sits at a strictly higher slot than that parent.
pub open spec fn slots_increase(blocks: Map<Root, Block>) -> bool {
    forall|r: Root|
        #[trigger] blocks.contains_key(r) && blocks.contains_key(blocks[r].parent_root)
            ==> blocks[blocks[r].parent_root].slot < blocks[r].slot
}

/// Whether `r` lies on the ancestor walk that starts at `cur` and stops at the first
/// block that is unknown or not above slot `floor`.
pub open spec fn on_path(blocks: Map<Root, Block>, cur: Root, r: Root, floor: u64) -> bool
    decreases blocks[cur].slot,
{
    if blocks.contains_key(cur) && blocks[cur].slot > floor {
        cur == r || {
            let p = blocks[cur].parent_root;
            blocks.contains_key(p) && blocks[p].slot < blocks[cur].slot && on_path(
                blocks,
                p,
                r,
                floor,
            )
        }
    } else {
        false
    }
}

/// Number of votes whose ancestor walk above `floor` passes through `r`.
pub open spec fn vote_weight(
    blocks: Map<Root, Block>,
    votes: Seq<(ValidatorIndex, Checkpoint)>,
    floor: u64,
    r: Root,
) -> nat
    decreases votes.len(),
{
    if votes.len() == 0 {
        0
    } else {
        vote_weight(blocks, votes.drop_last(), floor, r) + if on_path(
            blocks,
            votes.last().1.root,
            r,
            floor,
        ) {
            1nat
        } else {
            0nat
        }
    }
}

/// The key by which candidate children are ranked: weight, then slot, then root.
pub open spec fn child_key(
    blocks: Map<Root, Block>,
    votes: Seq<(ValidatorIndex, Checkpoint)>,
    floor: u64,
    c: Root,
) -> (nat, u64, Root) {
    (vote_weight(blocks, votes, floor, c), blocks[c].slot, c)
}

/// `c` is a child of `cur` in the traversal: a known block under `cur` (which is not the
/// zero root) with at least `min_score` weight.
pub open spec fn eligible(
    blocks: Map<Root, Block>,
    votes: Seq<(ValidatorIndex, Checkpoint)>,
    floor: u64,
    min_score: nat,
    cur: Root,
    c: Root,
) -> bool {
    &&& blocks.contains_key(c)
    &&& blocks[c].parent_root == cur
    &&& cur != ZERO_HASH
    &&& vote_weight(blocks, votes, floor, c) >= min_score
}

/// `c` is the child of `cur` that outranks every other child.
pub open spec fn is_best_child(
    blocks: Map<Root, Block>,
    votes: Seq<(ValidatorIndex, Checkpoint)>,
    floor: u64,
    min_score: nat,
    cur: Root,
    c: Root,
) -> bool {
    &&& eligible(blocks, votes, floor, min_score, cur, c)
    &&& forall|d: Root|
        #[trigger] eligible(blocks, votes, floor, min_score, cur, d) && d != c ==> key_gt(
            child_key(blocks, votes, floor, c),
            child_key(blocks, votes, floor, d),
        )
}

/// Greedy descent from `cur`: follow the best child until none is left.
pub open spec fn descend(
    blocks: Map<Root, Block>,
    votes: Seq<(ValidatorIndex, Checkpoint)>,
    floor: u64,
    min_score: nat,
    cur: Root,
) -> Root
    decreases (u64::MAX as int) - (blocks[cur].slot as int),
{
    if exists|c: Root| is_best_child(blocks, votes, floor, min_score, cur, c) {
        let c = choose|c: Root| is_best_child(blocks, votes, floor, min_score, cur, c);
        if blocks.contains_key(cur) && blocks[c].slot > blocks[cur].slot {
            descend(blocks, votes, floor, min_score, c)
        } else {
            cur
        }
    } else {
        cur
    }
}

/// `s` is the known block of lowest slot, the lower root breaking ties.
pub open spec fn is_lowest(blocks: Map<Root, Block>, s: Root) -> bool {
    &&& blocks.contains_key(s)
    &&& forall|t: Root|
        #[trigger] blocks.contains_key(t) && t != s ==> key_gt(
            (0nat, blocks[t].slot, t),
            (0nat, blocks[s].slot, s),
        )
}

/// Where the descent starts: `root`, or the lowest block when `root` is the zero root.
pub open spec fn start_of(blocks: Map<Root, Block>, root: Root) -> Root {
    if root == ZERO_HASH {
        choose|s: Root| is_lowest(blocks, s)
    } else {
        root
    }
}

/// The head chosen from `root` under `votes`, pruning children below `min_score`.
pub open spec fn fork_choice_head(
    blocks: Map<Root, Block>,
    root: Root,
    votes: Seq<(ValidatorIndex, Checkpoint)>,
    min_score: nat,
) -> Root {
    let s = start_of(blocks, root);
    descend(blocks, votes, blocks[s].slot, min_score, s)
}

pub proof fn lemma_on_path_below(blocks: Map<Root, Block>, cur: Root, r: Root, floor: u64)
    requires
        on_path(blocks, cur, r, floor),
    ensures
        blocks.contains_key(r),
        blocks[r].slot <= blocks[cur].slot,
    decreases blocks[cur].slot,
{
    if cur != r {
        lemma_on_path_below(blocks, blocks[cur].parent_root, r, floor);
    }
}

pub proof fn lemma_vote_weight_bound(
    blocks: Map<Root, Block>,
    votes: Seq<(ValidatorIndex, Checkpoint)>,
    floor: u64,
    r: Root,
)
    ensures
        vote_weight(blocks, votes, floor, r) <= votes.len(),
    decreases votes.len(),
{
    if votes.len() > 0 {
        lemma_vote_weight_bound(blocks, votes.drop_last(), floor, r);
    }
}

/// The tie-break leaves no choice: at most one child outranks all others, so the descent,
/// and with it the head, is determined by the blocks, the start, the votes and the threshold.
pub proof fn lemma_best_child_unique(
    blocks: Map<Root, Block>,
    votes: Seq<(ValidatorIndex, Checkpoint)>,
    floor: u64,
    min_score: nat,
    cur: Root,
    c1: Root,
    c2: Root,
)
    requires
        is_best_child(blocks, votes, floor, min_score, cur, c1),
        is_best_child(blocks, votes, floor, min_score, cur, c2),
    ensures
        c1 == c2,
{
    if c1 != c2 {
        assert(eligible(blocks, votes, floor, min_score, cur, c2));
        assert(eligible(blocks, votes, floor, min_score, cur, c1));
        lemma_key_gt_asymmetric(
            child_key(blocks, votes, floor, c1),
            child_key(blocks, votes, floor, c2),
        );
    }
}

/// At most one block is the lowest, so the start substituted for the zero root is determined.
pub proof fn lemma_lowest_unique(blocks: Map<Root, Block>, s1: Root, s2: Root)
    requires
        is_lowest(blocks, s1),
        is_lowest(blocks, s2),
    ensures
        s1 == s2,
{
    if s1 != s2 {
        assert(blocks.contains_key(s2));
        assert(blocks.contains_key(s1));
        lemma_key_gt_asymmetric((0nat, blocks[s2].slot, s2), (0nat, blocks[s1].slot, s1));
    }
}

/// Position of the lowest block (by slot, then root).
fn lowest_block(blocks: &RootMap<Block>) -> (r: usize)
    requires
        blocks.wf(),
        blocks.entries@.len() > 0,
    ensures
        r < blocks.entries@.len(),
        is_lowest(blocks@, blocks.entries@[r as int].0),
{
    let ghost s = blocks.entries@;
    let mut best: usize = 0;
    let mut j: usize = 1;
    while j < blocks.entries.len()
        invariant
            s == blocks.entries@,
            blocks.wf(),
            1 <= j <= s.len(),
            best < j,
            forall|k: int|
                0 <= k < j && s[k].0 != s[best as int].0 ==> #[trigger] key_gt(
                    (0nat, s[k].1.slot, s[k].0),
                    (0nat, s[best as int].1.slot, s[best as int].0),
                ),
        decreases s.len() - j,
    {
        let lower = key_greater(
            0,
            blocks.entries[best].1.slot,
            &blocks.entries[best].0,
            0,
            blocks.entries[j].1.slot,
            &blocks.entries[j].0,
        );
        if lower {
            proof {
                assert forall|k: int| 0 <= k < j + 1 && s[k].0 != s[j as int].0 implies #[trigger] key_gt(
                    (0nat, s[k].1.slot, s[k].0),
                    (0nat, s[j as int].1.slot, s[j as int].0),
                ) by {
                    if s[k].0 != s[best as int].0 {
                        lemma_key_gt_transitive(
                            (0nat, s[k].1.slot, s[k].0),
                            (0nat, s[best as int].1.slot, s[best as int].0),
                            (0nat, s[j as int].1.slot, s[j as int].0),
                        );
                    }
                }
            }
            best = j;
        }
        j = j + 1;
    }
    proof {
        lemma_map_of_all(s);
        let b = s[best as int].0;
        assert forall|t: Root| #[trigger] blocks@.contains_key(t) && t != b implies key_gt(
            (0nat, blocks@[t].slot, t),
            (0nat, blocks@[b].slot, b),
        ) by {
            assert(has_key(s, t));
            let k = choose|k: int| 0 <= k < s.len() && #[trigger] s[k].0 == t;
            assert(key_gt((0nat, s[k].1.slot, s[k].0), (0nat, s[best as int].1.slot, s[best as int].0)));
        }
    }
    best
}

/// Weight of every block above `floor`, in the order of the block entries.
fn compute_weights(blocks: &RootMap<Block>, votes: &VoteMap, floor: u64) -> (w: Vec<usize>)
    requires
        blocks.wf(),
        votes.wf(),
        slots_increase(blocks@),
    ensures
        w@.len() == blocks.entries@.len(),
        forall|k: int|
            0 <= k < w@.len() ==> #[trigger] w@[k] == vote_weight(
                blocks@,
                votes.entries@,
                floor,
                blocks.entries@[k].0,
            ),
{
    let ghost s = blocks.entries@;
    let ghost vs = votes.entries@;
    let n = blocks.entries.len();
    let mut w: Vec<usize> = Vec::new();
    while w.len() < n
        invariant
            w@.len() <= n,
            n == s.len(),
            forall|k: int| 0 <= k < w@.len() ==> #[trigger] w@[k] == 0,
        decreases n - w@.len(),
    {
        w.push(0);
    }
    proof {
        lemma_map_of_all(s);
    }
    let mut i: usize = 0;
    while i < votes.entries.len()
        invariant
            s == blocks.entries@,
            vs == votes.entries@,
            blocks.wf(),
            slots_increase(blocks@),
            0 <= i <= vs.len(),
            w@.len() == s.len(),
            forall|k: int|
                0 <= k < s.len() ==> #[trigger] w@[k] == vote_weight(
                    blocks@,
                    vs.take(i as int),
                    floor,
                    s[k].0,
                ),
        decreases vs.len() - i,
    {
        let vroot: Root = votes.entries[i].1.root;
        let mut cur: Root = vroot;
        proof {
            lemma_map_of_all(s);
        }
        loop
            invariant
                s == blocks.entries@,
                vs == votes.entries@,
                blocks.wf(),
                slots_increase(blocks@),
                0 <= i < vs.len(),
                i < usize::MAX,
                vroot == vs[i as int].1.root,
                w@.len() == s.len(),
                forall|r: Root| on_path(blocks@, cur, r, floor) ==> on_path(blocks@, vroot, r, floor),
                forall|k: int|
                    0 <= k < s.len() ==> #[trigger] w@[k] == vote_weight(
                        blocks@,
                        vs.take(i as int),
                        floor,
                        s[k].0,
                    ) + if on_path(blocks@, vroot, s[k].0, floor) && !on_path(
                        blocks@,
                        cur,
                        s[k].0,
                        floor,
                    ) {
                        1nat
                    } else {
                        0nat
                    },
            ensures
                forall|r: Root| !on_path(blocks@, cur, r, floor),
            decreases if blocks@.contains_key(cur) {
                blocks@[cur].slot + 1
            } else {
                0
            },
        {
            match blocks.index_of(&cur) {
                Some(k) => {
                    if blocks.entries[k].1.slot <= floor {
                        proof {
                            lemma_map_of_all(s);
                        }
                        break;
                    }
                    let p = blocks.entries[k].1.parent_root;
                    proof {
                        lemma_map_of_all(s);
                        assert(on_path(blocks@, cur, cur, floor));
                        assert forall|r: Root| #[trigger] on_path(blocks@, cur, r, floor) == (r == cur
                            || on_path(blocks@, p, r, floor)) by {
                            if blocks@.contains_key(p) {
                                assert(blocks@[p].slot < blocks@[cur].slot);
                            }
                        }
                        if on_path(blocks@, p, cur, floor) {
                            lemma_on_path_below(blocks@, p, cur, floor);
                        }
                        lemma_vote_weight_bound(blocks@, vs.take(i as int), floor, cur);
                        assert(vs.take(i as int).len() == i);
                        assert(w@[k as int] == vote_weight(blocks@, vs.take(i as int), floor, s[k as int].0));
                        assert forall|k2: int| 0 <= k2 < s.len() && k2 != k implies s[k2].0 != cur by {
                            if s[k2].0 == cur {
                                assert(s[k2].0 == s[k as int].0);
                            }
                        }
                    }
                    w.set(k, w[k] + 1);
                    cur = p;
                },
                None => {
                    break;
                },
            }
        }
        proof {
            let t = vs.take(i as int + 1);
            assert(t.drop_last() =~= vs.take(i as int));
            assert(t.last() == vs[i as int]);
            assert forall|k: int| 0 <= k < s.len() implies #[trigger] w@[k] == vote_weight(
                blocks@,
                t,
                floor,
                s[k].0,
            ) by {
            }
        }
        i = i + 1;
    }
    proof {
        assert(vs.take(vs.len() as int) =~= vs);
    }
    w
}

/// LMD-GHOST head selection: from `root` (or, when `root` is the zero root, the lowest
/// block), repeatedly step to the child of greatest (weight, slot, root) among those whose
/// weight reaches `min_score`, where a block's weight is the number of votes whose ancestor
/// walk passes through it above the start's slot.
pub fn get_fork_choice_head(
    blocks: &RootMap<Block>,
    root: Root,
    latest_votes: &VoteMap,
    min_score: usize,
) -> (r: Root)
    requires
        blocks.wf(),
        latest_votes.wf(),
        slots_increase(blocks@),
        root == ZERO_HASH ==> blocks@.len() > 0,
        root != ZERO_HASH ==> blocks@.contains_key(root),
    ensures
        blocks@.contains_key(r),
        r == fork_choice_head(blocks@, root, latest_votes.entries@, min_score as nat),
{
    let ghost s = blocks.entries@;
    let ghost vs = latest_votes.entries@;
    let ghost min = min_score as nat;
    proof {
        lemma_map_of_all(s);
        lemma_map_of_len(s);
    }
    let start_idx: usize = if is_zero_root(&root) {
        let b = lowest_block(blocks);
        proof {
            let c = choose|x: Root| is_lowest(blocks@, x);
            lemma_lowest_unique(blocks@, c, s[b as int].0);
        }
        b
    } else {
        blocks.index_of(&root).unwrap()
    };
    let ghost start = s[start_idx as int].0;
    assert(start == start_of(blocks@, root));
    let floor = blocks.entries[start_idx].1.slot;
    let w = compute_weights(blocks, latest_votes, floor);
    let n = blocks.entries.len();
    let mut cur: usize = start_idx;
    loop
        invariant
            s == blocks.entries@,
            vs == latest_votes.entries@,
            min == min_score as nat,
            blocks.wf(),
            slots_increase(blocks@),
            n == s.len(),
            w@.len() == n,
            forall|k: int|
                0 <= k < w@.len() ==> #[trigger] w@[k] == vote_weight(blocks@, vs, floor, s[k].0),
            cur < n,
            descend(blocks@, vs, floor, min, s[cur as int].0) == fork_choice_head(
                blocks@,
                root,
                vs,
                min,
            ),
        decreases (u64::MAX as int) - (s[cur as int].1.slot as int),
    {
        let cur_root: Root = blocks.entries[cur].0;
        let cur_zero = is_zero_root(&cur_root);
        let mut best: Option<usize> = None;
        let mut j: usize = 0;
        proof {
            lemma_map_of_all(s);
        }
        while j < n
            invariant
                s == blocks.entries@,
                vs == latest_votes.entries@,
                min == min_score as nat,
                blocks.wf(),
                n == s.len(),
                w@.len() == n,
                forall|k: int|
                    0 <= k < w@.len() ==> #[trigger] w@[k] == vote_weight(blocks@, vs, floor, s[k].0),
                forall|k: int|
                    0 <= k < s.len() ==> #[trigger] blocks@.contains_key(s[k].0) && blocks@[s[k].0]
                        == s[k].1,
                cur_zero == (cur_root == ZERO_HASH),
                j <= n,
                match best {
                    None => forall|k: int|
                        0 <= k < j ==> !#[trigger] eligible(blocks@, vs, floor, min, cur_root, s[k].0),
                    Some(b) => b < j && eligible(blocks@, vs, floor, min, cur_root, s[b as int].0)
                        && forall|k: int|
                        0 <= k < j && #[trigger] eligible(blocks@, vs, floor, min, cur_root, s[k].0)
                            && s[k].0 != s[b as int].0 ==> key_gt(
                            child_key(blocks@, vs, floor, s[b as int].0),
                            child_key(blocks@, vs, floor, s[k].0),
                        ),
                },
            decreases n - j,
        {
            let heavy = w[j] >= min_score;
            let under = root_cmp(&blocks.entries[j].1.parent_root, &cur_root) == 0;
            let is_child = !cur_zero && heavy && under;
            proof {
                assert(blocks@.contains_key(s[j as int].0) && blocks@[s[j as int].0] == s[j as int].1);
                assert(w@[j as int] == vote_weight(blocks@, vs, floor, s[j as int].0));
            }
            assert(is_child == eligible(blocks@, vs, floor, min, cur_root, s[j as int].0));
            if is_child {
                match best {
                    None => {
                        best = Some(j);
                    },
                    Some(b) => {
                        let above = key_greater(
                            w[j],
                            blocks.entries[j].1.slot,
                            &blocks.entries[j].0,
                            w[b],
                            blocks.entries[b].1.slot,
                            &blocks.entries[b].0,
                        );
                        if above {
                            proof {
                                assert forall|k: int|
                                    0 <= k < j + 1 && #[trigger] eligible(
                                        blocks@,
                                        vs,
                                        floor,
                                        min,
                                        cur_root,
                                        s[k].0,
                                    ) && s[k].0 != s[j as int].0 implies key_gt(
                                    child_key(blocks@, vs, floor, s[j as int].0),
                                    child_key(blocks@, vs, floor, s[k].0),
                                ) by {
                                    if s[k].0 != s[b as int].0 {
                                        lemma_key_gt_transitive(
                                            child_key(blocks@, vs, floor, s[j as int].0),
                                            child_key(blocks@, vs, floor, s[b as int].0),
                                            child_key(blocks@, vs, floor, s[k].0),
                                        );
                                    }
                                }
                            }
                            best = Some(j);
                        } else {
                            proof {
                                assert(s[j as int].0 != s[b as int].0);
                            }
                        }
                    },
                }
            }
            j = j + 1;
        }
        match best {
            None => {
                proof {
                    assert forall|c: Root| !is_best_child(blocks@, vs, floor, min, cur_root, c) by {
                        if is_best_child(blocks@, vs, floor, min, cur_root, c) {
                            assert(has_key(s, c));
                            let k = choose|k: int| 0 <= k < s.len() && #[trigger] s[k].0 == c;
                            assert(eligible(blocks@, vs, floor, min, cur_root, s[k].0));
                        }
                    }
                    assert(!exists|c: Root| is_best_child(blocks@, vs, floor, min, cur_root, c));
                    assert(descend(blocks@, vs, floor, min, cur_root) == cur_root);
                }
                return cur_root;
            },
            Some(b) => {
                proof {
                    let c = s[b as int].0;
                    assert forall|d: Root|
                        #[trigger] eligible(blocks@, vs, floor, min, cur_root, d) && d != c implies key_gt(
                        child_key(blocks@, vs, floor, c),
                        child_key(blocks@, vs, floor, d),
                    ) by {
                        assert(has_key(s, d));
                        let k = choose|k: int| 0 <= k < s.len() && #[trigger] s[k].0 == d;
                        assert(eligible(blocks@, vs, floor, min, cur_root, s[k].0));
                    }
                    assert(is_best_child(blocks@, vs, floor, min, cur_root, c));
                    let c2 = choose|x: Root| is_best_child(blocks@, vs, floor, min, cur_root, x);
                    lemma_best_child_unique(blocks@, vs, floor, min, cur_root, c, c2);
                    assert(blocks@.contains_key(cur_root));
                    assert(blocks@[c].slot > blocks@[cur_root].slot);
                    assert(descend(blocks@, vs, floor, min, cur_root) == descend(
                        blocks@,
                        vs,
                        floor,
                        min,
                        c,
                    ));
                }
                cur = b;
            },
        }
    }
}

/// Ranking key of a checkpoint: its slot, then its root.
pub open spec fn checkpoint_key(c: Checkpoint) -> (nat, u64, Root) {
    (0nat, c.slot, c.root)
}

/// `c` is the justified checkpoint of some state and ranks above every other one.
pub open spec fn is_latest_justified(states: Map<Root, State>, c: Checkpoint) -> bool {
    &&& exists|r: Root| #[trigger] states.contains_key(r) && states[r].latest_justified == c
    &&& forall|r: Root|
        #[trigger] states.contains_key(r) ==> states[r].latest_justified == c || key_gt(
            checkpoint_key(c),
            checkpoint_key(states[r].latest_justified),
        )
}

/// The justified checkpoint of greatest slot over all states, the greater root breaking ties.
pub open spec fn latest_justified_of(states: Map<Root, State>) -> Checkpoint {
    choose|c: Checkpoint| is_latest_justified(states, c)
}

/// At most one checkpoint is the latest justified one.
pub proof fn lemma_latest_justified_unique(states: Map<Root, State>, c1: Checkpoint, c2: Checkpoint)
    requires
        is_latest_justified(states, c1),
        is_latest_justified(states, c2),
    ensures
        c1 == c2,
{
    let r1 = choose|r: Root| #[trigger] states.contains_key(r) && states[r].latest_justified == c1;
    let r2 = choose|r: Root| #[trigger] states.contains_key(r) && states[r].latest_justified == c2;
    if c1 != c2 {
        assert(key_gt(checkpoint_key(c1), checkpoint_key(c2)));
        assert(key_gt(checkpoint_key(c2), checkpoint_key(c1)));
        lemma_key_gt_asymmetric(checkpoint_key(c1), checkpoint_key(c2));
    }
}

/// The latest justified checkpoint across all states, or `None` when there are none.
pub fn get_latest_justified(states: &RootMap<State>) -> (r: Option<Checkpoint>)
    requires
        states.wf(),
    ensures
        r is None <==> states@.len() == 0,
        r is Some ==> r->0 == latest_justified_of(states@),
        r is Some ==> is_latest_justified(states@, r->0),
{
    let ghost s = states.entries@;
    proof {
        lemma_map_of_all(s);
        lemma_map_of_len(s);
    }
    if states.entries.len() == 0 {
        return None;
    }
    let mut best: usize = 0;
    let mut j: usize = 1;
    while j < states.entries.len()
        invariant
            s == states.entries@,
            1 <= j <= s.len(),
            best < j,
            forall|k: int|
                0 <= k < j ==> #[trigger] s[k].1.latest_justified == s[best as int].1.latest_justified
                    || key_gt(
                    checkpoint_key(s[best as int].1.latest_justified),
                    checkpoint_key(s[k].1.latest_justified),
                ),
        decreases s.len() - j,
    {
        let cj = states.entries[j].1.latest_justified;
        let cb = states.entries[best].1.latest_justified;
        let above = key_greater(0, cj.slot, &cj.root, 0, cb.slot, &cb.root);
        if above {
            proof {
                assert forall|k: int| 0 <= k < j + 1 implies #[trigger] s[k].1.latest_justified
                    == cj || key_gt(checkpoint_key(cj), checkpoint_key(s[k].1.latest_justified)) by {
                    if k < j && s[k].1.latest_justified != cb {
                        lemma_key_gt_transitive(
                            checkpoint_key(cj),
                            checkpoint_key(cb),
                            checkpoint_key(s[k].1.latest_justified),
                        );
                    }
                }
            }
            best = j;
        }
        j = j + 1;
    }
    let c = states.entries[best].1.latest_justified;
    proof {
        assert(states@.contains_key(s[best as int].0));
        assert forall|r: Root| #[trigger] states@.contains_key(r) implies states@[r].latest_justified
            == c || key_gt(checkpoint_key(c), checkpoint_key(states@[r].latest_justified)) by {
            assert(has_key(s, r));
            let k = choose|k: int| 0 <= k < s.len() && #[trigger] s[k].0 == r;
            assert(s[k].1.latest_justified == c || key_gt(
                checkpoint_key(c),
                checkpoint_key(s[k].1.latest_justified),
            ));
        }
        assert(is_latest_justified(states@, c));
        let c2 = choose|x: Checkpoint| is_latest_justified(states@, x);
        lemma_latest_justified_unique(states@, c, c2);
    }
    Some(c)
}

/// Number of steps the greedy descent takes from `cur`.
pub open spec fn descent_steps(
    blocks: Map<Root, Block>,
    votes: Seq<(ValidatorIndex, Checkpoint)>,
    floor: u64,
    min_score: nat,
    cur: Root,
) -> nat
    decreases (u64::MAX as int) - (blocks[cur].slot as int),
{
    if exists|c: Root| is_best_child(blocks, votes, floor, min_score, cur, c) {
        let c = choose|c: Root| is_best_child(blocks, votes, floor, min_score, cur, c);
        if blocks.contains_key(cur) && blocks[c].slot > blocks[cur].slot {
            1 + descent_steps(blocks, votes, floor, min_score, c)
        } else {
            0
        }
    } else {
        0
    }
}

/// Known blocks at a slot above `slot`.
pub open spec fn blocks_above(blocks: Map<Root, Block>, slot: u64) -> Set<Root> {
    blocks.dom().filter(|r: Root| blocks[r].slot > slot)
}

proof fn lemma_descent_steps_above(
    blocks: Map<Root, Block>,
    votes: Seq<(ValidatorIndex, Checkpoint)>,
    floor: u64,
    min_score: nat,
    cur: Root,
)
    requires
        blocks.dom().finite(),
    ensures
        descent_steps(blocks, votes, floor, min_score, cur) <= blocks_above(
            blocks,
            blocks[cur].slot,
        ).len(),
    decreases (u64::MAX as int) - (blocks[cur].slot as int),
{
    let above = blocks_above(blocks, blocks[cur].slot);
    vstd::set_lib::lemma_len_subset(above, blocks.dom());
    if exists|c: Root| is_best_child(blocks, votes, floor, min_score, cur, c) {
        let c = choose|c: Root| is_best_child(blocks, votes, floor, min_score, cur, c);
        if blocks.contains_key(cur) && blocks[c].slot > blocks[cur].slot {
            lemma_descent_steps_above(blocks, votes, floor, min_score, c);
            let next = blocks_above(blocks, blocks[c].slot);
            assert(next.subset_of(above.remove(c)));
            assert(above.contains(c));
            vstd::set::axiom_set_remove_len(above, c);
            vstd::set_lib::lemma_len_subset(next, above.remove(c));
        }
    }
}

/// Head selection takes fewer descent steps than there are blocks.
pub proof fn lemma_find_head_steps_bounded(
    blocks: Map<Root, Block>,
    root: Root,
    votes: Seq<(ValidatorIndex, Checkpoint)>,
    min_score: nat,
)
    requires
        blocks.dom().finite(),
        blocks.contains_key(start_of(blocks, root)),
    ensures
        ({
            let s = start_of(blocks, root);
            descent_steps(blocks, votes, blocks[s].slot, min_score, s) < blocks.len()
        }),
{
    let s = start_of(blocks, root);
    lemma_descent_steps_above(blocks, votes, blocks[s].slot, min_score, s);
    let above = blocks_above(blocks, blocks[s].slot);
    assert(above.subset_of(blocks.dom().remove(s)));
    vstd::set::axiom_set_remove_len(blocks.dom(), s);
    vstd::set_lib::lemma_len_subset(above, blocks.dom().remove(s));
}

} // verus!
