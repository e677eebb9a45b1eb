use vstd::prelude::*;

verus! {

/// A 32-byte block identifier.
pub type Root = [u8; 32];

pub type Slot = u64;

pub type ValidatorIndex = u64;

/// Store time, counted in intervals since genesis.
pub type Interval = u64;

/// The all-zero root: "no block", the parent of the anchor.
pub const ZERO_HASH: Root = [
    0, 0, 0, 0, 0, 0, 0, 0, 0, 0, 0, 0, 0, 0, 0, 0,
    0, 0, 0, 0, 0, 0, 0, 0, 0, 0, 0, 0, 0, 0, 0, 0
];

pub const SECONDS_PER_SLOT: u64 = 12;

pub const INTERVALS_PER_SLOT: u64 = 4;

pub const SECONDS_PER_INTERVAL: u64 = SECONDS_PER_SLOT / INTERVALS_PER_SLOT;

#[derive(Debug, Clone, Copy, PartialEq, Eq)]
pub struct Checkpoint {
    pub slot: Slot,
    pub root: Root,
}

#[derive(Debug, Clone, Copy, PartialEq, Eq)]
pub struct Block {
    pub slot: Slot,
    pub parent_root: Root,
    pub state_root: Root,
}

#[derive(Debug, Clone, Copy, PartialEq, Eq)]
pub struct State {
    pub latest_justified: Checkpoint,
    pub latest_finalized: Checkpoint,
}

#[derive(Debug, Clone, Copy, PartialEq, Eq)]
pub struct SignedVote {
    pub validator_id: ValidatorIndex,
    pub message: Checkpoint,
}

/// Lexicographic order on roots: `a` is below `b` at the first byte where they differ.
pub open spec fn root_lt(a: Root, b: Root) -> bool {
    exists|i: int|
        0 <= i < 32 && #[trigger] a[i] < b[i] && forall|j: int| 0 <= j < i ==> a[j] == b[j]
}

pub proof fn lemma_root_lt_asymmetric(a: Root, b: Root)
    requires
        root_lt(a, b),
    ensures
        !root_lt(b, a),
{
    let i = choose|i: int|
        0 <= i < 32 && #[trigger] a[i] < b[i] && forall|j: int| 0 <= j < i ==> a[j] == b[j];
    if root_lt(b, a) {
        let k = choose|k: int|
            0 <= k < 32 && #[trigger] b[k] < a[k] && forall|j: int| 0 <= j < k ==> b[j] == a[j];
        if i < k {
            assert(b[i] == a[i]);
        } else if k < i {
            assert(a[k] == b[k]);
        }
    }
}

pub proof fn lemma_root_lt_transitive(a: Root, b: Root, c: Root)
    requires
        root_lt(a, b),
        root_lt(b, c),
    ensures
        root_lt(a, c),
{
    let i = choose|i: int|
        0 <= i < 32 && #[trigger] a[i] < b[i] && forall|j: int| 0 <= j < i ==> a[j] == b[j];
    let k = choose|k: int|
        0 <= k < 32 && #[trigger] b[k] < c[k] && forall|j: int| 0 <= j < k ==> b[j] == c[j];
    if i < k {
        assert(a[i] < c[i]);
    } else if k < i {
        assert(a[k] < c[k]);
    } else {
        assert(a[i] < c[i]);
    }
}

/// Three-way comparison of roots: -1 when `a` is below `b`, 1 when above, 0 when equal.
pub fn root_cmp(a: &Root, b: &Root) -> (r: i8)
    ensures
        r == -1 <==> root_lt(*a, *b),
        r == 1 <==> root_lt(*b, *a),
        r == 0 <==> *a == *b,
        r == -1 || r == 0 || r == 1,
{
    let mut i: usize = 0;
    while i < 32
        invariant
            0 <= i <= 32,
            forall|j: int| 0 <= j < i ==> a[j] == b[j],
        decreases 32 - i,
    {
        if a[i] != b[i] {
            if a[i] < b[i] {
                assert(a[i as int] < b[i as int]);
                proof {
                    lemma_root_lt_asymmetric(*a, *b);
                }
                return -1;
            } else {
                assert(b[i as int] < a[i as int]);
                proof {
                    lemma_root_lt_asymmetric(*b, *a);
                }
                return 1;
            }
        }
        i = i + 1;
    }
    proof {
        broadcast use vstd::array::group_array_axioms;
        assert(*a =~= *b);
    }
    0
}

/// Whether a root is the all-zero root.
pub fn is_zero_root(a: &Root) -> (r: bool)
    ensures
        r == (*a == ZERO_HASH),
{
    let z: Root = [0u8; 32];
    let c = root_cmp(a, &z);
    proof {
        broadcast use vstd::array::group_array_axioms;
        assert(z =~= ZERO_HASH);
    }
    c == 0
}

} // verus!
