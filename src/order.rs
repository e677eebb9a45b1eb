use vstd::prelude::*;
use crate::types::{lemma_root_lt_asymmetric, lemma_root_lt_transitive, root_cmp, root_lt, Root};

verus! {

/// Lexicographic order on (score, slot, root) keys: `a` ranks strictly above `b`.
pub open spec fn key_gt(a: (nat, u64, Root), b: (nat, u64, Root)) -> bool {
    a.0 > b.0 || (a.0 == b.0 && (a.1 > b.1 || (a.1 == b.1 && root_lt(b.2, a.2))))
}

pub proof fn lemma_key_gt_asymmetric(a: (nat, u64, Root), b: (nat, u64, Root))
    requires
        key_gt(a, b),
    ensures
        !key_gt(b, a),
{
    if a.0 == b.0 && a.1 == b.1 {
        lemma_root_lt_asymmetric(b.2, a.2);
    }
}

pub proof fn lemma_key_gt_transitive(a: (nat, u64, Root), b: (nat, u64, Root), c: (nat, u64, Root))
    requires
        key_gt(a, b),
        key_gt(b, c),
    ensures
        key_gt(a, c),
{
    if a.0 == b.0 && b.0 == c.0 && a.1 == b.1 && b.1 == c.1 {
        lemma_root_lt_transitive(c.2, b.2, a.2);
    }
}

/// Compares two keys; where neither ranks above the other, their roots are equal.
pub fn key_greater(aw: usize, aslot: u64, ar: &Root, bw: usize, bslot: u64, br: &Root) -> (r: bool)
    ensures
        r == key_gt((aw as nat, aslot, *ar), (bw as nat, bslot, *br)),
        !r ==> key_gt((bw as nat, bslot, *br), (aw as nat, aslot, *ar)) || (aw == bw && aslot
            == bslot && *ar == *br),
{
    if aw != bw {
        aw > bw
    } else if aslot != bslot {
        aslot > bslot
    } else {
        root_cmp(br, ar) == -1
    }
}

} // verus!
