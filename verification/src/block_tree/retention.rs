//! How many committed blocks a replica keeps.

use vstd::prelude::*;

verus! {

/// The smallest number of committed blocks that a replica may be told to keep.
pub const MIN_BLOCK_TREE_RETENTION: u64 = 8;

/// The retention setting of a replica. Without a limit, nothing is pruned.
#[derive(Clone, Copy, PartialEq, Eq, Structural, Debug)]
pub struct Retention {
    pub limit: Option<u64>,
}

/// What a requested retention amounts to: no request and zero both turn pruning off, and a small
/// request is raised to the minimum.
pub open spec fn effective_retention(request: Option<u64>) -> Option<u64> {
    match request {
        None => None,
        Some(r) => if r == 0 {
            None
        } else if r < MIN_BLOCK_TREE_RETENTION {
            Some(MIN_BLOCK_TREE_RETENTION)
        } else {
            Some(r)
        },
    }
}

impl Retention {
    /// Pruning turned off.
    pub fn disabled() -> (r: Retention)
        ensures
            r.limit is None,
    {
        Retention { limit: None }
    }
}

/// Set the number of committed blocks to keep.
pub fn set_block_tree_retention(setting: &mut Retention, retention: Option<u64>)
    ensures
        final(setting).limit == effective_retention(retention),
{
    let limit: Option<u64> = match retention {
        None => None,
        Some(r) => if r == 0 {
            None
        } else if r < MIN_BLOCK_TREE_RETENTION {
            Some(MIN_BLOCK_TREE_RETENTION)
        } else {
            Some(r)
        },
    };
    setting.limit = limit;
}

/// The number of committed blocks to keep, if pruning is on.
pub fn block_tree_retention(setting: &Retention) -> (r: Option<u64>)
    ensures
        r == setting.limit,
{
    setting.limit
}

} // verus!
