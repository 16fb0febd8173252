//! The decisions of the sync client: when to sync, from what height, and whom to shun.

use vstd::prelude::*;

use crate::app::ValidateBlockResponse;
use crate::types::data_types::CryptoHash;

verus! {

/// Whether a fetched block contradicts the committed chain: another block is committed at its
/// height. `committed_at_height` is the block that is committed there, if any.
pub fn conflicts_with_committed(
    committed_at_height: Option<CryptoHash>,
    synced_block_hash: CryptoHash,
) -> (r: bool)
    ensures
        r == (committed_at_height is Some && committed_at_height->0 != synced_block_hash),
{
    match committed_at_height {
        Some(hash) => hash != synced_block_hash,
        None => false,
    }
}

/// Whether the verdict on a fetched block speaks against the peer that served it. Data that is
/// merely missing does not.
pub fn warrants_blacklist(response: &ValidateBlockResponse) -> (r: bool)
    ensures
        r == (response is Invalid),
{
    match response {
        ValidateBlockResponse::Invalid => true,
        _ => false,
    }
}

/// Whether a fetch from `next_start` would bring the same blocks as the fetch before.
pub fn refetch_would_repeat(prev_start: Option<u64>, next_start: u64) -> (r: bool)
    ensures
        r == (prev_start == Some(next_start)),
{
    match prev_start {
        Some(start) => start == next_start,
        None => false,
    }
}

/// By how much fruitless sessions stretch the time to the next one: doubling, up to eight times.
pub open spec fn backoff(consecutive_futile: u32) -> u32 {
    if consecutive_futile == 0 {
        1
    } else if consecutive_futile == 1 {
        2
    } else if consecutive_futile == 2 {
        4
    } else {
        8
    }
}

/// By how much fruitless sessions stretch the time to the next one.
pub fn futile_backoff_multiplier(consecutive_futile: u32) -> (r: u32)
    ensures
        r == backoff(consecutive_futile),
        1 <= r <= 8,
{
    let shift: u32 = if consecutive_futile < 3 {
        consecutive_futile
    } else {
        3
    };
    assert(1u32 << 0u32 == 1 && 1u32 << 1u32 == 2 && 1u32 << 2u32 == 4 && 1u32 << 3u32 == 8)
        by (bit_vector);
    1u32 << shift
}

/// What came of an attempt to start a session.
#[derive(Clone, Copy, PartialEq, Eq, Structural, Debug)]
pub enum RequestOutcome {
    /// A session was started.
    Started,
    /// No peer can serve; the attempt is to be repeated soon.
    NoServer,
    /// A session was in progress.
    AlreadyPending,
}

/// What a scan of the committed heights found.
#[derive(Clone, Copy, PartialEq, Eq, Structural, Debug)]
pub struct GapScan {
    /// The lowest height without a committed block.
    pub first_gap: Option<u64>,
    /// The height up to which there is no gap, if the scan passed any.
    pub contiguous_through: Option<u64>,
}

/// Whether `scan` is what a scan from `scan_from` to `highest` finds, where `present` is what the
/// probe can say.
pub open spec fn is_gap_scan(
    scan: GapScan,
    scan_from: u64,
    highest: u64,
    present: spec_fn(u64, bool) -> bool,
) -> bool {
    match scan.first_gap {
        Some(gap) => {
            &&& scan_from <= gap <= highest
            &&& present(gap, false)
            &&& forall|h: u64| scan_from <= h < gap ==> #[trigger] present(h, true)
            &&& scan.contiguous_through == (if gap > scan_from {
                Some((gap - 1) as u64)
            } else {
                None
            })
        },
        None => {
            &&& forall|h: u64| scan_from <= h <= highest ==> #[trigger] present(h, true)
            &&& scan.contiguous_through == (if scan_from <= highest {
                Some(highest)
            } else {
                None
            })
        },
    }
}

/// Scan the heights from `scan_from` to `highest` for the lowest one that is not `present`.
pub fn scan_first_gap<F: Fn(u64) -> bool>(scan_from: u64, highest: u64, present: F) -> (r: GapScan)
    requires
        forall|h: u64| #[trigger] present.requires((h,)),
    ensures
        is_gap_scan(r, scan_from, highest, |h: u64, b: bool| present.ensures((h,), b)),
{
    let mut contiguous_through: Option<u64> = None;
    if scan_from > highest {
        return GapScan { first_gap: None, contiguous_through };
    }
    let ghost said = |h: u64, b: bool| present.ensures((h,), b);
    let mut h: u64 = scan_from;
    loop
        invariant
            scan_from <= h <= highest,
            said == (|h: u64, b: bool| present.ensures((h,), b)),
            forall|h: u64| #[trigger] present.requires((h,)),
            forall|k: u64| scan_from <= k < h ==> #[trigger] said(k, true),
            contiguous_through == (if h > scan_from {
                Some((h - 1) as u64)
            } else {
                None
            }),
        decreases highest - h,
    {
        let is_present = present(h);
        assert(said(h, is_present));
        if !is_present {
            return GapScan { first_gap: Some(h), contiguous_through };
        }
        contiguous_through = Some(h);
        if h == highest {
            return GapScan { first_gap: None, contiguous_through };
        }
        h = h + 1;
    }
}

/// Where the next fetch starts, and whether it fills a gap: at the lowest gap, or else above the
/// committed frontier.
pub open spec fn start_height(highest_committed: Option<u64>, first_gap: Option<u64>) -> (u64, bool) {
    match (highest_committed, first_gap) {
        (Some(_), Some(gap)) => (gap, true),
        (Some(top), None) => (
            if top < u64::MAX {
                (top + 1) as u64
            } else {
                u64::MAX
            },
            false,
        ),
        (None, _) => (0, false),
    }
}

/// Where the next fetch starts, and whether it fills a gap.
pub fn select_start_height(highest_committed: Option<u64>, first_gap: Option<u64>) -> (r: (
    u64,
    bool,
))
    ensures
        r == start_height(highest_committed, first_gap),
{
    match (highest_committed, first_gap) {
        (Some(_), Some(gap)) => (gap, true),
        (Some(top), None) => (
            if top < u64::MAX {
                top + 1
            } else {
                u64::MAX
            },
            false,
        ),
        (None, _) => (0, false),
    }
}

/// Whether it is time to repeat an attempt that found no peer.
pub fn no_server_retry_due(retry_at: Option<u64>, now: u64) -> (r: bool)
    ensures
        r == (retry_at is Some && now >= retry_at->0),
{
    match retry_at {
        Some(at) => now >= at,
        None => false,
    }
}

/// More fruitless sessions never bring the next attempt forward, and the delay is bounded.
pub proof fn law_backoff_grows_to_a_cap(fewer: u32, more: u32)
    requires
        fewer <= more,
    ensures
        backoff(fewer) <= backoff(more) <= 8,
        more >= 3 ==> backoff(more) == 8,
{
}

} // verus!
