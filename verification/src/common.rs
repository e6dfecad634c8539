//! Types and constants shared by the control plane and the data plane.

use vstd::prelude::*;

verus! {

/// A single backend the data plane can rewrite a packet towards.
///
/// `daddr` is in host byte order, so the checksum fix-up can shift and mask it
/// directly. `dmac` is written verbatim into the Ethernet destination. A `dport`
/// of `0` means "leave the original destination port untouched".
#[derive(Debug, Clone, Copy)]
pub struct Node {
    /// Backend IPv4 address, host byte order.
    pub daddr: u32,
    /// Backend L4 port, host byte order. `0` keeps the packet's original port.
    pub dport: u16,
    /// Backend L2 (Ethernet) destination MAC.
    pub dmac: [u8; 6],
}

/// Per-source-IP packet numbers backing the sliding window of the abuse blacklist.
/// The times of the packets are kept beside it, by packet number.
#[derive(Debug, Clone, Copy, PartialEq, Eq, Structural)]
pub struct RateState {
    /// Valid requests seen so far.
    pub valid: u64,
    /// Malformed packets seen so far.
    pub malformed: u64,
}

/// Size of the Maglev lookup table. A prime, so that every permutation step
/// visits every slot.
pub const M: u32 = 65537;

/// Maximum number of backends per buffer.
pub const N: u32 = 650;

/// Number of independent table/backend regions used for double-buffering.
pub const BUFFERS: u32 = 2;

/// Buffer (`0` or `1`) the data plane currently reads.
pub const CTRL_ACTIVE: u32 = 0;

/// `1` = drop validated-but-unrouted packets to a load-balanced port (else pass).
pub const CTRL_DROP_UNMATCHED: u32 = 1;

/// Max valid requests per window per source IP. `0` disables rate limiting.
pub const CTRL_RATE_MAX: u32 = 2;

/// Sliding-window length in milliseconds.
pub const CTRL_RATE_WINDOW_MS: u32 = 3;

/// Max malformed packets per window per source IP. `0` disables this check.
pub const CTRL_MALFORMED_MAX: u32 = 4;

/// Blacklist duration in seconds once a source trips a threshold.
pub const CTRL_BLOCK_SECS: u32 = 5;

/// Number of control slots.
pub const CTRL_LEN: u32 = 8;

/// Counter of packets forwarded to a backend.
pub const STAT_ROUTED: u32 = 0;

/// Counter of packets dropped by validation.
pub const STAT_DROPPED_VALIDATION: u32 = 1;

/// Counter of packets dropped because their source is blacklisted.
pub const STAT_DROPPED_BLOCKED: u32 = 2;

/// Counter of packets that tripped an abuse threshold.
pub const STAT_DROPPED_RATE: u32 = 3;

/// Counter of valid packets for which no backend was found.
pub const STAT_DROPPED_NOBACKEND: u32 = 4;

/// Number of counter slots.
pub const STATS_LEN: u32 = 8;

/// Law: the layout that control plane and data plane share.
pub proof fn shared_layout()
    ensures
        M == 65537,
        N == 650,
        BUFFERS == 2,
        CTRL_ACTIVE == 0,
        CTRL_DROP_UNMATCHED == 1,
        CTRL_RATE_MAX == 2,
        CTRL_RATE_WINDOW_MS == 3,
        CTRL_MALFORMED_MAX == 4,
        CTRL_BLOCK_SECS == 5,
        CTRL_LEN == 8,
        STAT_ROUTED == 0,
        STAT_DROPPED_VALIDATION == 1,
        STAT_DROPPED_BLOCKED == 2,
        STAT_DROPPED_RATE == 3,
        STAT_DROPPED_NOBACKEND == 4,
        STATS_LEN == 8,
{
}

} // verus!
