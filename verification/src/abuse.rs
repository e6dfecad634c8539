//! Per-source abuse tracking: packets in a sliding window, thresholds and the
//! blacklist.
//!
//! Every packet of a source that is tracked has a number, counted separately for
//! valid and for malformed packets, and the time at which it came in is kept under
//! that number. More than `limit` packets lie within the last window exactly when
//! the packet `limit` places before the latest one does, so one look at that
//! packet's time decides. Packets that the blacklist drops are not numbered.

use vstd::prelude::*;
use crate::common::{RateState, STAT_DROPPED_BLOCKED, STAT_DROPPED_RATE, STAT_DROPPED_VALIDATION};
use crate::config::{Config, ProtectionSettings};

verus! {

/// Nanoseconds from `start` to `now` on a clock that wraps around.
pub open spec fn elapsed(now: u64, start: u64) -> u64 {
    now.wrapping_sub(start)
}

/// Window length in nanoseconds; a configured length of `0` counts as 1 ms.
pub open spec fn window_ns(limits: ProtectionSettings) -> u64 {
    if limits.window_ms == 0 {
        1_000_000
    } else {
        (limits.window_ms * 1_000_000) as u64
    }
}

/// Blacklist duration in nanoseconds.
pub open spec fn block_ns(limits: ProtectionSettings) -> u64 {
    (limits.block_secs * 1_000_000_000) as u64
}

/// Whether any threshold is set at all.
pub open spec fn tracking(limits: ProtectionSettings) -> bool {
    limits.rate_max > 0 || limits.malformed_max > 0
}

/// Whether a packet that came in at `time` lies within the window that ends now.
pub open spec fn within_window(time: u64, limits: ProtectionSettings, now: u64) -> bool {
    elapsed(now, time) <= window_ns(limits)
}

/// The packets of a source after one more.
pub open spec fn counted(before: Option<RateState>, malformed: bool) -> RateState {
    let base = match before {
        Some(s) => s,
        None => RateState { valid: 0, malformed: 0 },
    };
    if malformed {
        RateState { malformed: base.malformed.wrapping_add(1), ..base }
    } else {
        RateState { valid: base.valid.wrapping_add(1), ..base }
    }
}

/// The number of the latest packet of its kind.
pub open spec fn latest(s: RateState, malformed: bool) -> u64 {
    if malformed {
        s.malformed.wrapping_sub(1)
    } else {
        s.valid.wrapping_sub(1)
    }
}

/// The number of the packet `limit` places before the latest of `seen` packets.
/// There is none if there are too few packets or the limit is not set.
pub open spec fn marked(seen: u64, limit: u32) -> Option<u64> {
    if limit > 0 && seen > limit {
        Some((seen - limit - 1) as u64)
    } else {
        None
    }
}

/// Where the time of packet `number` of a source is kept.
pub open spec fn time_key(source: u32, number: u64) -> u64 {
    (source * 0x1_0000_0000 + number % 0x1_0000_0000) as u64
}

/// The times of the two marked packets of a source, as far as they are known.
#[derive(Debug, Clone, Copy, PartialEq, Eq, Structural)]
pub struct Marks {
    pub valid: Option<u64>,
    pub malformed: Option<u64>,
}

/// Whether a marked packet lies within the window: more packets than a threshold
/// allows came within it.
pub open spec fn over_limit(marks: Marks, limits: ProtectionSettings, now: u64) -> bool {
    ||| limits.rate_max > 0 && marks.valid is Some && within_window(marks.valid->0, limits, now)
    ||| limits.malformed_max > 0 && marks.malformed is Some && within_window(
        marks.malformed->0,
        limits,
        now,
    )
}

/// What becomes of a packet before it is routed, and what is recorded of its
/// source.
#[derive(Debug, Clone, Copy, PartialEq, Eq, Structural)]
pub struct Screening {
    /// Packet numbers to store for the source; the time of the packet is then kept
    /// under its number.
    pub rate: Option<RateState>,
    /// Blacklist the source until this time (ns).
    pub block_until: Option<u64>,
    /// Drop the packet and count it under this statistic.
    pub dropped: Option<u32>,
}

/// Screening of a packet whose source is blacklisted until `expiry`. `seen` numbers
/// the packets of the source, this one included, and `marks` are the times of the
/// packets marked by it.
pub open spec fn screened(
    expiry: Option<u64>,
    seen: RateState,
    marks: Marks,
    limits: ProtectionSettings,
    now: u64,
    malformed: bool,
) -> Screening {
    if expiry is Some && now < expiry->0 {
        Screening { rate: None, block_until: None, dropped: Some(STAT_DROPPED_BLOCKED) }
    } else if over_limit(marks, limits, now) {
        Screening {
            rate: Some(seen),
            block_until: Some(now.wrapping_add(block_ns(limits))),
            dropped: Some(STAT_DROPPED_RATE),
        }
    } else {
        Screening {
            rate: if tracking(limits) {
                Some(seen)
            } else {
                None
            },
            block_until: None,
            dropped: if malformed {
                Some(STAT_DROPPED_VALIDATION)
            } else {
                None
            },
        }
    }
}

/// Number one more packet of a source.
pub fn count_packet(before: Option<RateState>, malformed: bool) -> (s: RateState)
    ensures
        s == counted(before, malformed),
{
    let mut s = match before {
        Some(s) => s,
        None => RateState { valid: 0, malformed: 0 },
    };
    if malformed {
        s.malformed = s.malformed.wrapping_add(1);
    } else {
        s.valid = s.valid.wrapping_add(1);
    }
    s
}

/// The number of the latest packet of its kind.
pub fn latest_packet(s: &RateState, malformed: bool) -> (number: u64)
    ensures
        number == latest(*s, malformed),
{
    if malformed {
        s.malformed.wrapping_sub(1)
    } else {
        s.valid.wrapping_sub(1)
    }
}

/// The number of the packet whose time decides whether more than `limit` of the
/// `seen` packets lie within the window.
pub fn marked_packet(seen: u64, limit: u32) -> (number: Option<u64>)
    ensures
        number == marked(seen, limit),
{
    if limit > 0 && seen > limit as u64 {
        Some(seen - limit as u64 - 1)
    } else {
        None
    }
}

/// Where the time of packet `number` of a source is kept.
pub fn packet_key(source: u32, number: u64) -> (key: u64)
    ensures
        key == time_key(source, number),
{
    source as u64 * 0x1_0000_0000 + number % 0x1_0000_0000
}

/// Screen a packet: the blacklist first, then the abuse thresholds, then
/// validity.
pub fn screen(
    expiry: Option<u64>,
    seen: RateState,
    marks: Marks,
    limits: &ProtectionSettings,
    now: u64,
    malformed: bool,
) -> (r: Screening)
    ensures
        r == screened(expiry, seen, marks, *limits, now, malformed),
{
    if let Some(until) = expiry {
        if now < until {
            return Screening {
                rate: None,
                block_until: None,
                dropped: Some(STAT_DROPPED_BLOCKED),
            };
        }
    }
    let mut stored: Option<RateState> = None;
    if limits.rate_max > 0 || limits.malformed_max > 0 {
        let ms: u64 = if limits.window_ms == 0 {
            1
        } else {
            limits.window_ms as u64
        };
        let window: u64 = ms * 1_000_000;
        let rate_tripped: bool = match marks.valid {
            Some(time) => limits.rate_max > 0 && now.wrapping_sub(time) <= window,
            None => false,
        };
        let malformed_tripped: bool = match marks.malformed {
            Some(time) => limits.malformed_max > 0 && now.wrapping_sub(time) <= window,
            None => false,
        };
        if rate_tripped || malformed_tripped {
            let block: u64 = limits.block_secs as u64 * 1_000_000_000;
            return Screening {
                rate: Some(seen),
                block_until: Some(now.wrapping_add(block)),
                dropped: Some(STAT_DROPPED_RATE),
            };
        }
        stored = Some(seen);
    }
    Screening {
        rate: stored,
        block_until: None,
        dropped: if malformed {
            Some(STAT_DROPPED_VALIDATION)
        } else {
            None
        },
    }
}

/// Law: a source is blacklisted exactly when it is not already blocked and a
/// threshold is exceeded; the packet that trips the threshold is dropped, and the
/// block lasts the configured time.
pub proof fn blacklisted_exactly_when_over_limit(
    expiry: Option<u64>,
    seen: RateState,
    marks: Marks,
    limits: ProtectionSettings,
    now: u64,
    malformed: bool,
)
    ensures
        screened(expiry, seen, marks, limits, now, malformed).block_until is Some <==> {
            &&& (expiry is None || expiry->0 <= now)
            &&& over_limit(marks, limits, now)
        },
        screened(expiry, seen, marks, limits, now, malformed).block_until is Some ==> {
            &&& screened(expiry, seen, marks, limits, now, malformed).block_until->0
                == now.wrapping_add(block_ns(limits))
            &&& screened(expiry, seen, marks, limits, now, malformed).dropped == Some(
                STAT_DROPPED_RATE,
            )
        },
{
}

/// Law: a malformed packet is never admitted, whatever is known of its source.
pub proof fn malformed_packets_are_dropped(
    expiry: Option<u64>,
    seen: RateState,
    marks: Marks,
    limits: ProtectionSettings,
    now: u64,
)
    ensures
        screened(expiry, seen, marks, limits, now, true).dropped is Some,
{
}

/// Law: with both thresholds at `0`, a valid packet of a source that is not
/// blocked is admitted and nothing is recorded.
pub proof fn protection_off_admits_valid_packets(
    expiry: Option<u64>,
    seen: RateState,
    marks: Marks,
    limits: ProtectionSettings,
    now: u64,
)
    requires
        limits.rate_max == 0,
        limits.malformed_max == 0,
        expiry is None || expiry->0 <= now,
    ensures
        screened(expiry, seen, marks, limits, now, false) == (Screening {
            rate: None,
            block_until: None,
            dropped: None,
        }),
{
}

/// How many of the given times lie within the window that ends now.
pub open spec fn recent(times: Seq<u64>, limits: ProtectionSettings, now: u64) -> nat
    decreases times.len(),
{
    if times.len() == 0 {
        0
    } else {
        recent(times.drop_last(), limits, now) + (if within_window(times.last(), limits, now) {
            1nat
        } else {
            0
        })
    }
}

/// The times of packets, in the order in which they came in, none of them later
/// than `now`.
pub open spec fn in_time_order(times: Seq<u64>, now: u64) -> bool {
    &&& forall|i: int, j: int| 0 <= i <= j < times.len() ==> #[trigger] times[i] <= #[trigger] times[j]
    &&& forall|i: int| 0 <= i < times.len() ==> #[trigger] times[i] <= now
}

/// Before a packet that lies outside the window no packet lies within it.
proof fn lemma_none_recent(times: Seq<u64>, limits: ProtectionSettings, now: u64)
    requires
        in_time_order(times, now),
        times.len() > 0 ==> !within_window(times.last(), limits, now),
    ensures
        recent(times, limits, now) == 0,
    decreases times.len(),
{
    if times.len() > 1 {
        let rest = times.drop_last();
        assert(rest.last() == times[times.len() - 2]);
        assert(times[times.len() - 2] <= times[times.len() - 1]);
        assert(in_time_order(rest, now)) by {
            assert forall|i: int, j: int| 0 <= i <= j < rest.len() implies #[trigger] rest[i]
                <= #[trigger] rest[j] by {
                assert(times[i] <= times[j]);
            }
            assert forall|i: int| 0 <= i < rest.len() implies #[trigger] rest[i] <= now by {
                assert(times[i] <= now);
            }
        }
        assert(times[times.len() - 1] <= now);
        lemma_none_recent(rest, limits, now);
    } else if times.len() == 1 {
        assert(recent(times.drop_last(), limits, now) == 0);
    }
}

/// Law: the packet `limit` places before the latest one tells whether more than
/// `limit` packets came within the last window.
pub proof fn mark_tells_the_window(
    times: Seq<u64>,
    limit: nat,
    limits: ProtectionSettings,
    now: u64,
)
    requires
        in_time_order(times, now),
    ensures
        recent(times, limits, now) > limit <==> {
            &&& times.len() > limit
            &&& within_window(times[times.len() - limit - 1], limits, now)
        },
    decreases times.len(),
{
    if times.len() > 0 {
        let rest = times.drop_last();
        assert(in_time_order(rest, now)) by {
            assert forall|i: int, j: int| 0 <= i <= j < rest.len() implies #[trigger] rest[i]
                <= #[trigger] rest[j] by {
                assert(times[i] <= times[j]);
            }
            assert forall|i: int| 0 <= i < rest.len() implies #[trigger] rest[i] <= now by {
                assert(times[i] <= now);
            }
        }
        if !within_window(times.last(), limits, now) {
            lemma_none_recent(times, limits, now);
            if times.len() > limit {
                assert(times[times.len() - limit - 1] <= times[times.len() - 1]);
                assert(times[times.len() - 1] <= now);
            }
        } else if limit > 0 {
            mark_tells_the_window(rest, (limit - 1) as nat, limits, now);
            if times.len() > limit {
                assert(rest[rest.len() - (limit - 1) - 1] == times[times.len() - limit - 1]);
            }
        }
    }
}

/// The times of the malformed, or of the valid, ones among the first `n` packets,
/// each given by its time and by whether it is malformed.
pub open spec fn times_of(packets: Seq<(u64, bool)>, malformed: bool, n: nat) -> Seq<u64>
    decreases n,
{
    if n == 0 {
        Seq::empty()
    } else {
        let before = times_of(packets, malformed, (n - 1) as nat);
        if packets[n - 1].1 == malformed {
            before.push(packets[n - 1].0)
        } else {
            before
        }
    }
}

/// The packets come in one after the other.
pub open spec fn one_after_the_other(packets: Seq<(u64, bool)>) -> bool {
    forall|i: int, j: int|
        0 <= i <= j < packets.len() ==> (#[trigger] packets[i]).0 <= (#[trigger] packets[j]).0
}

/// Whether, when the `n`-th packet comes in, more valid or more malformed packets
/// than allowed came within the last window, that packet included.
pub open spec fn exceeded(
    packets: Seq<(u64, bool)>,
    limits: ProtectionSettings,
    n: nat,
) -> bool {
    let now = packets[n - 1].0;
    ||| limits.rate_max > 0 && recent(times_of(packets, false, n), limits, now) > limits.rate_max
    ||| limits.malformed_max > 0 && recent(times_of(packets, true, n), limits, now)
        > limits.malformed_max
}

/// The times of packets that come in one after the other are in order.
pub proof fn lemma_times_in_order(packets: Seq<(u64, bool)>, malformed: bool, n: nat)
    requires
        one_after_the_other(packets),
        0 < n <= packets.len(),
    ensures
        in_time_order(times_of(packets, malformed, n), packets[n - 1].0),
        times_of(packets, malformed, n).len() <= n,
    decreases n,
{
    let times = times_of(packets, malformed, n);
    if n > 1 {
        let m = (n - 1) as nat;
        lemma_times_in_order(packets, malformed, m);
        let before = times_of(packets, malformed, m);
        assert(packets[n - 2].0 <= packets[n - 1].0);
        assert forall|i: int, j: int| 0 <= i <= j < times.len() implies #[trigger] times[i]
            <= #[trigger] times[j] by {
            if j < before.len() {
                assert(before[i] <= before[j]);
            } else if i < before.len() {
                assert(before[i] <= packets[n - 2].0);
            }
        }
        assert forall|i: int| 0 <= i < times.len() implies #[trigger] times[i]
            <= packets[n - 1].0 by {
            if i < before.len() {
                assert(before[i] <= packets[n - 2].0);
            }
        }
    } else {
        assert(times_of(packets, malformed, 0).len() == 0);
    }
}

/// Law: the times of different sources are kept in different places, and so are those
/// of packets of one source less than `2^32` numbers apart.
pub proof fn packet_keys_are_distinct(a: u32, i: u64, b: u32, j: u64)
    requires
        time_key(a, i) == time_key(b, j),
    ensures
        a == b,
        i < j ==> j - i >= 0x1_0000_0000,
{
}

/// Law: a configuration that disables protection switches the tracking off, and
/// one that says nothing has it on.
pub proof fn protection_block_decides_tracking(cfg: Config)
    ensures
        cfg.protection is Some && !cfg.protection->0.enabled ==> !tracking(cfg.spec_protection()),
        cfg.protection is None ==> tracking(cfg.spec_protection()),
{
}

/// Law: screening in plain numbers. A packet of a source whose block still runs is
/// dropped. Otherwise, if a limit is set and the packet marked by it came in at most the
/// configured milliseconds ago (none configured count as one), the source is blocked for
/// the configured seconds and the packet dropped. Otherwise the packet is dropped exactly
/// if it is malformed. The times are those of a clock of 64 bits that wraps around.
pub proof fn screening_in_numbers(
    expiry: Option<u64>,
    seen: RateState,
    marks: Marks,
    limits: ProtectionSettings,
    now: u64,
    malformed: bool,
)
    ensures
        ({
            let r = screened(expiry, seen, marks, limits, now, malformed);
            let window = if limits.window_ms == 0 {
                1_000_000
            } else {
                limits.window_ms * 1_000_000
            };
            let in_window = |time: u64|
                if time <= now {
                    now - time <= window
                } else {
                    0x1_0000_0000_0000_0000 + now - time <= window
                };
            let blocked = expiry is Some && now < expiry->0;
            let tripped = {
                ||| limits.rate_max > 0 && marks.valid is Some && in_window(marks.valid->0)
                ||| limits.malformed_max > 0 && marks.malformed is Some && in_window(
                    marks.malformed->0,
                )
            };
            let until = now + limits.block_secs * 1_000_000_000;
            if blocked {
                r == (Screening { rate: None, block_until: None, dropped: Some(2) })
            } else if tripped {
                &&& r.rate == Some(seen)
                &&& r.dropped == Some(3u32)
                &&& r.block_until is Some
                &&& until <= u64::MAX ==> r.block_until->0 == until
                &&& until > u64::MAX ==> r.block_until->0 == until - 0x1_0000_0000_0000_0000
            } else {
                &&& r.rate == (if limits.rate_max == 0 && limits.malformed_max == 0 {
                    None
                } else {
                    Some(seen)
                })
                &&& r.block_until is None
                &&& r.dropped == (if malformed {
                    Some(1u32)
                } else {
                    None
                })
            }
        }),
{
}

/// Law: a packet raises the number of packets of its own kind by one and leaves the other
/// number alone; a source that was not seen before starts at zero.
pub proof fn packets_are_numbered(before: Option<RateState>, malformed: bool)
    ensures
        ({
            let valid = if before is Some {
                before->0.valid
            } else {
                0
            };
            let bad = if before is Some {
                before->0.malformed
            } else {
                0
            };
            let after = counted(before, malformed);
            &&& malformed ==> after.valid == valid && (bad < u64::MAX ==> after.malformed == bad
                + 1 && latest(after, true) == bad)
            &&& !malformed ==> after.malformed == bad && (valid < u64::MAX ==> after.valid == valid
                + 1 && latest(after, false) == valid)
        }),
{
}

/// Law: with a limit set, the packet that decides is the one `limit` places before the
/// latest, counting from zero, once there are that many.
pub proof fn the_deciding_packet(seen: u64, limit: u32)
    ensures
        limit == 0 || seen <= limit ==> marked(seen, limit) is None,
        limit > 0 && seen > limit ==> marked(seen, limit) is Some && marked(seen, limit)->0 == seen
            - 1 - limit,
{
}

} // verus!
