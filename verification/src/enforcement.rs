//! The abuse limits hold per source, whatever traffic comes in: the record of a
//! source holds exactly its own packets, and decides when it is blacklisted.

use vstd::prelude::*;
use crate::abuse::{
    block_ns, exceeded, in_time_order, latest, lemma_times_in_order, mark_tells_the_window, marked, one_after_the_other,
    packet_keys_are_distinct, recent, screened, time_key, times_of, tracking, within_window, Screening,
};
use crate::common::{RateState, STAT_DROPPED_RATE, STAT_DROPPED_VALIDATION};
use crate::config::ProtectionSettings;
use crate::forward::{
    after_frames, each_packet_is_counted_once, limits_of, marks_of, outcome, recorded, screening_of, seen_by, time_at,
    Outcome, XDP_DROP,
};
use crate::packet::{malformed, parsed, Flow, Parsed};
use crate::tables::TablesView;

verus! {

/// When the block of `source` expires, if there is one.
pub open spec fn block_of(t: TablesView, source: u32) -> Option<u64> {
    if t.blocklist.contains_key(source) {
        Some(t.blocklist[source])
    } else {
        None
    }
}

/// Whether a frame holds a packet of `source` to a load-balanced port that no running
/// block drops.
pub open spec fn counts(f: Seq<u8>, t: TablesView, source: u32, now: u64) -> bool {
    &&& parsed(f) matches Parsed::Complete { flow } && flow.source_addr == source
        && t.ports.contains(flow.dest_port)
    &&& !(block_of(t, source) is Some && now < block_of(t, source)->0)
}

/// The packets of `source` among the frames that no running block dropped: when each
/// came in, and whether it is malformed.
pub open spec fn packets_from(
    frames: Seq<(Seq<u8>, u64)>,
    t: TablesView,
    source: u32,
) -> Seq<(u64, bool)>
    decreases frames.len(),
{
    if frames.len() == 0 {
        Seq::empty()
    } else {
        let rest = frames.drop_last();
        let before = packets_from(rest, t, source);
        let (f, now) = frames.last();
        if counts(f, after_frames(rest, t), source, now) {
            before.push((now, malformed(parsed(f)->flow)))
        } else {
            before
        }
    }
}

/// What is known of the packets of `source`.
pub open spec fn seen_before(t: TablesView, source: u32) -> RateState {
    if t.rate.contains_key(source) {
        t.rate[source]
    } else {
        RateState { valid: 0, malformed: 0 }
    }
}

/// The given times are kept under their numbers, the latest `2^32` of them at least.
pub open spec fn kept(times: Map<u64, u64>, source: u32, log: Seq<u64>) -> bool {
    forall|i: int|
        0 <= i < log.len() && log.len() - i <= 0x1_0000_0000 ==> #[trigger] time_at(
            times,
            source,
            Some(i as u64),
        ) == Some(log[i])
}

/// The tables hold the first `n` packets of `source`.
pub open spec fn on_record(
    t: TablesView,
    source: u32,
    packets: Seq<(u64, bool)>,
    n: nat,
) -> bool {
    let valid = times_of(packets, false, n);
    let malformed = times_of(packets, true, n);
    &&& seen_before(t, source) == (RateState {
        valid: valid.len() as u64,
        malformed: malformed.len() as u64,
    })
    &&& kept(t.valid_times, source, valid)
    &&& kept(t.malformed_times, source, malformed)
}

/// The times of the first `n` packets depend on these alone.
proof fn lemma_times_prefix(
    a: Seq<(u64, bool)>,
    b: Seq<(u64, bool)>,
    malformed: bool,
    n: nat,
)
    requires
        n <= a.len(),
        n <= b.len(),
        forall|i: int| 0 <= i < n ==> #[trigger] a[i] == b[i],
    ensures
        times_of(a, malformed, n) == times_of(b, malformed, n),
    decreases n,
{
    if n > 0 {
        lemma_times_prefix(a, b, malformed, (n - 1) as nat);
        assert(a[n - 1] == b[n - 1]);
    }
}

/// What a packet leaves in the per-source tables is its screening.
proof fn lemma_screening_is_recorded(f: Seq<u8>, flow: Flow, t: TablesView, now: u64)
    requires
        parsed(f) == (Parsed::Complete { flow }),
        t.ports.contains(flow.dest_port),
    ensures
        ({
            let after = outcome(f, t, now).tables;
            let noted = recorded(
                t,
                flow.source_addr,
                malformed(flow),
                now,
                screening_of(flow, t, now),
            );
            &&& after.rate == noted.rate
            &&& after.valid_times == noted.valid_times
            &&& after.malformed_times == noted.malformed_times
            &&& after.blocklist == noted.blocklist
            &&& after.ctrl == t.ctrl
            &&& after.ports == t.ports
        }),
{
}

/// One more time kept under its number.
proof fn lemma_time_kept(times: Map<u64, u64>, source: u32, before: Seq<u64>, now: u64)
    requires
        before.len() < u64::MAX,
        kept(times, source, before),
    ensures
        kept(
            times.insert(time_key(source, before.len() as u64), now),
            source,
            before.push(now),
        ),
{
    let after = times.insert(time_key(source, before.len() as u64), now);
    let log = before.push(now);
    assert forall|i: int|
        0 <= i < log.len() && log.len() - i <= 0x1_0000_0000 implies #[trigger] time_at(
        after,
        source,
        Some(i as u64),
    ) == Some(log[i]) by {
        if i < before.len() {
            assert(time_at(times, source, Some(i as u64)) == Some(before[i]));
            if time_key(source, i as u64) == time_key(source, before.len() as u64) {
                packet_keys_are_distinct(source, i as u64, source, before.len() as u64);
            }
        }
    }
}

/// A time kept for another source leaves the times of `source` alone.
proof fn lemma_other_time_kept(
    times: Map<u64, u64>,
    source: u32,
    other: u32,
    number: u64,
    now: u64,
    log: Seq<u64>,
)
    requires
        other != source,
        kept(times, source, log),
    ensures
        kept(times.insert(time_key(other, number), now), source, log),
{
    let after = times.insert(time_key(other, number), now);
    assert forall|i: int|
        0 <= i < log.len() && log.len() - i <= 0x1_0000_0000 implies #[trigger] time_at(
        after,
        source,
        Some(i as u64),
    ) == Some(log[i]) by {
        assert(time_at(times, source, Some(i as u64)) == Some(log[i]));
        if time_key(source, i as u64) == time_key(other, number) {
            packet_keys_are_distinct(source, i as u64, other, number);
        }
    }
}

/// The mark of a kind tells whether more than `limit` of its packets lie within
/// the window. `after` are their times with the latest packet, if it is of that
/// kind, at the end.
proof fn lemma_mark(
    times: Map<u64, u64>,
    source: u32,
    before: Seq<u64>,
    after: Seq<u64>,
    limit: u32,
    limits: ProtectionSettings,
    now: u64,
)
    requires
        after == before || after == before.push(now),
        after.len() <= u64::MAX,
        limit > 0,
        in_time_order(after, now),
        kept(times, source, before),
    ensures
        ({
            let mark = time_at(times, source, marked(after.len() as u64, limit));
            recent(after, limits, now) > limit <==> mark is Some && within_window(
                mark->0,
                limits,
                now,
            )
        }),
{
    mark_tells_the_window(after, limit as nat, limits, now);
    if after.len() > limit {
        let k = after.len() - limit - 1;
        assert(marked(after.len() as u64, limit) == Some(k as u64));
        assert(time_at(times, source, Some(k as u64)) == Some(before[k]));
        assert(before[k] == after[k]);
    }
}

/// A packet that is screened goes on record, and the marks tell whether it exceeds a
/// limit.
proof fn lemma_noted(
    t: TablesView,
    after: TablesView,
    source: u32,
    bad: bool,
    s: Screening,
    packets: Seq<(u64, bool)>,
    n: nat,
)
    requires
        tracking(limits_of(t)),
        n < packets.len() <= u64::MAX,
        one_after_the_other(packets),
        packets[n as int].1 == bad,
        on_record(t, source, packets, n),
        !(block_of(t, source) is Some && packets[n as int].0 < block_of(t, source)->0),
        s == screened(
            block_of(t, source),
            seen_by(t, source, bad),
            marks_of(t, source, seen_by(t, source, bad)),
            limits_of(t),
            packets[n as int].0,
            bad,
        ),
        ({
            let noted = recorded(t, source, bad, packets[n as int].0, s);
            &&& after.rate == noted.rate
            &&& after.valid_times == noted.valid_times
            &&& after.malformed_times == noted.malformed_times
            &&& after.blocklist == noted.blocklist
        }),
    ensures
        on_record(after, source, packets, n + 1),
        block_of(after, source) == (if exceeded(packets, limits_of(t), n + 1) {
            Some(packets[n as int].0.wrapping_add(block_ns(limits_of(t))))
        } else {
            block_of(t, source)
        }),
        exceeded(packets, limits_of(t), n + 1) ==> s.dropped == Some(STAT_DROPPED_RATE),
        !exceeded(packets, limits_of(t), n + 1) ==> s.block_until is None && s.dropped == (if bad {
            Some(STAT_DROPPED_VALIDATION)
        } else {
            None
        }),
{
    let limits = limits_of(t);
    let now = packets[n as int].0;
    let seen = seen_by(t, source, bad);
    let v0 = times_of(packets, false, n);
    let m0 = times_of(packets, true, n);
    let v1 = times_of(packets, false, n + 1);
    let m1 = times_of(packets, true, n + 1);
    lemma_times_in_order(packets, false, n + 1);
    lemma_times_in_order(packets, true, n + 1);
    if n > 0 {
        lemma_times_in_order(packets, false, n);
        lemma_times_in_order(packets, true, n);
    }
    assert(v0.len() <= n && m0.len() <= n);
    assert(seen == (RateState { valid: v1.len() as u64, malformed: m1.len() as u64 }));
    assert(s.rate == Some(seen));
    if bad {
        assert(latest(seen, true) == m0.len());
        lemma_time_kept(t.malformed_times, source, m0, now);
    } else {
        assert(latest(seen, false) == v0.len());
        lemma_time_kept(t.valid_times, source, v0, now);
    }
    if limits.rate_max > 0 {
        lemma_mark(t.valid_times, source, v0, v1, limits.rate_max, limits, now);
    }
    if limits.malformed_max > 0 {
        lemma_mark(t.malformed_times, source, m0, m1, limits.malformed_max, limits, now);
    }
}

/// A frame that does not count for `source` leaves its record and its block alone.
proof fn lemma_not_counted(
    f: Seq<u8>,
    t: TablesView,
    source: u32,
    now: u64,
    packets: Seq<(u64, bool)>,
    n: nat,
)
    requires
        !counts(f, t, source, now),
        on_record(t, source, packets, n),
    ensures
        on_record(outcome(f, t, now).tables, source, packets, n),
        block_of(outcome(f, t, now).tables, source) == block_of(t, source),
        outcome(f, t, now).tables.ctrl == t.ctrl,
        outcome(f, t, now).tables.ports == t.ports,
{
    if parsed(f) is Complete && t.ports.contains(parsed(f)->flow.dest_port) {
        let flow = parsed(f)->flow;
        let s = screening_of(flow, t, now);
        let bad = malformed(flow);
        lemma_screening_is_recorded(f, flow, t, now);
        if flow.source_addr != source && s.rate is Some {
            let number = latest(s.rate->0, bad);
            if bad {
                lemma_other_time_kept(
                    t.malformed_times,
                    source,
                    flow.source_addr,
                    number,
                    now,
                    times_of(packets, true, n),
                );
            } else {
                lemma_other_time_kept(
                    t.valid_times,
                    source,
                    flow.source_addr,
                    number,
                    now,
                    times_of(packets, false, n),
                );
            }
        }
    }
}

/// Law: whatever traffic comes in, from whatever sources, the record of a source holds
/// exactly its own packets that no running block dropped. Its latest such packet puts
/// it on the blacklist exactly if, with that packet, more than the allowed number of its
/// valid or of its malformed packets came within the last window. Nothing else moves
/// its block. `history` are the packets on record before.
pub proof fn limits_are_enforced(
    history: Seq<(u64, bool)>,
    frames: Seq<(Seq<u8>, u64)>,
    t: TablesView,
    source: u32,
)
    requires
        tracking(limits_of(t)),
        on_record(t, source, history, history.len()),
        one_after_the_other(history + packets_from(frames, t, source)),
        history.len() + packets_from(frames, t, source).len() <= u64::MAX,
    ensures
        ({
            let packets = history + packets_from(frames, t, source);
            let after = after_frames(frames, t);
            &&& on_record(after, source, packets, packets.len())
            &&& after.ctrl == t.ctrl
            &&& after.ports == t.ports
            &&& frames.len() > 0 ==> {
                let before = after_frames(frames.drop_last(), t);
                let (f, now) = frames.last();
                if counts(f, before, source, now) && exceeded(
                    packets,
                    limits_of(t),
                    packets.len(),
                ) {
                    &&& block_of(after, source) == Some(now.wrapping_add(block_ns(limits_of(t))))
                    &&& outcome(f, before, now).verdict == Ok::<u32, u32>(XDP_DROP)
                } else {
                    block_of(after, source) == block_of(before, source)
                }
            }
        }),
    decreases frames.len(),
{
    let packets = history + packets_from(frames, t, source);
    if frames.len() == 0 {
        assert(packets =~= history);
    } else {
        let fs = frames.drop_last();
        let (f, now) = frames.last();
        let rest = history + packets_from(fs, t, source);
        let before = after_frames(fs, t);
        let n = rest.len();
        assert(forall|i: int| 0 <= i < n ==> #[trigger] rest[i] == packets[i]);
        assert(one_after_the_other(rest)) by {
            assert forall|i: int, j: int| 0 <= i <= j < rest.len() implies (#[trigger] rest[i]).0
                <= (#[trigger] rest[j]).0 by {
                assert(packets[i].0 <= packets[j].0);
            }
        }
        limits_are_enforced(history, fs, t, source);
        lemma_times_prefix(rest, packets, false, n);
        lemma_times_prefix(rest, packets, true, n);
        assert(on_record(before, source, packets, n));
        assert(limits_of(before) == limits_of(t));
        if counts(f, before, source, now) {
            let flow = parsed(f)->flow;
            assert(packets[n as int] == (now, malformed(flow)));
            assert(packets.len() == n + 1);
            lemma_screening_is_recorded(f, flow, before, now);
            lemma_noted(
                before,
                outcome(f, before, now).tables,
                source,
                malformed(flow),
                screening_of(flow, before, now),
                packets,
                n,
            );
        } else {
            assert(packets =~= rest);
            lemma_not_counted(f, before, source, now, packets, n);
        }
    }
}

/// Law: a source of which nothing is known has an empty record.
pub proof fn unknown_sources_have_no_record(t: TablesView, source: u32)
    requires
        !t.rate.contains_key(source),
    ensures
        on_record(t, source, Seq::empty(), 0),
{
}

/// Which of the first `n` packets, given by their times and by whether they are malformed,
/// are of the given kind and came in at most `window` nanoseconds before `now`.
pub open spec fn packets_within(
    packets: Seq<(u64, bool)>,
    malformed: bool,
    n: nat,
    now: u64,
    window: int,
) -> Set<int> {
    Set::new(|i: int| 0 <= i < n && packets[i].1 == malformed && now - packets[i].0 <= window)
}

/// How many packets of the given kind came in at most `window` nanoseconds before `now`.
pub open spec fn number_within(
    packets: Seq<(u64, bool)>,
    malformed: bool,
    now: u64,
    window: int,
) -> nat {
    packets_within(packets, malformed, packets.len(), now, window).len()
}

proof fn lemma_number_within(
    packets: Seq<(u64, bool)>,
    malformed: bool,
    n: nat,
    limits: ProtectionSettings,
    now: u64,
    window: int,
)
    requires
        n <= packets.len(),
        forall|i: int| 0 <= i < packets.len() ==> (#[trigger] packets[i]).0 <= now,
        window == (if limits.window_ms == 0 {
            1_000_000
        } else {
            limits.window_ms * 1_000_000
        }),
    ensures
        packets_within(packets, malformed, n, now, window).finite(),
        recent(times_of(packets, malformed, n), limits, now) == packets_within(
            packets,
            malformed,
            n,
            now,
            window,
        ).len(),
    decreases n,
{
    let within = packets_within(packets, malformed, n, now, window);
    if n == 0 {
        assert(within =~= Set::empty());
    } else {
        let m = (n - 1) as nat;
        let rest = packets_within(packets, malformed, m, now, window);
        lemma_number_within(packets, malformed, m, limits, now, window);
        let p = packets[n - 1];
        let before = times_of(packets, malformed, m);
        if p.1 == malformed {
            assert(before.push(p.0).drop_last() =~= before);
            assert(within_window(p.0, limits, now) <==> now - p.0 <= window);
        }
        if p.1 == malformed && now - p.0 <= window {
            assert(within =~= rest.insert(n - 1));
        } else {
            assert(within =~= rest);
        }
    }
}

/// Law: the limits in plain numbers, for any traffic from any sources. Control value 2 is
/// the number of valid packets, and control value 4 that of malformed ones, that a source
/// may send within the milliseconds of control value 3 (`0` counts as 1). Zero means no
/// limit. A packet that exceeds one of them is dropped, counted under statistic 3, and
/// blocks its source for the seconds of control value 5. A packet that does not is dropped
/// and counted under statistic 1 if it is malformed, and passes the screening otherwise.
/// Packets that a running block drops do not count.
pub proof fn limits_in_numbers(
    history: Seq<(u64, bool)>,
    frames: Seq<(Seq<u8>, u64)>,
    f: Seq<u8>,
    flow: Flow,
    now: u64,
    t: TablesView,
)
    requires
        t.wf(),
        t.ctrl[2] > 0 || t.ctrl[4] > 0,
        on_record(t, flow.source_addr, history, history.len()),
        one_after_the_other(
            (history + packets_from(frames, t, flow.source_addr)).push((now, malformed(flow))),
        ),
        history.len() + packets_from(frames, t, flow.source_addr).len() < u64::MAX,
        parsed(f) == (Parsed::Complete { flow }),
        t.ports.contains(flow.dest_port),
        now + t.ctrl[5] * 1_000_000_000 <= u64::MAX,
        ({
            let before = after_frames(frames, t);
            before.blocklist.contains_key(flow.source_addr)
                ==> before.blocklist[flow.source_addr] <= now
        }),
    ensures
        ({
            let before = after_frames(frames, t);
            let o = outcome(f, before, now);
            let packets = (history + packets_from(frames, t, flow.source_addr)).push(
                (now, malformed(flow)),
            );
            let window = if t.ctrl[3] == 0 {
                1_000_000
            } else {
                t.ctrl[3] * 1_000_000
            };
            let too_many = {
                ||| t.ctrl[2] > 0 && number_within(packets, false, now, window) > t.ctrl[2]
                ||| t.ctrl[4] > 0 && number_within(packets, true, now, window) > t.ctrl[4]
            };
            &&& before.ctrl == t.ctrl
            &&& before.ports == t.ports
            &&& on_record(o.tables, flow.source_addr, packets, packets.len())
            &&& too_many ==> {
                &&& o.verdict == Ok::<u32, u32>(1)
                &&& o.frame == f
                &&& o.tables.blocklist.contains_key(flow.source_addr)
                &&& o.tables.blocklist[flow.source_addr] == now + t.ctrl[5] * 1_000_000_000
                &&& o.tables.stats == before.stats.update(3, before.stats[3].wrapping_add(1))
            }
            &&& !too_many ==> o.tables.blocklist == before.blocklist
            &&& !too_many && malformed(flow) ==> {
                &&& o.verdict == Ok::<u32, u32>(1)
                &&& o.frame == f
                &&& o.tables.stats == before.stats.update(1, before.stats[1].wrapping_add(1))
            }
            &&& !too_many && !malformed(flow) ==> screening_of(flow, before, now).dropped is None
        }),
{
    let source = flow.source_addr;
    let before = after_frames(frames, t);
    let rest = history + packets_from(frames, t, source);
    let packets = rest.push((now, malformed(flow)));
    let n = rest.len();
    assert(forall|i: int| 0 <= i < n ==> #[trigger] rest[i] == packets[i]);
    assert(one_after_the_other(rest)) by {
        assert forall|i: int, j: int| 0 <= i <= j < rest.len() implies (#[trigger] rest[i]).0 <= (
        #[trigger] rest[j]).0 by {
            assert(packets[i].0 <= packets[j].0);
        }
    }
    limits_are_enforced(history, frames, t, source);
    lemma_frames_keep_the_sizes(frames, t);
    lemma_times_prefix(rest, packets, false, n);
    lemma_times_prefix(rest, packets, true, n);
    lemma_screening_is_recorded(f, flow, before, now);
    if screening_of(flow, before, now).dropped is Some {
        lemma_dropped_packets_are_counted(f, flow, before, now);
    }
    lemma_one_more_packet(f, flow, before, now, outcome(f, before, now), packets, n);
}

/// What becomes of one more packet of a source whose earlier packets are on record.
proof fn lemma_one_more_packet(
    f: Seq<u8>,
    flow: Flow,
    t: TablesView,
    now: u64,
    o: Outcome,
    packets: Seq<(u64, bool)>,
    n: nat,
)
    requires
        t.ctrl.len() == 8,
        t.ctrl[2] > 0 || t.ctrl[4] > 0,
        packets.len() == n + 1 <= u64::MAX,
        one_after_the_other(packets),
        packets[n as int] == (now, malformed(flow)),
        on_record(t, flow.source_addr, packets, n),
        now + t.ctrl[5] * 1_000_000_000 <= u64::MAX,
        t.blocklist.contains_key(flow.source_addr) ==> t.blocklist[flow.source_addr] <= now,
        ({
            let s = screening_of(flow, t, now);
            let noted = recorded(t, flow.source_addr, malformed(flow), now, s);
            &&& o.tables.rate == noted.rate
            &&& o.tables.valid_times == noted.valid_times
            &&& o.tables.malformed_times == noted.malformed_times
            &&& o.tables.blocklist == noted.blocklist
            &&& s.dropped is Some ==> {
                let k = s.dropped->0 as int;
                &&& o.verdict == Ok::<u32, u32>(1)
                &&& o.frame == f
                &&& o.tables.stats == t.stats.update(k, t.stats[k].wrapping_add(1))
            }
        }),
    ensures
        ({
            let window = if t.ctrl[3] == 0 {
                1_000_000
            } else {
                t.ctrl[3] * 1_000_000
            };
            let too_many = {
                ||| t.ctrl[2] > 0 && number_within(packets, false, now, window) > t.ctrl[2]
                ||| t.ctrl[4] > 0 && number_within(packets, true, now, window) > t.ctrl[4]
            };
            &&& on_record(o.tables, flow.source_addr, packets, packets.len())
            &&& too_many ==> {
                &&& o.verdict == Ok::<u32, u32>(1)
                &&& o.frame == f
                &&& o.tables.blocklist.contains_key(flow.source_addr)
                &&& o.tables.blocklist[flow.source_addr] == now + t.ctrl[5] * 1_000_000_000
                &&& o.tables.stats == t.stats.update(3, t.stats[3].wrapping_add(1))
            }
            &&& !too_many ==> o.tables.blocklist == t.blocklist
            &&& !too_many && malformed(flow) ==> {
                &&& o.verdict == Ok::<u32, u32>(1)
                &&& o.frame == f
                &&& o.tables.stats == t.stats.update(1, t.stats[1].wrapping_add(1))
            }
            &&& !too_many && !malformed(flow) ==> screening_of(flow, t, now).dropped is None
        }),
{
    let s = screening_of(flow, t, now);
    lemma_noted(t, o.tables, flow.source_addr, malformed(flow), s, packets, n);
    lemma_exceeded_in_numbers(packets, limits_of(t), now);
    lemma_block_in_numbers(t, now);
}

/// The end of a block in plain numbers.
proof fn lemma_block_in_numbers(t: TablesView, now: u64)
    requires
        t.ctrl.len() == 8,
        now + t.ctrl[5] * 1_000_000_000 <= u64::MAX,
    ensures
        now.wrapping_add(block_ns(limits_of(t))) == now + t.ctrl[5] * 1_000_000_000,
        limits_of(t).rate_max == t.ctrl[2],
        limits_of(t).window_ms == t.ctrl[3],
        limits_of(t).malformed_max == t.ctrl[4],
{
}

/// Whether a limit is exceeded, in plain numbers.
proof fn lemma_exceeded_in_numbers(
    packets: Seq<(u64, bool)>,
    limits: ProtectionSettings,
    now: u64,
)
    requires
        packets.len() > 0,
        one_after_the_other(packets),
        packets.last().0 == now,
    ensures
        ({
            let window = if limits.window_ms == 0 {
                1_000_000
            } else {
                limits.window_ms * 1_000_000
            };
            exceeded(packets, limits, packets.len()) <==> {
                ||| limits.rate_max > 0 && number_within(packets, false, now, window)
                    > limits.rate_max
                ||| limits.malformed_max > 0 && number_within(packets, true, now, window)
                    > limits.malformed_max
            }
        }),
{
    let n = packets.len();
    assert forall|i: int| 0 <= i < n implies (#[trigger] packets[i]).0 <= now by {
        assert(packets[i].0 <= packets[n - 1].0);
    }
    let window = if limits.window_ms == 0 {
        1_000_000
    } else {
        limits.window_ms * 1_000_000
    };
    lemma_number_within(packets, false, n, limits, now, window);
    lemma_number_within(packets, true, n, limits, now, window);
}

/// No frame changes the sizes of the tables.
proof fn lemma_frames_keep_the_sizes(frames: Seq<(Seq<u8>, u64)>, t: TablesView)
    requires
        t.wf(),
    ensures
        after_frames(frames, t).wf(),
    decreases frames.len(),
{
    if frames.len() > 0 {
        lemma_frames_keep_the_sizes(frames.drop_last(), t);
        each_packet_is_counted_once(
            frames.last().0,
            after_frames(frames.drop_last(), t),
            frames.last().1,
        );
    }
}

/// A packet that the screening drops is dropped as it came in, and counted.
proof fn lemma_dropped_packets_are_counted(f: Seq<u8>, flow: Flow, t: TablesView, now: u64)
    requires
        parsed(f) == (Parsed::Complete { flow }),
        t.ports.contains(flow.dest_port),
        screening_of(flow, t, now).dropped matches Some(k) && k < t.stats.len(),
    ensures
        ({
            let o = outcome(f, t, now);
            let k = screening_of(flow, t, now).dropped->0 as int;
            &&& o.verdict == Ok::<u32, u32>(1)
            &&& o.frame == f
            &&& o.tables.stats == t.stats.update(k, t.stats[k].wrapping_add(1))
        }),
{
}

} // verus!
