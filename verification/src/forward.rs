//! The data plane: what happens to one frame.

use vstd::prelude::*;
use std::collections::HashMap;
use crate::abuse::{
    block_ns, count_packet, counted, latest, latest_packet, marked, marked_packet, packet_key, screen, screened, time_key,
    Marks, Screening,
};
use crate::common::{
    CTRL_BLOCK_SECS, CTRL_DROP_UNMATCHED, CTRL_MALFORMED_MAX, CTRL_RATE_MAX, CTRL_RATE_WINDOW_MS,
    Node, RateState, STAT_DROPPED_BLOCKED, STAT_DROPPED_NOBACKEND, STAT_DROPPED_RATE, STAT_ROUTED,
};
use crate::config::ProtectionSettings;
use crate::packet::{
    flow_slot, hash_flow, is_malformed, malformed, parse_frame, parsed, rewrite_frame, rewritten, Flow, Parsed,
};
use crate::tables::{Tables, TablesView};

verus! {

broadcast use vstd::std_specs::hash::group_hash_axioms;

/// The driver drops the frame and reports an error.
pub const XDP_ABORTED: u32 = 0;

/// The driver drops the frame.
pub const XDP_DROP: u32 = 1;

/// The frame goes on to the host's network stack.
pub const XDP_PASS: u32 = 2;

/// The frame is sent back out of the interface it came in on.
pub const XDP_TX: u32 = 3;

/// What the data plane makes of one frame: the verdict, the frame as it leaves,
/// and the tables afterwards. An `Err` verdict belongs to a frame that is cut
/// off before the end of its headers.
pub struct Outcome {
    pub verdict: Result<u32, u32>,
    pub frame: Seq<u8>,
    pub tables: TablesView,
}

/// What has to be known of a packet to a load-balanced port before it is decided on.
#[derive(Debug, Clone, Copy)]
pub struct Facts {
    /// When the block of its source expires (ns), if there is one.
    pub expiry: Option<u64>,
    /// The packets of its source, this one included.
    pub seen: RateState,
    /// The times of the packets marked by `seen`.
    pub marks: Marks,
    pub limits: ProtectionSettings,
    /// The backend its Maglev slot leads to.
    pub node: Option<Node>,
    /// The control value that says whether packets without a backend are dropped.
    pub drop_unmatched: u32,
}

/// What is decided on a packet to a load-balanced port.
#[derive(Debug, Clone, Copy, PartialEq, Eq, Structural)]
pub struct Decision {
    /// What is recorded of its source.
    pub screening: Screening,
    pub verdict: u32,
    /// The statistic to count.
    pub stat: u32,
}

/// The thresholds in the control values.
pub open spec fn limits_of(t: TablesView) -> ProtectionSettings {
    ProtectionSettings {
        rate_max: t.ctrl_value(CTRL_RATE_MAX),
        window_ms: t.ctrl_value(CTRL_RATE_WINDOW_MS),
        malformed_max: t.ctrl_value(CTRL_MALFORMED_MAX),
        block_secs: t.ctrl_value(CTRL_BLOCK_SECS),
    }
}

/// The verdict on a valid packet for which there is no backend.
pub open spec fn unmatched_verdict(drop_unmatched: u32) -> u32 {
    if drop_unmatched == 1 {
        XDP_DROP
    } else {
        XDP_PASS
    }
}

/// The verdict on a frame that is cut off before the end of its headers; `listed`
/// says whether it is known to go to a load-balanced port.
pub open spec fn cut_verdict(listed: bool) -> Result<u32, u32> {
    if listed {
        Err(XDP_DROP)
    } else {
        Err(XDP_PASS)
    }
}

/// The verdict on a packet that has passed the screening, the statistic it counts
/// under, and the frame as it leaves.
pub open spec fn delivered(
    f: Seq<u8>,
    flow: Flow,
    node: Option<Node>,
    drop_unmatched: u32,
) -> (u32, u32, Seq<u8>) {
    match node {
        Some(node) => (XDP_TX, STAT_ROUTED, rewritten(f, flow, node)),
        None => (unmatched_verdict(drop_unmatched), STAT_DROPPED_NOBACKEND, f),
    }
}

/// What is known of the packets of `source`, one more packet included.
pub open spec fn seen_by(t: TablesView, source: u32, malformed: bool) -> RateState {
    counted(
        if t.rate.contains_key(source) {
            Some(t.rate[source])
        } else {
            None
        },
        malformed,
    )
}

/// The time of packet `number` of `source`, if there is such a packet.
pub open spec fn time_at(times: Map<u64, u64>, source: u32, number: Option<u64>) -> Option<u64> {
    if number is Some && times.contains_key(time_key(source, number->0)) {
        Some(times[time_key(source, number->0)])
    } else {
        None
    }
}

/// The times of the marked packets of `source`, which has the packets `seen`.
pub open spec fn marks_of(t: TablesView, source: u32, seen: RateState) -> Marks {
    Marks {
        valid: time_at(t.valid_times, source, marked(seen.valid, limits_of(t).rate_max)),
        malformed: time_at(
            t.malformed_times,
            source,
            marked(seen.malformed, limits_of(t).malformed_max),
        ),
    }
}

/// What the tables hold that bears on a packet of `flow`.
pub open spec fn facts_of(flow: Flow, t: TablesView) -> Facts {
    let seen = seen_by(t, flow.source_addr, malformed(flow));
    Facts {
        expiry: if t.blocklist.contains_key(flow.source_addr) {
            Some(t.blocklist[flow.source_addr])
        } else {
            None
        },
        seen,
        marks: marks_of(t, flow.source_addr, seen),
        limits: limits_of(t),
        node: t.lookup(flow_slot(flow)),
        drop_unmatched: t.ctrl_value(CTRL_DROP_UNMATCHED),
    }
}

/// How a packet of `flow` is screened, given what is known.
pub open spec fn screened_by(flow: Flow, facts: Facts, now: u64) -> Screening {
    screened(facts.expiry, facts.seen, facts.marks, facts.limits, now, malformed(flow))
}

/// How a packet of `flow` is screened against the tables.
pub open spec fn screening_of(flow: Flow, t: TablesView, now: u64) -> Screening {
    screened_by(flow, facts_of(flow, t), now)
}

/// What is decided on a complete packet to a load-balanced port, and the frame as it
/// leaves: first the screening, then the way to the backend.
pub open spec fn decided(f: Seq<u8>, flow: Flow, facts: Facts, now: u64) -> (Decision, Seq<u8>) {
    let screening = screened_by(flow, facts, now);
    if screening.dropped is Some {
        (Decision { screening, verdict: XDP_DROP, stat: screening.dropped->0 }, f)
    } else {
        let (verdict, stat, frame) = delivered(f, flow, facts.node, facts.drop_unmatched);
        (Decision { screening, verdict, stat }, frame)
    }
}

/// The tables once the screening of a packet from `source` at time `now` is
/// recorded.
pub open spec fn recorded(
    t: TablesView,
    source: u32,
    malformed: bool,
    now: u64,
    s: Screening,
) -> TablesView {
    TablesView {
        rate: if s.rate is Some {
            t.rate.insert(source, s.rate->0)
        } else {
            t.rate
        },
        valid_times: if s.rate is Some && !malformed {
            t.valid_times.insert(time_key(source, latest(s.rate->0, false)), now)
        } else {
            t.valid_times
        },
        malformed_times: if s.rate is Some && malformed {
            t.malformed_times.insert(time_key(source, latest(s.rate->0, true)), now)
        } else {
            t.malformed_times
        },
        blocklist: if s.block_until is Some {
            t.blocklist.insert(source, s.block_until->0)
        } else {
            t.blocklist
        },
        ..t
    }
}

/// What becomes of a complete packet to a load-balanced port.
pub open spec fn inspected(f: Seq<u8>, flow: Flow, t: TablesView, now: u64) -> Outcome {
    let (d, frame) = decided(f, flow, facts_of(flow, t), now);
    Outcome {
        verdict: Ok(d.verdict),
        frame,
        tables: recorded(t, flow.source_addr, malformed(flow), now, d.screening).bumped(d.stat),
    }
}

/// What becomes of frame `f` at time `now`. Only load-balanced ports are
/// inspected; everything else is left to the host.
pub open spec fn outcome(f: Seq<u8>, t: TablesView, now: u64) -> Outcome {
    let pass = Outcome { verdict: Ok(XDP_PASS), frame: f, tables: t };
    match parsed(f) {
        Parsed::Unhandled => pass,
        Parsed::Truncated { dest_port } => Outcome {
            verdict: cut_verdict(dest_port is Some && t.ports.contains(dest_port->0)),
            frame: f,
            tables: t,
        },
        Parsed::Complete { flow } => if t.ports.contains(flow.dest_port) {
            inspected(f, flow, t, now)
        } else {
            pass
        },
    }
}

/// The action the driver is told to take.
pub open spec fn action_of(verdict: Result<u32, u32>) -> u32 {
    match verdict {
        Ok(action) => action,
        Err(XDP_PASS) => XDP_PASS,
        Err(_) => XDP_ABORTED,
    }
}

/// The action to hand back. A frame cut short is left to the host unless it is
/// known to go to a load-balanced port.
pub fn action(verdict: Result<u32, u32>) -> (a: u32)
    ensures
        a == action_of(verdict),
{
    match verdict {
        Ok(ret) => ret,
        Err(code) => if code == XDP_PASS {
            XDP_PASS
        } else {
            XDP_ABORTED
        },
    }
}

/// The verdict on a frame that is cut off before the end of its headers.
pub fn cut_short(listed: bool) -> (verdict: Result<u32, u32>)
    ensures
        verdict == cut_verdict(listed),
{
    if listed {
        Err(XDP_DROP)
    } else {
        Err(XDP_PASS)
    }
}

/// Decide on a complete packet to a load-balanced port: screen it, and if it passes,
/// rewrite the frame towards its backend. Without a backend it is dropped if
/// `drop_unmatched` is `1` and passed otherwise.
pub fn decide(frame: &mut [u8], flow: &Flow, facts: &Facts, now: u64) -> (d: Decision)
    requires
        parsed(old(frame)@) == (Parsed::Complete { flow: *flow }),
    ensures
        (d, final(frame)@) == decided(old(frame)@, *flow, *facts, now),
{
    let screening = screen(
        facts.expiry,
        facts.seen,
        facts.marks,
        &facts.limits,
        now,
        is_malformed(flow),
    );
    if let Some(stat) = screening.dropped {
        return Decision { screening, verdict: XDP_DROP, stat };
    }
    match facts.node {
        Some(node) => {
            rewrite_frame(frame, flow, &node);
            Decision { screening, verdict: XDP_TX, stat: STAT_ROUTED }
        },
        None => {
            let verdict: u32 = if facts.drop_unmatched == 1 {
                XDP_DROP
            } else {
                XDP_PASS
            };
            Decision { screening, verdict, stat: STAT_DROPPED_NOBACKEND }
        },
    }
}

/// Handle one frame and return the driver action.
pub fn l4(frame: &mut [u8], tables: &mut Tables, now: u64) -> (a: u32)
    ensures
        ({
            let o = outcome(old(frame)@, old(tables)@, now);
            &&& a == action_of(o.verdict)
            &&& final(frame)@ == o.frame
            &&& final(tables)@ == o.tables
        }),
{
    let verdict = try_l4(frame, tables, now);
    action(verdict)
}

/// The time of packet `number` of `source`, if there is such a packet.
fn lookup_time(times: &HashMap<u64, u64>, source: u32, number: Option<u64>) -> (time: Option<u64>)
    ensures
        time == time_at(times@, source, number),
{
    match number {
        Some(n) => match times.get(&packet_key(source, n)) {
            Some(time) => Some(*time),
            None => None,
        },
        None => None,
    }
}

/// Handle one frame: screen it, pick a backend and rewrite the frame towards it.
pub fn try_l4(frame: &mut [u8], tables: &mut Tables, now: u64) -> (verdict: Result<u32, u32>)
    ensures
        ({
            let o = outcome(old(frame)@, old(tables)@, now);
            &&& verdict == o.verdict
            &&& final(frame)@ == o.frame
            &&& final(tables)@ == o.tables
        }),
{
    let flow = match parse_frame(frame) {
        Parsed::Unhandled => return Ok(XDP_PASS),
        Parsed::Truncated { dest_port } => {
            let listed: bool = match dest_port {
                Some(port) => tables.is_listed(port),
                None => false,
            };
            return cut_short(listed);
        },
        Parsed::Complete { flow } => flow,
    };
    // Not a load-balanced port: leave it entirely to the host stack.
    if !tables.is_listed(flow.dest_port) {
        return Ok(XDP_PASS);
    }
    let src: u32 = flow.source_addr;
    let expiry: Option<u64> = match tables.blocklist.get(&src) {
        Some(until) => Some(*until),
        None => None,
    };
    let rate = match tables.rate.get(&src) {
        Some(s) => Some(*s),
        None => None,
    };
    let limits = ProtectionSettings {
        rate_max: tables.ctrl(CTRL_RATE_MAX),
        window_ms: tables.ctrl(CTRL_RATE_WINDOW_MS),
        malformed_max: tables.ctrl(CTRL_MALFORMED_MAX),
        block_secs: tables.ctrl(CTRL_BLOCK_SECS),
    };
    let bad: bool = is_malformed(&flow);
    let seen = count_packet(rate, bad);
    let marks = Marks {
        valid: lookup_time(&tables.valid_times, src, marked_packet(seen.valid, limits.rate_max)),
        malformed: lookup_time(
            &tables.malformed_times,
            src,
            marked_packet(seen.malformed, limits.malformed_max),
        ),
    };
    let facts = Facts {
        expiry,
        seen,
        marks,
        limits,
        node: tables.lookup(hash_flow(&flow)),
        drop_unmatched: tables.ctrl(CTRL_DROP_UNMATCHED),
    };
    let decision = decide(frame, &flow, &facts, now);
    let screening = decision.screening;
    if let Some(s) = screening.rate {
        let key: u64 = packet_key(src, latest_packet(&s, bad));
        if bad {
            tables.malformed_times.insert(key, now);
        } else {
            tables.valid_times.insert(key, now);
        }
        tables.rate.insert(src, s);
    }
    if let Some(until) = screening.block_until {
        tables.blocklist.insert(src, until);
    }
    assert(tables@ =~= recorded(old(tables)@, src, bad, now, screening));
    tables.stat(decision.stat);
    Ok(decision.verdict)
}

/// Whether a frame is known to go to a load-balanced port.
pub open spec fn load_balanced(f: Seq<u8>, t: TablesView) -> bool {
    match parsed(f) {
        Parsed::Unhandled => false,
        Parsed::Truncated { dest_port } => dest_port is Some && t.ports.contains(dest_port->0),
        Parsed::Complete { flow } => t.ports.contains(flow.dest_port),
    }
}

/// Law: a frame that is not known to go to a load-balanced port is passed to the
/// host unchanged, and leaves no trace in the tables.
pub proof fn unrelated_traffic_is_passed(f: Seq<u8>, t: TablesView, now: u64)
    requires
        !load_balanced(f, t),
    ensures
        action_of(outcome(f, t, now).verdict) == XDP_PASS,
        outcome(f, t, now).frame == f,
        outcome(f, t, now).tables == t,
{
}

/// Law: a frame to a load-balanced port that is cut off inside its headers is
/// dropped.
pub proof fn truncated_packets_are_dropped(f: Seq<u8>, t: TablesView, now: u64)
    requires
        load_balanced(f, t),
        parsed(f) is Truncated,
    ensures
        action_of(outcome(f, t, now).verdict) == XDP_ABORTED,
        outcome(f, t, now).frame == f,
        outcome(f, t, now).tables == t,
{
}

/// Law: on a load-balanced port an illegal TCP flag combination is dropped,
/// whatever the state of the tables.
pub proof fn malformed_packets_are_dropped(f: Seq<u8>, flow: Flow, t: TablesView, now: u64)
    requires
        parsed(f) == (Parsed::Complete { flow }),
        t.ports.contains(flow.dest_port),
        malformed(flow),
    ensures
        outcome(f, t, now).verdict == Ok::<u32, u32>(XDP_DROP),
        outcome(f, t, now).frame == f,
{
}

/// Law: while a source is blacklisted, its packets to load-balanced ports are
/// dropped and only counted.
pub proof fn blocked_source_is_dropped(f: Seq<u8>, flow: Flow, t: TablesView, now: u64)
    requires
        parsed(f) == (Parsed::Complete { flow }),
        t.ports.contains(flow.dest_port),
        t.blocklist.contains_key(flow.source_addr),
        now < t.blocklist[flow.source_addr],
    ensures
        outcome(f, t, now).verdict == Ok::<u32, u32>(XDP_DROP),
        outcome(f, t, now).frame == f,
        outcome(f, t, now).tables == t.bumped(STAT_DROPPED_BLOCKED),
{
    assert(recorded(t, flow.source_addr, malformed(flow), now, screening_of(flow, t, now)) =~= t);
}

/// The tables after a series of frames, each with the time at which it came in.
pub open spec fn after_frames(frames: Seq<(Seq<u8>, u64)>, t: TablesView) -> TablesView
    decreases frames.len(),
{
    if frames.len() == 0 {
        t
    } else {
        let before = after_frames(frames.drop_last(), t);
        outcome(frames.last().0, before, frames.last().1).tables
    }
}

/// Law: a block that is running is neither lifted nor moved by any traffic.
pub proof fn running_blocks_are_kept(
    frames: Seq<(Seq<u8>, u64)>,
    t: TablesView,
    source: u32,
)
    requires
        t.blocklist.contains_key(source),
        forall|i: int|
            0 <= i < frames.len() ==> (#[trigger] frames[i]).1 < t.blocklist[source],
    ensures
        after_frames(frames, t).blocklist.contains_key(source),
        after_frames(frames, t).blocklist[source] == t.blocklist[source],
        after_frames(frames, t).ports == t.ports,
    decreases frames.len(),
{
    if frames.len() > 0 {
        let rest = frames.drop_last();
        assert forall|i: int| 0 <= i < rest.len() implies (#[trigger] rest[i]).1
            < t.blocklist[source] by {
            assert(frames[i].1 < t.blocklist[source]);
        }
        running_blocks_are_kept(rest, t, source);
        let now = frames[frames.len() - 1].1;
        assert(now < t.blocklist[source]);
    }
}

/// Law: once a source trips a threshold, every packet it sends to a
/// load-balanced port before the block duration is over is dropped, whatever
/// traffic comes in between.
pub proof fn tripping_blocks_for_the_duration(
    f: Seq<u8>,
    flow: Flow,
    t: TablesView,
    now: u64,
    between: Seq<(Seq<u8>, u64)>,
    f2: Seq<u8>,
    flow2: Flow,
    later: u64,
)
    requires
        parsed(f) == (Parsed::Complete { flow }),
        t.ports.contains(flow.dest_port),
        screening_of(flow, t, now).dropped == Some(STAT_DROPPED_RATE),
        now + block_ns(limits_of(t)) <= u64::MAX,
        forall|i: int|
            0 <= i < between.len() ==> (#[trigger] between[i]).1 < now + block_ns(limits_of(t)),
        parsed(f2) == (Parsed::Complete { flow: flow2 }),
        t.ports.contains(flow2.dest_port),
        flow2.source_addr == flow.source_addr,
        later < now + block_ns(limits_of(t)),
    ensures
        outcome(f, t, now).verdict == Ok::<u32, u32>(XDP_DROP),
        outcome(f2, after_frames(between, outcome(f, t, now).tables), later).verdict == Ok::<
            u32,
            u32,
        >(XDP_DROP),
{
    let t1 = outcome(f, t, now).tables;
    running_blocks_are_kept(between, t1, flow.source_addr);
    blocked_source_is_dropped(f2, flow2, after_frames(between, t1), later);
}

/// Law: a frame is only ever changed when it is sent on to a backend.
pub proof fn only_forwarded_frames_change(f: Seq<u8>, t: TablesView, now: u64)
    ensures
        outcome(f, t, now).frame != f ==> outcome(f, t, now).verdict == Ok::<u32, u32>(XDP_TX),
        outcome(f, t, now).frame.len() == f.len(),
{
}

/// Law: a valid packet of a source that is not held back goes to the backend its
/// Maglev slot leads to, or, without one, is dropped or passed as configured.
pub proof fn valid_packets_follow_the_table(f: Seq<u8>, flow: Flow, t: TablesView, now: u64)
    requires
        parsed(f) == (Parsed::Complete { flow }),
        t.ports.contains(flow.dest_port),
        screening_of(flow, t, now).dropped is None,
    ensures
        match t.lookup(flow_slot(flow)) {
            Some(node) => {
                &&& outcome(f, t, now).verdict == Ok::<u32, u32>(XDP_TX)
                &&& outcome(f, t, now).frame == rewritten(f, flow, node)
            },
            None => {
                &&& outcome(f, t, now).verdict == Ok::<u32, u32>(
                    unmatched_verdict(t.ctrl_value(CTRL_DROP_UNMATCHED)),
                )
                &&& outcome(f, t, now).frame == f
            },
        },
{
}

/// Law: packets of one flow take the same Maglev slot, so they reach the same
/// backend as long as the table does not change.
pub proof fn flows_are_sticky(a: Flow, b: Flow, t: TablesView)
    requires
        a.source_addr == b.source_addr,
        a.dest_addr == b.dest_addr,
        a.source_port == b.source_port,
        a.dest_port == b.dest_port,
    ensures
        flow_slot(a) == flow_slot(b),
        t.lookup(flow_slot(a)) == t.lookup(flow_slot(b)),
{
}

/// Law: every complete packet to a load-balanced port is counted under exactly
/// one statistic, and no packet changes what the control plane has written.
pub proof fn each_packet_is_counted_once(f: Seq<u8>, t: TablesView, now: u64)
    requires
        t.wf(),
    ensures
        parsed(f) is Complete && load_balanced(f, t) ==> exists|k: int|
            0 <= k < 5 && outcome(f, t, now).tables.stats == #[trigger] t.stats.update(
                k,
                t.stats[k].wrapping_add(1),
            ),
        !(parsed(f) is Complete && load_balanced(f, t)) ==> outcome(f, t, now).tables.stats
            == t.stats,
        outcome(f, t, now).tables.ports == t.ports,
        outcome(f, t, now).tables.ctrl == t.ctrl,
        outcome(f, t, now).tables.route == t.route,
        outcome(f, t, now).tables.backends == t.backends,
        outcome(f, t, now).tables.wf(),
{
    if parsed(f) is Complete && load_balanced(f, t) {
        let flow = parsed(f)->flow;
        let s = screening_of(flow, t, now);
        let t1 = recorded(t, flow.source_addr, malformed(flow), now, s);
        let k: int = if s.dropped is Some {
            s.dropped->0 as int
        } else if t1.lookup(flow_slot(flow)) is Some {
            STAT_ROUTED as int
        } else {
            STAT_DROPPED_NOBACKEND as int
        };
        assert(0 <= k < 5);
        assert(outcome(f, t, now).tables.stats == t.stats.update(k, t.stats[k].wrapping_add(1)));
    }
}

/// Law: frames that are not to be balanced. One that is neither TCP nor UDP over IPv4, and
/// a packet to a port that is not listed, are passed. One cut off inside its headers is
/// aborted if its port can still be read and is listed, and passed otherwise. None of
/// them is changed or leaves a trace.
pub proof fn other_frames_are_left_alone(f: Seq<u8>, t: TablesView, now: u64)
    ensures
        ({
            let o = outcome(f, t, now);
            let left_alone = o.frame == f && o.tables == t;
            match parsed(f) {
                Parsed::Unhandled => left_alone && action_of(o.verdict) == 2,
                Parsed::Truncated { dest_port: Some(port) } => left_alone && action_of(o.verdict)
                    == (if t.ports.contains(port) {
                    0u32
                } else {
                    2
                }),
                Parsed::Truncated { dest_port: None } => left_alone && action_of(o.verdict) == 2,
                Parsed::Complete { flow } => !t.ports.contains(flow.dest_port) ==> left_alone
                    && action_of(o.verdict) == 2,
            }
        }),
{
}

/// Law: a packet that has passed the screening is sent on to the backend of its slot,
/// rewritten; without a backend it is dropped if control value 1 is one, and passed
/// otherwise, as it came in. The first case counts under statistic 0 and the second
/// under statistic 4.
pub proof fn screened_packets_are_delivered(f: Seq<u8>, flow: Flow, t: TablesView, now: u64)
    requires
        t.wf(),
        parsed(f) == (Parsed::Complete { flow }),
        t.ports.contains(flow.dest_port),
        screening_of(flow, t, now).dropped is None,
    ensures
        ({
            let o = outcome(f, t, now);
            match t.lookup(flow_slot(flow)) {
                Some(node) => {
                    &&& action_of(o.verdict) == 3
                    &&& o.frame == rewritten(f, flow, node)
                    &&& o.tables.stats == t.stats.update(0, t.stats[0].wrapping_add(1))
                },
                None => {
                    &&& action_of(o.verdict) == (if t.ctrl[1] == 1 {
                        1u32
                    } else {
                        2
                    })
                    &&& o.frame == f
                    &&& o.tables.stats == t.stats.update(4, t.stats[4].wrapping_add(1))
                },
            }
        }),
{
}

/// Law: the packet that trips a limit is dropped and counted under statistic 3, and puts
/// its source on the blacklist for exactly the seconds in control value 5, whatever their
/// number. No other packet changes the blacklist.
pub proof fn blocks_last_the_configured_seconds(f: Seq<u8>, flow: Flow, t: TablesView, now: u64)
    requires
        t.wf(),
        parsed(f) == (Parsed::Complete { flow }),
        t.ports.contains(flow.dest_port),
        now + t.ctrl[5] * 1_000_000_000 <= u64::MAX,
    ensures
        ({
            let o = outcome(f, t, now);
            let until = (now + t.ctrl[5] * 1_000_000_000) as u64;
            if o.tables.stats[3] != t.stats[3] {
                &&& o.tables.blocklist == t.blocklist.insert(flow.source_addr, until)
                &&& action_of(o.verdict) == 1
                &&& o.frame == f
            } else {
                o.tables.blocklist == t.blocklist
            }
        }),
{
}

/// Law: once a source trips a limit, all it sends to load-balanced ports during the
/// seconds in control value 5 is dropped, whatever traffic comes in between.
pub proof fn tripping_blocks_for_the_configured_seconds(
    f: Seq<u8>,
    flow: Flow,
    t: TablesView,
    now: u64,
    between: Seq<(Seq<u8>, u64)>,
    f2: Seq<u8>,
    flow2: Flow,
    later: u64,
)
    requires
        t.wf(),
        parsed(f) == (Parsed::Complete { flow }),
        t.ports.contains(flow.dest_port),
        outcome(f, t, now).tables.stats[3] != t.stats[3],
        now + t.ctrl[5] * 1_000_000_000 <= u64::MAX,
        forall|i: int|
            0 <= i < between.len() ==> (#[trigger] between[i]).1 < now + t.ctrl[5]
                * 1_000_000_000,
        parsed(f2) == (Parsed::Complete { flow: flow2 }),
        t.ports.contains(flow2.dest_port),
        flow2.source_addr == flow.source_addr,
        later < now + t.ctrl[5] * 1_000_000_000,
    ensures
        action_of(outcome(f2, after_frames(between, outcome(f, t, now).tables), later).verdict)
            == 1,
{
    blocks_last_the_configured_seconds(f, flow, t, now);
    let t1 = outcome(f, t, now).tables;
    running_blocks_are_kept(between, t1, flow.source_addr);
    blocked_source_is_dropped(f2, flow2, after_frames(between, t1), later);
}

/// Law: a block holds as long as it runs and no longer. Up to its end the packets of the
/// source are dropped and counted under statistic 2. With no limit set, a valid packet of
/// a source without a running block is delivered, and a malformed one is dropped and
/// counted under statistic 1.
pub proof fn blocks_end_on_time(f: Seq<u8>, flow: Flow, t: TablesView, now: u64)
    requires
        t.wf(),
        parsed(f) == (Parsed::Complete { flow }),
        t.ports.contains(flow.dest_port),
    ensures
        ({
            let o = outcome(f, t, now);
            let running = t.blocklist.contains_key(flow.source_addr) && now
                < t.blocklist[flow.source_addr];
            let off = t.ctrl[2] == 0 && t.ctrl[4] == 0;
            &&& running ==> {
                &&& action_of(o.verdict) == 1
                &&& o.frame == f
                &&& o.tables == (TablesView {
                    stats: t.stats.update(2, t.stats[2].wrapping_add(1)),
                    ..t
                })
            }
            &&& !running && off && malformed(flow) ==> {
                &&& action_of(o.verdict) == 1
                &&& o.frame == f
                &&& o.tables == (TablesView {
                    stats: t.stats.update(1, t.stats[1].wrapping_add(1)),
                    ..t
                })
            }
            &&& !running && off && !malformed(flow) ==> {
                &&& screening_of(flow, t, now).dropped is None
                &&& o.tables == (TablesView { stats: o.tables.stats, ..t })
            }
        }),
{
    let s = screening_of(flow, t, now);
    if s.rate is None && s.block_until is None {
        assert(recorded(t, flow.source_addr, malformed(flow), now, s) =~= t);
    }
}

/// Law: the thresholds are read from control values 2 to 5.
pub proof fn limits_are_control_values(t: TablesView)
    requires
        t.ctrl.len() == 8,
    ensures
        limits_of(t) == (ProtectionSettings {
            rate_max: t.ctrl[2],
            window_ms: t.ctrl[3],
            malformed_max: t.ctrl[4],
            block_secs: t.ctrl[5],
        }),
{
}

/// Law: what the driver is told. A verdict on a whole frame is its action; a frame cut
/// short is passed if it is left to the host, and aborted otherwise.
pub proof fn verdicts_become_actions(action: u32, listed: bool)
    ensures
        action_of(Ok(action)) == action,
        action == 2 ==> action_of(Err(action)) == 2,
        action != 2 ==> action_of(Err(action)) == 0,
        listed ==> action_of(cut_verdict(listed)) == 0,
        !listed ==> action_of(cut_verdict(listed)) == 2,
{
}

/// Law: a decision follows the screening, whatever else is known. A packet that is held
/// back is dropped as it came in and counted for its reason; any other goes to its
/// backend, and without one is dropped or passed as it came in.
pub proof fn decisions_follow_the_screening(f: Seq<u8>, flow: Flow, facts: Facts, now: u64)
    ensures
        ({
            let (d, frame) = decided(f, flow, facts, now);
            let s = screened(
                facts.expiry,
                facts.seen,
                facts.marks,
                facts.limits,
                now,
                malformed(flow),
            );
            &&& d.screening == s
            &&& s.dropped is Some ==> d.verdict == 1 && d.stat == s.dropped->0 && frame == f
            &&& s.dropped is None && facts.node is Some ==> d.verdict == 3 && d.stat == 0 && frame
                == rewritten(f, flow, facts.node->0)
            &&& s.dropped is None && facts.node is None ==> {
                &&& d.verdict == (if facts.drop_unmatched == 1 {
                    1u32
                } else {
                    2
                })
                &&& d.stat == 4
                &&& frame == f
            }
        }),
{
}

} // verus!
