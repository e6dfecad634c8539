//! Control-plane side of the double-buffered data plane.
//!
//! Updates fill the *standby* buffer and then flip the single `CTRL_ACTIVE`
//! value, so the data plane switches over atomically and traffic keeps flowing
//! across reloads.

use vstd::prelude::*;
use crate::backend::{port_or_zero, Backend};
use crate::common::{
    CTRL_ACTIVE, CTRL_BLOCK_SECS, CTRL_DROP_UNMATCHED, CTRL_MALFORMED_MAX, CTRL_RATE_MAX, CTRL_RATE_WINDOW_MS, M, N,
    Node, STAT_DROPPED_BLOCKED, STAT_DROPPED_NOBACKEND, STAT_DROPPED_RATE, STAT_DROPPED_VALIDATION, STAT_ROUTED,
};
use crate::config::ProtectionSettings;
use crate::tables::MapOp;

verus! {

/// Data-plane counters, summed over the CPUs.
#[derive(Debug, Default, Clone, Copy, PartialEq, Eq, Structural)]
pub struct Stats {
    pub routed: u64,
    pub dropped_validation: u64,
    pub dropped_blocked: u64,
    pub dropped_rate: u64,
    pub dropped_nobackend: u64,
}

/// Why a backend set cannot be applied.
#[derive(Debug, Clone, Copy, PartialEq, Eq, Structural)]
pub enum ApplyError {
    /// More backends than a buffer holds.
    TooManyBackends { count: usize },
    /// The table does not have exactly `M` entries.
    BadTableSize { size: usize },
}

/// What the control plane remembers of what it has written.
pub struct DataPlane {
    /// Buffer the data plane is currently reading from.
    pub active: u32,
    /// Ports currently programmed, so that a reload only writes the difference.
    pub installed_ports: Vec<u16>,
}

/// The buffer that is not active.
pub open spec fn standby_of(active: u32) -> u32 {
    (1 - active) as u32
}

/// A backend as the data plane holds it.
pub open spec fn node_of(b: Backend) -> Node {
    Node { daddr: b.ip.bits, dport: port_or_zero(b.port), dmac: b.mac }
}

/// What a route slot of buffer `buffer` holds for local backend index `local`.
pub open spec fn global_id(buffer: u32, local: u32) -> u32 {
    if local == u32::MAX {
        u32::MAX
    } else {
        (buffer * N + local) as u32
    }
}

/// The writes that fill buffer `buffer` with backends.
pub open spec fn backend_ops(buffer: u32, backends: Seq<Backend>) -> Seq<MapOp> {
    Seq::new(
        backends.len(),
        |i: int|
            MapOp::InsertBackend { id: (buffer * N + i) as u32, node: node_of(backends[i]) },
    )
}

/// The writes that fill buffer `buffer` with a Maglev table.
pub open spec fn route_ops(buffer: u32, table: Seq<u32>) -> Seq<MapOp> {
    Seq::new(
        table.len(),
        |s: int|
            MapOp::SetRoute { slot: (buffer * M + s) as u32, value: global_id(buffer, table[s]) },
    )
}

/// The writes that bring a backend set and its table into effect: backends and
/// table go into the standby buffer, then the data plane is switched over to it.
pub open spec fn apply_ops(active: u32, backends: Seq<Backend>, table: Seq<u32>) -> Seq<MapOp> {
    let standby = standby_of(active);
    (backend_ops(standby, backends) + route_ops(standby, table)).push(
        MapOp::SetCtrl { index: CTRL_ACTIVE, value: standby },
    )
}

/// The ports of `ports` that are not in `other`, in order.
pub open spec fn outside(ports: Seq<u16>, other: Seq<u16>) -> Seq<u16> {
    ports.filter(|p: u16| !other.contains(p))
}

/// The writes that change the port table from `installed` to `ports`.
pub open spec fn port_ops(installed: Seq<u16>, ports: Seq<u16>) -> Seq<MapOp> {
    outside(ports, installed).map_values(|p: u16| MapOp::InsertPort { port: p }) + outside(
        installed,
        ports,
    ).map_values(|p: u16| MapOp::RemovePort { port: p })
}

/// The ports that are programmed when the change from `installed` to `ports` failed
/// after `made` of its writes: those from before, and the new ones inserted so far.
pub open spec fn ports_on_record(
    installed: Seq<u16>,
    ports: Seq<u16>,
    made: nat,
) -> Seq<u16> {
    let added = outside(ports, installed);
    if made < added.len() {
        installed + added.take(made as int)
    } else {
        installed + added
    }
}

/// The writes that set the abuse-protection thresholds.
pub open spec fn protection_ops(p: ProtectionSettings) -> Seq<MapOp> {
    seq![
        MapOp::SetCtrl { index: CTRL_RATE_MAX, value: p.rate_max },
        MapOp::SetCtrl { index: CTRL_RATE_WINDOW_MS, value: p.window_ms },
        MapOp::SetCtrl { index: CTRL_MALFORMED_MAX, value: p.malformed_max },
        MapOp::SetCtrl { index: CTRL_BLOCK_SECS, value: p.block_secs },
    ]
}

/// The write that says whether unrouted packets are dropped.
pub open spec fn drop_unmatched_ops(drop: bool) -> Seq<MapOp> {
    seq![
        MapOp::SetCtrl {
            index: CTRL_DROP_UNMATCHED,
            value: if drop {
                1
            } else {
                0
            },
        },
    ]
}

/// The writes with which the control plane starts: buffer 0, and passthrough for
/// unmatched traffic.
pub open spec fn startup_ops() -> Seq<MapOp> {
    seq![
        MapOp::SetCtrl { index: CTRL_ACTIVE, value: 0 },
        MapOp::SetCtrl { index: CTRL_DROP_UNMATCHED, value: 0 },
    ]
}

/// The sum of the first `n` values.
pub open spec fn sum_of(values: Seq<u64>, n: nat) -> int
    decreases n,
{
    if n == 0 {
        0
    } else {
        sum_of(values, (n - 1) as nat) + values[n - 1]
    }
}

/// The sum of counter `index` over the CPUs; `0` if it could not be read.
pub open spec fn counter(samples: Seq<Option<Vec<u64>>>, index: u32) -> int {
    if index < samples.len() && samples[index as int] is Some {
        sum_of(samples[index as int]->0@, samples[index as int]->0@.len())
    } else {
        0
    }
}

fn contains_port(ports: &[u16], port: u16) -> (b: bool)
    ensures
        b == ports@.contains(port),
{
    let mut i: usize = 0;
    while i < ports.len()
        invariant
            i <= ports@.len(),
            forall|k: int| 0 <= k < i ==> ports@[k] != port,
        decreases ports@.len() - i,
    {
        if ports[i] == port {
            return true;
        }
        i = i + 1;
    }
    false
}

fn ports_outside(ports: &[u16], other: &[u16]) -> (out: Vec<u16>)
    ensures
        out@ == outside(ports@, other@),
{
    let mut out: Vec<u16> = Vec::new();
    let mut i: usize = 0;
    assert(out@ =~= ports@.take(0).filter(|p: u16| !other@.contains(p))) by {
        reveal(Seq::filter);
    }
    while i < ports.len()
        invariant
            i <= ports@.len(),
            out@ == ports@.take(i as int).filter(|p: u16| !other@.contains(p)),
        decreases ports@.len() - i,
    {
        if !contains_port(other, ports[i]) {
            out.push(ports[i]);
        }
        proof {
            reveal(Seq::filter);
            assert(ports@.take(i + 1).drop_last() =~= ports@.take(i as int));
        }
        i = i + 1;
    }
    assert(ports@.take(ports@.len() as int) =~= ports@);
    out
}

proof fn lemma_sum_prefix(values: Seq<u64>, n: nat, m: nat)
    requires
        n <= m <= values.len(),
    ensures
        0 <= sum_of(values, n) <= sum_of(values, m),
    decreases m,
{
    if m > 0 {
        if n == m {
            lemma_sum_prefix(values, (n - 1) as nat, (m - 1) as nat);
        } else {
            lemma_sum_prefix(values, n, (m - 1) as nat);
        }
    }
}

fn total(values: &[u64]) -> (sum: u64)
    requires
        sum_of(values@, values@.len()) <= u64::MAX,
    ensures
        sum == sum_of(values@, values@.len()),
{
    let mut sum: u64 = 0;
    let mut i: usize = 0;
    while i < values.len()
        invariant
            i <= values@.len(),
            sum_of(values@, values@.len()) <= u64::MAX,
            sum == sum_of(values@, i as nat),
        decreases values@.len() - i,
    {
        proof {
            lemma_sum_prefix(values@, (i + 1) as nat, values@.len());
        }
        sum = sum + values[i];
        i = i + 1;
    }
    sum
}

fn read_counter(samples: &[Option<Vec<u64>>], index: u32) -> (sum: u64)
    requires
        counter(samples@, index) <= u64::MAX,
    ensures
        sum == counter(samples@, index),
{
    if (index as usize) < samples.len() {
        match &samples[index as usize] {
            Some(values) => total(values.as_slice()),
            None => 0,
        }
    } else {
        0
    }
}

impl DataPlane {
    /// One of the two buffers is active.
    pub open spec fn wf(&self) -> bool {
        self.active < 2
    }

    /// Start on buffer 0 with passthrough for unmatched traffic. The writes come
    /// with the new value.
    pub fn new() -> (r: (Self, Vec<MapOp>))
        ensures
            r.0.wf(),
            r.0.active == 0,
            r.0.installed_ports@.len() == 0,
            r.1@ == startup_ops(),
    {
        let ops: Vec<MapOp> = vec![
            MapOp::SetCtrl { index: CTRL_ACTIVE, value: 0 },
            MapOp::SetCtrl { index: CTRL_DROP_UNMATCHED, value: 0 },
        ];
        assert(ops@ =~= startup_ops());
        (DataPlane { active: 0, installed_ports: Vec::new() }, ops)
    }

    /// The writes that push abuse-protection thresholds into the data plane.
    pub fn set_protection(&self, p: ProtectionSettings) -> (ops: Vec<MapOp>)
        ensures
            ops@ == protection_ops(p),
    {
        let ops: Vec<MapOp> = vec![
            MapOp::SetCtrl { index: CTRL_RATE_MAX, value: p.rate_max },
            MapOp::SetCtrl { index: CTRL_RATE_WINDOW_MS, value: p.window_ms },
            MapOp::SetCtrl { index: CTRL_MALFORMED_MAX, value: p.malformed_max },
            MapOp::SetCtrl { index: CTRL_BLOCK_SECS, value: p.block_secs },
        ];
        assert(ops@ =~= protection_ops(p));
        ops
    }

    /// Sum the per-CPU data-plane counters. `samples` holds, by `STAT_*` index,
    /// the values of the CPUs, or `None` where they could not be read.
    pub fn read_stats(&self, samples: &[Option<Vec<u64>>]) -> (stats: Stats)
        requires
            forall|index: u32| index < 5 ==> #[trigger] counter(samples@, index) <= u64::MAX,
        ensures
            stats.routed == counter(samples@, STAT_ROUTED),
            stats.dropped_validation == counter(samples@, STAT_DROPPED_VALIDATION),
            stats.dropped_blocked == counter(samples@, STAT_DROPPED_BLOCKED),
            stats.dropped_rate == counter(samples@, STAT_DROPPED_RATE),
            stats.dropped_nobackend == counter(samples@, STAT_DROPPED_NOBACKEND),
    {
        Stats {
            routed: read_counter(samples, STAT_ROUTED),
            dropped_validation: read_counter(samples, STAT_DROPPED_VALIDATION),
            dropped_blocked: read_counter(samples, STAT_DROPPED_BLOCKED),
            dropped_rate: read_counter(samples, STAT_DROPPED_RATE),
            dropped_nobackend: read_counter(samples, STAT_DROPPED_NOBACKEND),
        }
    }

    /// The write that sets whether validated-but-unrouted packets are dropped.
    pub fn set_drop_unmatched(&self, drop: bool) -> (ops: Vec<MapOp>)
        ensures
            ops@ == drop_unmatched_ops(drop),
    {
        let value: u32 = if drop {
            1
        } else {
            0
        };
        let ops: Vec<MapOp> = vec![MapOp::SetCtrl { index: CTRL_DROP_UNMATCHED, value }];
        assert(ops@ =~= drop_unmatched_ops(drop));
        ops
    }

    /// The writes that reconcile the load-balanced port set, adding entries and
    /// then removing those that are gone. Once they are made, call
    /// [`DataPlane::ports_written`]; if one of them fails,
    /// [`DataPlane::ports_partly_written`].
    pub fn set_ports(&self, ports: &[u16]) -> (ops: Vec<MapOp>)
        ensures
            ops@ == port_ops(self.installed_ports@, ports@),
    {
        let added = ports_outside(ports, self.installed_ports.as_slice());
        let removed = ports_outside(self.installed_ports.as_slice(), ports);
        let mut ops: Vec<MapOp> = Vec::new();
        let mut i: usize = 0;
        while i < added.len()
            invariant
                i <= added@.len(),
                ops@ =~= added@.take(i as int).map_values(|p: u16| MapOp::InsertPort { port: p }),
            decreases added@.len() - i,
        {
            ops.push(MapOp::InsertPort { port: added[i] });
            i = i + 1;
        }
        let ghost first = added@.map_values(|p: u16| MapOp::InsertPort { port: p });
        assert(ops@ =~= first);
        let mut j: usize = 0;
        while j < removed.len()
            invariant
                j <= removed@.len(),
                ops@ =~= first + removed@.take(j as int).map_values(
                    |p: u16| MapOp::RemovePort { port: p },
                ),
            decreases removed@.len() - j,
        {
            ops.push(MapOp::RemovePort { port: removed[j] });
            j = j + 1;
        }
        assert(removed@.take(removed@.len() as int) =~= removed@);
        ops
    }

    /// Note that the port table now holds `ports`.
    pub fn ports_written(&mut self, ports: &[u16])
        ensures
            final(self).installed_ports@ == ports@,
            final(self).active == old(self).active,
    {
        self.installed_ports = vstd::slice::slice_to_vec(ports);
    }

    /// Note that the change to `ports` failed after `made` of its writes.
    pub fn ports_partly_written(&mut self, ports: &[u16], made: usize)
        ensures
            final(self).installed_ports@ == ports_on_record(
                old(self).installed_ports@,
                ports@,
                made as nat,
            ),
            final(self).active == old(self).active,
    {
        let added = ports_outside(ports, self.installed_ports.as_slice());
        let ghost before = self.installed_ports@;
        let mut i: usize = 0;
        while i < added.len() && i < made
            invariant
                i <= added@.len(),
                i <= made,
                self.installed_ports@ =~= before + added@.take(i as int),
                self.active == old(self).active,
            decreases added@.len() - i,
        {
            self.installed_ports.push(added[i]);
            i = i + 1;
        }
        assert(added@.take(added@.len() as int) =~= added@);
    }

    /// The writes that apply a new backend set + Maglev table to the standby
    /// buffer and then flip. Once they are made, call [`DataPlane::flipped`].
    ///
    /// `table` has length `M`; each entry is a *local* backend index (or
    /// `u32::MAX` for an empty slot).
    pub fn apply(&self, backends: &[Backend], table: &[u32]) -> (r: Result<
        Vec<MapOp>,
        ApplyError,
    >)
        requires
            self.wf(),
            backends@.len() <= N && table@.len() == M ==> forall|s: int|
                0 <= s < M ==> #[trigger] table@[s] == u32::MAX || standby_of(self.active) * N
                    + table@[s] <= u32::MAX,
        ensures
            match r {
                Ok(ops) => {
                    &&& backends@.len() <= N
                    &&& table@.len() == M
                    &&& ops@ == apply_ops(self.active, backends@, table@)
                },
                Err(ApplyError::TooManyBackends { count }) => backends@.len() > N && count
                    == backends@.len(),
                Err(ApplyError::BadTableSize { size }) => backends@.len() <= N && table@.len() != M
                    && size == table@.len(),
            },
    {
        if backends.len() > N as usize {
            return Err(ApplyError::TooManyBackends { count: backends.len() });
        }
        if table.len() != M as usize {
            return Err(ApplyError::BadTableSize { size: table.len() });
        }
        let standby: u32 = 1 - self.active;
        let base_id: u32 = standby * N;
        let mut ops: Vec<MapOp> = Vec::new();

        // 1. Fill the standby backend table.
        let mut i: usize = 0;
        while i < backends.len()
            invariant
                i <= backends@.len(),
                backends@.len() <= N,
                standby < 2,
                base_id == standby * N,
                ops@.len() == i,
                forall|k: int|
                    0 <= k < i ==> #[trigger] ops@[k] == backend_ops(standby, backends@)[k],
            decreases backends@.len() - i,
        {
            let b = &backends[i];
            let node = Node {
                daddr: b.ip.to_bits(),
                dport: match b.port {
                    Some(p) => p,
                    None => 0,
                },
                dmac: b.mac,
            };
            ops.push(MapOp::InsertBackend { id: base_id + i as u32, node });
            i = i + 1;
        }
        let ghost first = backend_ops(standby, backends@);
        assert(ops@ =~= first);

        // 2. Fill the standby route table with global backend ids.
        let route_base: u32 = standby * M;
        let mut slot: usize = 0;
        while slot < table.len()
            invariant
                slot <= table@.len(),
                table@.len() == M,
                standby < 2,
                base_id == standby * N,
                route_base == standby * M,
                forall|s: int|
                    0 <= s < M ==> #[trigger] table@[s] == u32::MAX || standby * N + table@[s]
                        <= u32::MAX,
                ops@.len() == first.len() + slot,
                forall|k: int| 0 <= k < first.len() ==> #[trigger] ops@[k] == first[k],
                forall|k: int|
                    first.len() <= k < first.len() + slot ==> #[trigger] ops@[k] == route_ops(
                        standby,
                        table@,
                    )[k - first.len()],
            decreases table@.len() - slot,
        {
            let local: u32 = table[slot];
            // An empty slot leads to no backend.
            let value: u32 = if local == u32::MAX {
                u32::MAX
            } else {
                base_id + local
            };
            ops.push(MapOp::SetRoute { slot: route_base + slot as u32, value });
            slot = slot + 1;
        }
        assert(ops@ =~= first + route_ops(standby, table@));

        // 3. Atomically switch the data plane to the freshly built buffer.
        ops.push(MapOp::SetCtrl { index: CTRL_ACTIVE, value: standby });
        Ok(ops)
    }

    /// Note that the data plane now reads the other buffer.
    pub fn flipped(&mut self)
        requires
            old(self).wf(),
        ensures
            final(self).wf(),
            final(self).active == standby_of(old(self).active),
            final(self).installed_ports@ == old(self).installed_ports@,
    {
        self.active = 1 - self.active;
    }
}

/// Law: a sum grows by each value that is added at the end; nothing sums to zero.
pub proof fn sums_add_up(values: Seq<u64>, v: u64)
    ensures
        sum_of(Seq::empty(), 0) == 0,
        sum_of(values.push(v), values.len() + 1) == sum_of(values, values.len()) + v,
{
    lemma_sum_same(values, values.push(v), values.len());
}

proof fn lemma_sum_same(a: Seq<u64>, b: Seq<u64>, n: nat)
    requires
        n <= a.len(),
        n <= b.len(),
        forall|i: int| 0 <= i < n ==> #[trigger] a[i] == b[i],
    ensures
        sum_of(a, n) == sum_of(b, n),
    decreases n,
{
    if n > 0 {
        lemma_sum_same(a, b, (n - 1) as nat);
        assert(a[n - 1] == b[n - 1]);
    }
}

/// Law: a counter is the sum over all the CPUs, and zero if it could not be read.
pub proof fn counters_are_summed(samples: Seq<Option<Vec<u64>>>, index: u32)
    ensures
        index >= samples.len() ==> counter(samples, index) == 0,
        index < samples.len() && samples[index as int] is None ==> counter(samples, index) == 0,
        index < samples.len() && samples[index as int] is Some ==> counter(samples, index)
            == sum_of(samples[index as int]->0@, samples[index as int]->0@.len()),
{
}

/// Law: only the difference between the ports is written: new ports are inserted, and
/// after them ports that are gone are removed.
pub proof fn only_the_difference_is_written(installed: Seq<u16>, ports: Seq<u16>, k: int)
    requires
        0 <= k < port_ops(installed, ports).len(),
    ensures
        match port_ops(installed, ports)[k] {
            MapOp::InsertPort { port } => {
                &&& ports.contains(port)
                &&& !installed.contains(port)
                &&& forall|j: int|
                    0 <= j < k ==> #[trigger] port_ops(installed, ports)[j] is InsertPort
            },
            MapOp::RemovePort { port } => installed.contains(port) && !ports.contains(port),
            _ => false,
        },
{
    let added = outside(ports, installed);
    let removed = outside(installed, ports);
    if k < added.len() {
        lemma_outside_holds(ports, installed, k);
    } else {
        lemma_outside_holds(installed, ports, k - added.len());
    }
}

proof fn lemma_outside_holds(ports: Seq<u16>, other: Seq<u16>, i: int)
    requires
        0 <= i < outside(ports, other).len(),
    ensures
        ports.contains(outside(ports, other)[i]),
        !other.contains(outside(ports, other)[i]),
    decreases ports.len(),
{
    reveal(Seq::filter);
    if ports.len() > 0 {
        let rest = ports.drop_last();
        let p = outside(ports, other)[i];
        if i < outside(rest, other).len() {
            lemma_outside_holds(rest, other, i);
            let j = choose|j: int| 0 <= j < rest.len() && rest[j] == p;
            assert(ports[j] == p);
        } else {
            assert(p == ports[ports.len() - 1]);
        }
    }
}

/// Law: a port at the end of a list is among those outside the other list exactly if it is
/// not in that list.
pub proof fn ports_outside_a_list(ports: Seq<u16>, p: u16, other: Seq<u16>)
    ensures
        outside(Seq::empty(), other) == Seq::<u16>::empty(),
        other.contains(p) ==> outside(ports.push(p), other) == outside(ports, other),
        !other.contains(p) ==> outside(ports.push(p), other) == outside(ports, other).push(p),
{
    reveal(Seq::filter);
    assert(ports.push(p).drop_last() =~= ports);
}

/// Law: the data plane's entry of a backend is its address, its MAC and its port, zero
/// standing for none.
pub proof fn entries_carry_the_backend(b: Backend)
    ensures
        node_of(b).daddr == b.ip.bits,
        node_of(b).dmac == b.mac,
        b.port is Some ==> node_of(b).dport == b.port->0,
        b.port is None ==> node_of(b).dport == 0,
{
}

/// Law: the two buffers take turns.
pub proof fn buffers_take_turns()
    ensures
        standby_of(0) == 1,
        standby_of(1) == 0,
{
}

} // verus!
